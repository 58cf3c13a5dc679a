//! The mesher's reason codes, what a TetGen run's outcome and files give of them, and the status
//! the codes give a run.
use crate::diag::{spec_stopped, stopped_on_self_intersection, texts};
use vstd::prelude::*;

verus! {

/// The settings ask for a `.var` and `-Y` together.
pub const MESH_SETTINGS_CONFLICT: &'static str = "mesh_settings_conflict";

/// The project or `.poly` cannot be turned into TetGen input.
pub const INPUT_INVALID: &'static str = "input_invalid";

/// A file an earlier mesh left in the folder could not be deleted.
pub const STALE_DELETE_FAILED: &'static str = "stale_delete_failed";

/// `mesh.cbin`, `scene_mesh.poly` or `scene_mesh.var` could not be written.
pub const INPUT_WRITE_FAILED: &'static str = "input_write_failed";

/// TetGen could not be started, or its output could not be logged.
pub const TETGEN_LAUNCH_FAILED: &'static str = "tetgen_launch_failed";

/// Meshing was cancelled.
pub const CANCELLED: &'static str = "cancelled";

/// TetGen's exit code is an NTSTATUS error (0xC0000000 and up).
pub const TETGEN_CRASH: &'static str = "tetgen_crash";

/// TetGen exited with a code other than 0.
pub const TETGEN_EXIT_NONZERO: &'static str = "tetgen_exit_nonzero";

/// TetGen skipped input facets as self-intersecting (its `_skipped.face` has rows).
pub const TETGEN_SKIPPED_FACETS: &'static str = "tetgen_skipped_facets";

/// TetGen stopped on a self-intersection of its input.
pub const TETGEN_SELF_INTERSECTION: &'static str = "tetgen_self_intersection";

/// `.1.node`, `.1.ele` or `.1.face` is missing.
pub const TETGEN_OUTPUT_MISSING: &'static str = "tetgen_output_missing";

/// `.1.neigh` is missing; neighbours are never computed any other way.
pub const NEIGH_MISSING: &'static str = "neigh_missing";

/// TetGen's files cannot be read, or disagree with each other or with the scene.
pub const TETGEN_OUTPUT_INVALID: &'static str = "tetgen_output_invalid";

/// The mesh built fails the mesh check.
pub const MESH_INVALID: &'static str = "mesh_invalid";

/// The `.mbin` could not be written.
pub const MBIN_WRITE_FAILED: &'static str = "mbin_write_failed";

/// The geometry check refuses the geometry TetGen is given.
pub const GEOMETRY_REFUSED: &'static str = "geometry_refused";

/// `preprocess.exe` could not be started, none was given, or its log could not be written.
pub const PREPROCESS_LAUNCH_FAILED: &'static str = "preprocess_launch_failed";

/// `preprocess.exe`'s exit code is an NTSTATUS error.
pub const PREPROCESS_CRASH: &'static str = "preprocess_crash";

/// `preprocess.exe` exited with a code other than 0.
pub const PREPROCESS_EXIT_NONZERO: &'static str = "preprocess_exit_nonzero";

/// `preprocess.exe` gave up, could not read the file, printed no statistics, or saved user
/// facets it never merged.
pub const PREPROCESS_ABORTED: &'static str = "preprocess_aborted";

/// What `preprocess.exe` saved does not read, or cannot be accounted for.
pub const PREPROCESS_OUTPUT_INVALID: &'static str = "preprocess_output_invalid";

/// How meshing ended. Only a run that succeeded comes with a mesh.
#[derive(Clone, Copy, Debug, PartialEq, Eq, Structural)]
pub enum MeshStatus {
    Succeeded,
    Failed,
    Cancelled,
}

/// Where a run's input came from.
#[derive(Clone, Copy, Debug, PartialEq, Eq, Structural)]
pub enum MeshSource {
    /// A project.
    Project,
    /// A raw `.poly`.
    Poly,
    /// TetGen output made elsewhere.
    External,
}

/// `code` recorded once, with its message: a code already listed is not listed again.
pub fn fail(codes: &mut Vec<String>, messages: &mut Vec<String>, code: &str, message: String)
    ensures
        final(codes)@.map_values(|c: String| c@) == if old(codes)@.map_values(|c: String| c@).contains(code@) {
            old(codes)@.map_values(|c: String| c@)
        } else {
            old(codes)@.map_values(|c: String| c@).push(code@)
        },
        final(messages)@ == old(messages)@.push(message),
{
    let ghost before = codes@.map_values(|c: String| c@);
    let mut k: usize = 0;
    let mut seen = false;
    while k < codes.len()
        invariant
            k <= codes@.len(),
            before == codes@.map_values(|c: String| c@),
            seen == exists|j: int| 0 <= j < k && #[trigger] codes@[j]@ == code@,
        decreases codes@.len() - k,
    {
        if str_equal(codes[k].as_str(), code) {
            seen = true;
        }
        k = k + 1;
    }
    proof {
        if seen {
            let j = choose|j: int| 0 <= j < k && #[trigger] codes@[j]@ == code@;
            assert(before[j] == code@);
        }
        if before.contains(code@) {
            let j = choose|j: int| 0 <= j < before.len() && before[j] == code@;
            assert(codes@[j]@ == code@);
        }
    }
    if !seen {
        codes.push(code.to_string());
        assert(codes@.map_values(|c: String| c@) =~= before.push(code@));
    }
    messages.push(message);
}

/// Whether two texts are equal.
fn str_equal(a: &str, b: &str) -> (r: bool)
    ensures
        r == (a@ == b@),
{
    crate::import::str_eq(a, b)
}

/// The status the codes give: cancelled when [`CANCELLED`] is among them, else succeeded when
/// there are none, else failed.
pub fn status_of(codes: &Vec<String>) -> (r: MeshStatus)
    ensures
        r == if codes@.map_values(|c: String| c@).contains(CANCELLED@) {
            MeshStatus::Cancelled
        } else if codes@.len() == 0 {
            MeshStatus::Succeeded
        } else {
            MeshStatus::Failed
        },
{
    let ghost vs = codes@.map_values(|c: String| c@);
    let mut k: usize = 0;
    while k < codes.len()
        invariant
            k <= codes@.len(),
            vs == codes@.map_values(|c: String| c@),
            forall|j: int| 0 <= j < k ==> #[trigger] vs[j] != CANCELLED@,
        decreases codes@.len() - k,
    {
        if str_equal(codes[k].as_str(), CANCELLED) {
            assert(vs[k as int] == CANCELLED@);
            return MeshStatus::Cancelled;
        }
        k = k + 1;
    }
    proof {
        if vs.contains(CANCELLED@) {
            let j = choose|j: int| 0 <= j < vs.len() && vs[j] == CANCELLED@;
        }
    }
    if codes.len() == 0 {
        MeshStatus::Succeeded
    } else {
        MeshStatus::Failed
    }
}

/// What reading TetGen's `_skipped.face` gave.
#[derive(Clone, Copy, Debug, PartialEq, Eq, Structural)]
pub enum SkippedRead {
    /// There is no such file.
    Absent,
    /// It read, with this many rows.
    Rows(usize),
    /// It did not read.
    Invalid,
}

/// The codes one TetGen run gives, in this order: cancelled; crashed (an exit code from
/// 0xC0000000 up); exited other than 0; stopped on a self-intersection (exit code 3 and 1.5.0's
/// stop line on stdout); skipped facets (a `_skipped.face` with rows), or that file unreadable;
/// its mesh files missing; its `.1.neigh` missing.
pub open spec fn spec_run_codes(
    cancelled: bool,
    exit_code: Option<u32>,
    stopped: bool,
    skipped: SkippedRead,
    missing: bool,
    neigh: bool,
) -> Seq<&'static str> {
    cancel_codes(cancelled) + exit_codes(exit_code, stopped) + skipped_codes(skipped) + file_codes(missing, neigh)
}

/// [`CANCELLED`] for a cancelled run.
pub open spec fn cancel_codes(cancelled: bool) -> Seq<&'static str> {
    if cancelled {
        seq![CANCELLED]
    } else {
        seq![]
    }
}

/// What the exit code gives: crashed, exited other than 0, stopped on a self-intersection.
pub open spec fn exit_codes(exit_code: Option<u32>, stopped: bool) -> Seq<&'static str> {
    match exit_code {
        None => seq![],
        Some(c) => (if c >= 0xC000_0000 {
            seq![TETGEN_CRASH]
        } else {
            seq![]
        }) + (if c != 0 {
            seq![TETGEN_EXIT_NONZERO]
        } else {
            seq![]
        }) + (if c == 3 && stopped {
            seq![TETGEN_SELF_INTERSECTION]
        } else {
            seq![]
        }),
    }
}

/// What `_skipped.face` gives: skipped facets when it has rows, invalid output when it does not
/// read.
pub open spec fn skipped_codes(skipped: SkippedRead) -> Seq<&'static str> {
    match skipped {
        SkippedRead::Rows(n) => if n > 0 {
            seq![TETGEN_SKIPPED_FACETS]
        } else {
            seq![]
        },
        SkippedRead::Invalid => seq![TETGEN_OUTPUT_INVALID],
        SkippedRead::Absent => seq![],
    }
}

/// What the files give: mesh files missing, `.1.neigh` missing.
pub open spec fn file_codes(missing: bool, neigh: bool) -> Seq<&'static str> {
    (if missing {
        seq![TETGEN_OUTPUT_MISSING]
    } else {
        seq![]
    }) + (if neigh {
        seq![]
    } else {
        seq![NEIGH_MISSING]
    })
}

/// The codes of the exit code ([`exit_codes`]), and whether the run stopped on a
/// self-intersection.
fn exit_part(exit_code: Option<u32>, stdout: &[String]) -> (r: (Vec<&'static str>, bool))
    ensures
        r.1 == (exit_code == Some(3u32) && spec_stopped(texts(stdout@))),
        r.0@ == exit_codes(exit_code, r.1),
{
    let mut codes: Vec<&'static str> = Vec::new();
    let mut stopped = false;
    if let Some(code) = exit_code {
        if code >= 0xC000_0000 {
            codes.push(TETGEN_CRASH);
        }
        if code != 0 {
            codes.push(TETGEN_EXIT_NONZERO);
        }
        if code == 3 && stopped_on_self_intersection(stdout) {
            stopped = true;
            codes.push(TETGEN_SELF_INTERSECTION);
        }
        assert(codes@ =~= exit_codes(exit_code, stopped));
    }
    (codes, stopped)
}

/// The codes of `_skipped.face` ([`skipped_codes`]).
fn skipped_part(skipped: SkippedRead) -> (r: Vec<&'static str>)
    ensures
        r@ == skipped_codes(skipped),
{
    let mut codes: Vec<&'static str> = Vec::new();
    match skipped {
        SkippedRead::Rows(n) => {
            if n > 0 {
                codes.push(TETGEN_SKIPPED_FACETS);
            }
        },
        SkippedRead::Invalid => {
            codes.push(TETGEN_OUTPUT_INVALID);
        },
        SkippedRead::Absent => {},
    }
    assert(codes@ =~= skipped_codes(skipped));
    codes
}

/// The codes of the files ([`file_codes`]).
fn file_part(missing: bool, neigh: bool) -> (r: Vec<&'static str>)
    ensures
        r@ == file_codes(missing, neigh),
{
    let mut codes: Vec<&'static str> = Vec::new();
    if missing {
        codes.push(TETGEN_OUTPUT_MISSING);
    }
    if !neigh {
        codes.push(NEIGH_MISSING);
    }
    assert(codes@ =~= file_codes(missing, neigh));
    codes
}

/// What one TetGen run gives ([`spec_run_codes`]): its codes, whether it skipped facets, and
/// whether it stopped on a self-intersection; from whether it was cancelled, its exit code, its
/// stdout lines, what its `_skipped.face` read as, whether mesh files are missing and whether
/// its `.1.neigh` is there.
pub fn run_codes(
    cancelled: bool,
    exit_code: Option<u32>,
    stdout: &[String],
    skipped: SkippedRead,
    missing: bool,
    neigh: bool,
) -> (r: (Vec<&'static str>, bool, bool))
    ensures
        r.0@ == spec_run_codes(
            cancelled,
            exit_code,
            exit_code == Some(3u32) && spec_stopped(texts(stdout@)),
            skipped,
            missing,
            neigh,
        ),
        r.1 == (skipped matches SkippedRead::Rows(n) && n > 0),
        r.2 == (exit_code == Some(3u32) && spec_stopped(texts(stdout@))),
{
    let mut codes: Vec<&'static str> = Vec::new();
    if cancelled {
        codes.push(CANCELLED);
    }
    assert(codes@ =~= cancel_codes(cancelled));
    let (mut e, stopped) = exit_part(exit_code, stdout);
    codes.append(&mut e);
    let mut k = skipped_part(skipped);
    codes.append(&mut k);
    let mut f = file_part(missing, neigh);
    codes.append(&mut f);
    let skipped_rows = match skipped {
        SkippedRead::Rows(n) => n > 0,
        _ => false,
    };
    (codes, skipped_rows, stopped)
}

} // verus!
