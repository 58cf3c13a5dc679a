//! Upstream's scene correction, `preprocess.exe`, run on the `.poly` before TetGen: what it
//! printed, and the sizes of the files it read and wrote.
//!
//! It never fails by its exit code: when a repair loop runs out of passes it prints
//! [`ABORTED_LINE`] and saves nothing; when it cannot read the file it prints [`NOT_FOUND_LINE`].
//! It prints [`STATUS_LINE`] and three counts only when it saves.
use crate::chars::{
    chars_of, parse_uint, parse_uint_of, starts, starts_with, strip_prefix_of, trim, trim_of,
};
use crate::poly::Model;
use std::path::PathBuf;
use vstd::prelude::*;

verus! {

/// A path, as the standard library holds it.
#[verifier::external_type_specification]
#[verifier::external_body]
pub struct ExPathBuf(PathBuf);

/// `preprocess.exe`, as upstream's build script builds it from its pinned sources.
pub const PREPROCESS_EXE_NAME: &'static str = "preprocess.exe";

/// The line `preprocess.exe` prints when a repair loop runs out of passes; it then saves nothing.
pub const ABORTED_LINE: &'static str = "Mesh reparation has been aborted";

/// The line it prints when it cannot read the file.
pub const NOT_FOUND_LINE: &'static str = "The mesh file cant be found !";

/// The first line of its statistics, printed only when it saves.
pub const STATUS_LINE: &'static str = "Remesh status :";

/// The start of each line it prints when it splits a triangle.
pub const SPLIT_LINE: &'static str = "Split Triangle for the ";

/// Upstream's `preprocess.exe`, run with the mesh folder as its working folder and the relative
/// argument `scene_mesh.poly`.
#[derive(Debug)]
pub struct PreprocessProgram {
    pub exe: PathBuf,
}

impl PreprocessProgram {
    /// The program at `exe`.
    pub fn new(exe: PathBuf) -> (r: Self)
        ensures
            r.exe == exe,
    {
        PreprocessProgram { exe }
    }
}

/// What becomes of the facet markers `preprocess.exe` writes.
#[derive(Clone, Copy, Debug, PartialEq, Eq, Hash, Structural)]
pub enum Markers {
    /// Each facet's marker is the facet it lies inside; the corrected `.poly` is what TetGen
    /// reads. The default.
    Restored,
    /// `preprocess.exe`'s bytes are kept, its user-facet markers with them, as upstream's GUI
    /// meshes them; such a mesh never passes verification, and is written for byte comparison
    /// only.
    Parity,
}

impl Markers {
    /// [`Markers::Restored`].
    pub fn default_markers() -> (r: Self)
        ensures
            r == Markers::Restored,
    {
        Markers::Restored
    }
}

/// What TetGen was given after a `preprocess.exe` run.
#[derive(Clone, Copy, Debug, PartialEq, Eq, Hash, Structural)]
pub enum PreprocessOutcome {
    /// TetGen read what `preprocess.exe` saved, accounted for facet by facet.
    Corrected,
    /// `preprocess.exe` saved nothing; TetGen read the `.poly` as the mesher wrote it.
    Aborted,
}

/// An output facet whose marker `preprocess.exe` wrote is not the facet it lies inside.
#[derive(Clone, Copy, Debug, PartialEq, Eq, Hash, Structural)]
pub struct MarkerChange {
    /// Its position in the output facet list (0-based).
    pub facet: u32,
    /// The marker `preprocess.exe` wrote.
    pub written: u32,
    /// The marker of the input facet it lies inside.
    pub restored: u32,
}

/// What `preprocess.exe` printed.
#[derive(Clone, Copy, Debug, PartialEq, Eq, Hash, Structural)]
pub struct Printed {
    /// It printed [`STATUS_LINE`], which it does only when it saves.
    pub status: bool,
    /// It printed [`ABORTED_LINE`].
    pub aborted: bool,
    /// It printed [`NOT_FOUND_LINE`].
    pub not_found: bool,
    /// `Vertices merged : N`.
    pub vertices_merged: Option<u64>,
    /// `Coplanar Faces destroyed : N`: the tiny scene facets and the coplanar user facets it
    /// deleted, one counter for both.
    pub faces_destroyed: Option<u64>,
    /// `Face splitted : N`.
    pub faces_split: Option<u64>,
    /// Lines `Split Triangle for the N times. [x;y;z]`.
    pub split_lines: usize,
}

/// The count a trimmed line gives for `label`: the line starts with it, then, trimmed, `:`,
/// then, trimmed, an unsigned integer.
pub open spec fn count_of(t: Seq<char>, label: Seq<char>) -> Option<u64> {
    let l = trim(t);
    if starts_with(l, label) {
        let rest = trim(l.subrange(label.len() as int, l.len() as int));
        if starts_with(rest, seq![':']) {
            parse_uint(trim(rest.subrange(1, rest.len() as int)))
        } else {
            None
        }
    } else {
        None
    }
}

/// `b` when it is a count, else `a`.
pub open spec fn latest(a: Option<u64>, b: Option<u64>) -> Option<u64> {
    match b {
        Some(n) => Some(n),
        None => a,
    }
}

/// Nothing printed yet.
pub open spec fn nothing_printed() -> Printed {
    Printed {
        status: false,
        aborted: false,
        not_found: false,
        vertices_merged: None,
        faces_destroyed: None,
        faces_split: None,
        split_lines: 0,
    }
}

/// What the first `k` of `lines` printed: each flag set by a line starting (trimmed) with its
/// text, each count the last one given, and the split lines counted.
pub open spec fn printed_by(lines: Seq<Seq<char>>, k: int) -> Printed
    decreases k,
{
    if k <= 0 {
        nothing_printed()
    } else {
        let p = printed_by(lines, k - 1);
        let t = trim(lines[k - 1]);
        Printed {
            status: p.status || starts_with(t, STATUS_LINE@),
            aborted: p.aborted || starts_with(t, ABORTED_LINE@),
            not_found: p.not_found || starts_with(t, NOT_FOUND_LINE@),
            vertices_merged: latest(p.vertices_merged, count_of(t, "Vertices merged"@)),
            faces_destroyed: latest(p.faces_destroyed, count_of(t, "Coplanar Faces destroyed"@)),
            faces_split: latest(p.faces_split, count_of(t, "Face splitted"@)),
            split_lines: if starts_with(t, SPLIT_LINE@) {
                (p.split_lines + 1) as usize
            } else {
                p.split_lines
            },
        }
    }
}

/// No more split lines than lines.
proof fn lemma_split_lines(lines: Seq<Seq<char>>, k: int)
    requires
        0 <= k,
    ensures
        printed_by(lines, k).split_lines <= k,
    decreases k,
{
    if k > 0 {
        lemma_split_lines(lines, k - 1);
    }
}

/// [`count_of`].
fn count_in(t: &[char], label: &str) -> (r: Option<u64>)
    ensures
        r == count_of(t@, label@),
{
    let l = trim_of(t);
    let rest = match strip_prefix_of(l, label) {
        None => return None,
        Some(r) => trim_of(r),
    };
    proof {
        reveal_strlit(":");
        assert(":"@ =~= seq![':']);
    }
    let after = match strip_prefix_of(rest, ":") {
        None => return None,
        Some(a) => a,
    };
    parse_uint_of(trim_of(after))
}

/// Reads `preprocess.exe`'s stdout lines ([`printed_by`]).
pub fn parse_stdout(lines: &[String]) -> (r: Printed)
    ensures
        r == printed_by(lines@.map_values(|l: String| l@), lines@.len() as int),
{
    let ghost ls = lines@.map_values(|l: String| l@);
    let mut p = Printed {
        status: false,
        aborted: false,
        not_found: false,
        vertices_merged: None,
        faces_destroyed: None,
        faces_split: None,
        split_lines: 0,
    };
    let mut k: usize = 0;
    while k < lines.len()
        invariant
            k <= lines@.len(),
            ls == lines@.map_values(|l: String| l@),
            p == printed_by(ls, k as int),
        decreases lines@.len() - k,
    {
        let cs = chars_of(lines[k].as_str());
        assert(ls[k as int] == cs@);
        let t = trim_of(cs.as_slice());
        proof {
            lemma_split_lines(ls, k as int);
        }
        p.status = p.status || starts(t, STATUS_LINE);
        p.aborted = p.aborted || starts(t, ABORTED_LINE);
        p.not_found = p.not_found || starts(t, NOT_FOUND_LINE);
        if starts(t, SPLIT_LINE) {
            p.split_lines = p.split_lines + 1;
        }
        if let Some(n) = count_in(t, "Vertices merged") {
            p.vertices_merged = Some(n);
        }
        if let Some(n) = count_in(t, "Coplanar Faces destroyed") {
            p.faces_destroyed = Some(n);
        }
        if let Some(n) = count_in(t, "Face splitted") {
            p.faces_split = Some(n);
        }
        k = k + 1;
    }
    p
}

/// Sizes of a `.poly`.
#[derive(Clone, Copy, Debug, PartialEq, Eq, Hash, Structural)]
pub struct PolyCounts {
    pub vertices: usize,
    pub facets: usize,
    pub user_facets: usize,
    pub regions: usize,
}

impl PolyCounts {
    /// The sizes of `m`.
    pub fn of(m: &Model) -> (r: Self)
        ensures
            r.vertices == m.vertices,
            r.facets == m.model_faces@.len(),
            r.user_facets == m.user_defined_faces@.len(),
            r.regions == m.regions,
    {
        PolyCounts {
            vertices: m.vertices,
            facets: m.model_faces.len(),
            user_facets: m.user_defined_faces.len(),
            regions: m.regions,
        }
    }
}

} // verus!
