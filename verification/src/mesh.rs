//! The mesh folder's file names, and which of them an earlier mesh may have left behind.
use crate::import::{lower_ascii, spec_lower};
use vstd::string::StringSliceAdditionalSpecFns;
use vstd::prelude::*;

verus! {

/// TetGen's input basename in a mesh folder, the one I-Simpa's GUI uses.
pub const BASENAME: &'static str = "scene_mesh";

/// The `.poly` in a mesh folder.
pub const POLY_FILE: &'static str = "scene_mesh.poly";

/// The `.var` in a mesh folder.
pub const VAR_FILE: &'static str = "scene_mesh.var";

/// The `.edge` TetGen reads beside the `.poly`.
pub const EDGE_FILE: &'static str = "scene_mesh.edge";

/// The `.mtr` TetGen reads beside the `.poly`.
pub const MTR_FILE: &'static str = "scene_mesh.mtr";

/// The folder of the `tetgen -d` follow-up, inside a mesh folder.
pub const DIAG_DIR: &'static str = "diag";

/// Log file for the mesher's stdout, in the folder it ran in.
pub const STDOUT_LOG: &'static str = "tetgen.stdout.txt";

/// Log file for the mesher's stderr, in the folder it ran in.
pub const STDERR_LOG: &'static str = "tetgen.stderr.txt";

/// Log file for `preprocess.exe`'s stdout, in the mesh folder.
pub const PREPROCESS_STDOUT_LOG: &'static str = "preprocess.stdout.txt";

/// Log file for `preprocess.exe`'s stderr, in the mesh folder.
pub const PREPROCESS_STDERR_LOG: &'static str = "preprocess.stderr.txt";

/// The `.poly` as the mesher wrote it, kept beside `scene_mesh.poly` once `preprocess.exe` has
/// rewritten that.
pub const INPUT_POLY: &'static str = "scene_mesh.input.poly";

/// The manifest's file name in a mesh folder.
pub const MANIFEST_FILE: &'static str = "mesh.json";

/// The solvers' mesh, written when it passes verification.
pub const TETRA_MESH: &'static str = "tetramesh.mbin";

/// The scene the mesh was made from, as the solvers read it.
pub const SCENE_MESH: &'static str = "mesh.cbin";

/// What every file of TetGen's output set starts with.
pub const OUTPUT_PREFIX: &'static str = "scene_mesh.1.";

/// What every file of TetGen's skipped-facet report starts with.
pub const SKIPPED_PREFIX: &'static str = "scene_mesh_skipped.";

/// `s` with its ASCII letters in lower case.
pub open spec fn lower_seq(s: Seq<u8>) -> Seq<u8> {
    s.map_values(|b: u8| spec_lower(b))
}

/// The names a mesh writes whole, as bytes.
pub open spec fn stale_names() -> Seq<Seq<u8>> {
    seq![
        POLY_FILE.spec_bytes(),
        VAR_FILE.spec_bytes(),
        EDGE_FILE.spec_bytes(),
        MTR_FILE.spec_bytes(),
        INPUT_POLY.spec_bytes(),
        PREPROCESS_STDOUT_LOG.spec_bytes(),
        PREPROCESS_STDERR_LOG.spec_bytes(),
        TETRA_MESH.spec_bytes(),
        SCENE_MESH.spec_bytes(),
        MANIFEST_FILE.spec_bytes(),
        STDOUT_LOG.spec_bytes(),
        STDERR_LOG.spec_bytes(),
    ]
}

/// `p` starts `s`.
pub open spec fn starts(s: Seq<u8>, p: Seq<u8>) -> bool {
    p.len() <= s.len() && s.subrange(0, p.len() as int) == p
}

/// A file an earlier mesh may have left: ignoring ASCII case, one of [`stale_names`], or a file
/// of TetGen's output set or skipped-facet report.
pub open spec fn spec_is_stale(name: Seq<u8>) -> bool {
    let n = lower_seq(name);
    ||| stale_names().contains(n)
    ||| starts(n, OUTPUT_PREFIX.spec_bytes())
    ||| starts(n, SKIPPED_PREFIX.spec_bytes())
}

/// Whether `s`, lower-cased, starts with `p` (all of `s` when `whole`).
fn lower_starts(s: &[u8], p: &[u8], whole: bool) -> (r: bool)
    ensures
        r == if whole {
            lower_seq(s@) == p@
        } else {
            starts(lower_seq(s@), p@)
        },
{
    let ls = s.len();
    let lp = p.len();
    if lp > ls || (whole && lp != ls) {
        return false;
    }
    let mut i: usize = 0;
    while i < lp
        invariant
            lp <= ls == s@.len(),
            lp == p@.len(),
            i <= lp,
            forall|j: int| 0 <= j < i ==> spec_lower(#[trigger] s@[j]) == p@[j],
        decreases lp - i,
    {
        if lower_ascii(s[i]) != p[i] {
            assert(lower_seq(s@).subrange(0, lp as int)[i as int] != p@[i as int]);
            return false;
        }
        i = i + 1;
    }
    assert(lower_seq(s@).subrange(0, lp as int) =~= p@);
    if whole {
        assert(lower_seq(s@) =~= p@);
    }
    true
}

/// Whether `name` is a file a mesh writes, or one TetGen reads beside `scene_mesh.poly`.
pub fn is_stale(name: &str) -> (r: bool)
    ensures
        r == spec_is_stale(name.spec_bytes()),
{
    let n = name.as_bytes();
    let names: [&'static str; 12] = [
        POLY_FILE,
        VAR_FILE,
        EDGE_FILE,
        MTR_FILE,
        INPUT_POLY,
        PREPROCESS_STDOUT_LOG,
        PREPROCESS_STDERR_LOG,
        TETRA_MESH,
        SCENE_MESH,
        MANIFEST_FILE,
        STDOUT_LOG,
        STDERR_LOG,
    ];
    let ghost l = lower_seq(n@);
    let mut i: usize = 0;
    while i < 12
        invariant
            names@.len() == 12,
            forall|j: int| 0 <= j < 12 ==> (#[trigger] names@[j]).spec_bytes() == stale_names()[j],
            l == lower_seq(n@),
            n@ == name.spec_bytes(),
            i <= 12,
            forall|j: int| 0 <= j < i ==> stale_names()[j] != l,
        decreases 12 - i,
    {
        if lower_starts(n, names[i].as_bytes(), true) {
            assert(stale_names()[i as int] == l);
            assert(stale_names().contains(l));
            return true;
        }
        i = i + 1;
    }
    assert(!stale_names().contains(l));
    lower_starts(n, OUTPUT_PREFIX.as_bytes(), false) || lower_starts(n, SKIPPED_PREFIX.as_bytes(), false)
}

/// Which of a box's bounds corner `k` takes on each axis (true: max). Corners 0-3 go round the
/// bottom, (x0,y0) (x1,y0) (x1,y1) (x0,y1); corners 4-7 are the same round the top.
pub open spec fn spec_box_corner(k: int) -> (bool, bool, bool) {
    let r = k % 4;
    (r == 1 || r == 2, r == 2 || r == 3, k >= 4)
}

/// [`spec_box_corner`], for any `k`.
pub fn box_corner(k: usize) -> (r: [bool; 3])
    ensures
        (r@[0], r@[1], r@[2]) == spec_box_corner(k as int),
{
    let r = k & 3;
    assert(r == k % 4) by (bit_vector)
        requires
            r == k & 3,
    ;
    [r == 1 || r == 2, r == 2 || r == 3, k >= 4]
}

/// The 12 triangles of a box over [`spec_box_corner`]'s numbering, wound to face outward.
pub open spec fn spec_box_triangle(t: int) -> (int, int, int) {
    if t == 0 {
        (0, 2, 1)
    } else if t == 1 {
        (0, 3, 2)
    } else if t == 2 {
        (4, 5, 6)
    } else if t == 3 {
        (4, 6, 7)
    } else if t == 4 {
        (0, 1, 5)
    } else if t == 5 {
        (0, 5, 4)
    } else if t == 6 {
        (1, 2, 6)
    } else if t == 7 {
        (1, 6, 5)
    } else if t == 8 {
        (2, 3, 7)
    } else if t == 9 {
        (2, 7, 6)
    } else if t == 10 {
        (3, 0, 4)
    } else {
        (3, 4, 7)
    }
}

/// The 12 triangles of a box ([`spec_box_triangle`]).
pub fn box_triangles() -> (r: [[usize; 3]; 12])
    ensures
        forall|t: int| 0 <= t < 12 ==> (r@[t]@[0] as int, r@[t]@[1] as int, r@[t]@[2] as int) == spec_box_triangle(t),
{
    let r: [[usize; 3]; 12] = [
        [0, 2, 1],
        [0, 3, 2],
        [4, 5, 6],
        [4, 6, 7],
        [0, 1, 5],
        [0, 5, 4],
        [1, 2, 6],
        [1, 6, 5],
        [2, 3, 7],
        [2, 7, 6],
        [3, 0, 4],
        [3, 4, 7],
    ];
    assert forall|t: int| 0 <= t < 12 implies (r@[t]@[0] as int, r@[t]@[1] as int, r@[t]@[2] as int) == spec_box_triangle(t) by {
        if t == 0 {
        } else if t == 1 {
        } else if t == 2 {
        } else if t == 3 {
        } else if t == 4 {
        } else if t == 5 {
        } else if t == 6 {
        } else if t == 7 {
        } else if t == 8 {
        } else if t == 9 {
        } else if t == 10 {
        } else {
        }
    }
    r
}

/// A coordinate of the unit box's corner `k` on an axis: 1 at the max, else 0.
pub open spec fn unit(b: bool) -> int {
    if b {
        1
    } else {
        0
    }
}

/// The unit box's corner `k` on axis `axis` (0, 1, 2): 1 at the max, else 0.
pub open spec fn at(k: int, axis: int) -> int {
    let (x, y, z) = spec_box_corner(k);
    if axis == 0 {
        unit(x)
    } else if axis == 1 {
        unit(y)
    } else {
        unit(z)
    }
}

/// Twice the dot product of triangle `(a, b, c)`'s normal `(b - a) x (c - a)` with the vector
/// from the unit box's centre to `a`: positive when the triangle faces away from the centre.
pub open spec fn outwardness(a: int, b: int, c: int) -> int {
    let u0 = at(b, 0) - at(a, 0);
    let u1 = at(b, 1) - at(a, 1);
    let u2 = at(b, 2) - at(a, 2);
    let v0 = at(c, 0) - at(a, 0);
    let v1 = at(c, 1) - at(a, 1);
    let v2 = at(c, 2) - at(a, 2);
    (u1 * v2 - u2 * v1) * (2 * at(a, 0) - 1) + (u2 * v0 - u0 * v2) * (2 * at(a, 1) - 1) + (u0 * v1 - u1
        * v0) * (2 * at(a, 2) - 1)
}

/// Every triangle of the box faces outward: its normal, by the right-hand rule over its corner
/// order, points away from the box's centre.
pub proof fn lemma_box_triangles_face_outward()
    ensures
        forall|t: int|
            0 <= t < 12 ==> #[trigger] outwardness(spec_box_triangle(t).0, spec_box_triangle(t).1, spec_box_triangle(t).2) > 0,
{
    assert forall|t: int|
        0 <= t < 12 implies #[trigger] outwardness(spec_box_triangle(t).0, spec_box_triangle(t).1, spec_box_triangle(t).2) > 0 by {
        if t == 0 {
            assert(outwardness(0, 2, 1) == 1) by (nonlinear_arith);
        } else if t == 1 {
            assert(outwardness(0, 3, 2) == 1) by (nonlinear_arith);
        } else if t == 2 {
            assert(outwardness(4, 5, 6) == 1) by (nonlinear_arith);
        } else if t == 3 {
            assert(outwardness(4, 6, 7) == 1) by (nonlinear_arith);
        } else if t == 4 {
            assert(outwardness(0, 1, 5) == 1) by (nonlinear_arith);
        } else if t == 5 {
            assert(outwardness(0, 5, 4) == 1) by (nonlinear_arith);
        } else if t == 6 {
            assert(outwardness(1, 2, 6) == 1) by (nonlinear_arith);
        } else if t == 7 {
            assert(outwardness(1, 6, 5) == 1) by (nonlinear_arith);
        } else if t == 8 {
            assert(outwardness(2, 3, 7) == 1) by (nonlinear_arith);
        } else if t == 9 {
            assert(outwardness(2, 7, 6) == 1) by (nonlinear_arith);
        } else if t == 10 {
            assert(outwardness(3, 0, 4) == 1) by (nonlinear_arith);
        } else {
            assert(outwardness(3, 4, 7) == 1) by (nonlinear_arith);
        }
    }
}

} // verus!
