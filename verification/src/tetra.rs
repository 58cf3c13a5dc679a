//! The per-tetrahedron checks of a tetrahedral mesh: corner, face-vertex and neighbour indices
//! out of range, repeated corners, the orientation and the order of each face. A face `i` is the
//! face opposite corner `i`, wound `B D C`, `C D A`, `A D B`, `B C A` for corners `(A, B, C, D)`;
//! any rotation of that triple is accepted. The sign of `(A−D)·((B−D)×(C−D))` against the noise
//! floor of the corners is found on coordinates by the caller.
use crate::census::{count_where, lemma_pack3, pack3, sort3, sort_keys, sorted3};
use crate::volumes::{contains, known_from, VolumeIds};
use std::collections::HashMap;
use vstd::prelude::*;

verus! {

broadcast use vstd::std_specs::hash::group_hash_axioms;

/// A face of a tetrahedron: its three nodes, the tetrahedron across it (negative for none), and
/// the scene face it lies on (negative for none).
pub struct TetFace {
    pub vertices: [i32; 3],
    pub neighbor: i32,
    pub marker: i32,
}

/// A tetrahedron: its four corners, its faces in corner order, and its volume id.
pub struct Tetra {
    pub vertices: [i32; 4],
    pub faces: [TetFace; 4],
    pub id_volume: i32,
}

/// The sign of a tetrahedron's `(A−D)·((B−D)×(C−D))`, or `Unresolved` when its magnitude is at
/// or below the noise floor of the corners (or not a number).
pub enum Orientation {
    Unresolved,
    Negative,
    Positive,
}

/// The offending items of the per-face checks and the scene coverage, each count under its
/// reason code, with the first uncovered scene faces.
pub struct FaceCounts {
    pub unmarked_boundary_faces: usize,
    pub marker_out_of_range: usize,
    pub nonmutual_neighbors: usize,
    pub asymmetric_internal_faces: usize,
    pub uncovered_scene_faces: usize,
    pub uncovered_scene_faces_first: Vec<u32>,
}

/// The offending items of the per-tetrahedron checks, each count under its reason code.
pub struct TetraCounts {
    pub index_errors: usize,
    pub degenerate_tets: usize,
    pub inverted_tets: usize,
    pub misordered_faces: usize,
}

/// One when node index `v` is out of range, else zero.
pub open spec fn bad(v: i32, nodes: int) -> nat {
    if 0 <= v < nodes {
        0
    } else {
        1
    }
}

/// The out-of-range indices of a face: its nodes, and a neighbour at or past the last
/// tetrahedron.
pub open spec fn face_errors(f: TetFace, nodes: int, tets: int) -> nat {
    bad(f.vertices[0], nodes) + bad(f.vertices[1], nodes) + bad(f.vertices[2], nodes) + if f.neighbor
        >= tets && f.neighbor >= 0 {
        1nat
    } else {
        0nat
    }
}

/// The out-of-range corners of a tetrahedron.
pub open spec fn corner_errors(t: Tetra, nodes: int) -> nat {
    bad(t.vertices[0], nodes) + bad(t.vertices[1], nodes) + bad(t.vertices[2], nodes) + bad(
        t.vertices[3],
        nodes,
    )
}

/// The out-of-range indices of a tetrahedron: those of its four faces and of its corners.
pub open spec fn tet_errors(t: Tetra, nodes: int, tets: int) -> nat {
    face_errors(t.faces[0], nodes, tets) + face_errors(t.faces[1], nodes, tets) + face_errors(
        t.faces[2],
        nodes,
        tets,
    ) + face_errors(t.faces[3], nodes, tets) + corner_errors(t, nodes)
}

/// No corner repeats.
pub open spec fn distinct4(v: [i32; 4]) -> bool {
    v[0] != v[1] && v[0] != v[2] && v[0] != v[3] && v[1] != v[2] && v[1] != v[3] && v[2] != v[3]
}

/// The tetrahedron gets the orientation and face-order checks: its corners are in range and
/// distinct, and its orientation is resolved.
pub open spec fn resolved(t: Tetra, nodes: int, o: Orientation) -> bool {
    corner_errors(t, nodes) == 0 && distinct4(t.vertices) && !(o is Unresolved)
}

/// Corners in range, but repeated or unresolved.
pub open spec fn degenerate(t: Tetra, nodes: int, o: Orientation) -> bool {
    corner_errors(t, nodes) == 0 && !resolved(t, nodes, o)
}

/// Resolved and positive, against the convention.
pub open spec fn inverted(t: Tetra, nodes: int, o: Orientation) -> bool {
    resolved(t, nodes, o) && o is Positive
}

/// `f` is `(a, b, c)` or one of its rotations.
pub open spec fn spec_same_winding(f: [i32; 3], a: i32, b: i32, c: i32) -> bool {
    (f[0] == a && f[1] == b && f[2] == c) || (f[0] == b && f[1] == c && f[2] == a) || (f[0] == c
        && f[1] == a && f[2] == b)
}

/// Face `i` of `t` is the face opposite corner `i`, wound as the convention winds it.
pub open spec fn wound(t: Tetra, i: int) -> bool {
    let v = t.vertices;
    let f = t.faces[i].vertices;
    if i == 0 {
        spec_same_winding(f, v[1], v[3], v[2])
    } else if i == 1 {
        spec_same_winding(f, v[2], v[3], v[0])
    } else if i == 2 {
        spec_same_winding(f, v[0], v[3], v[1])
    } else {
        spec_same_winding(f, v[1], v[2], v[0])
    }
}

/// One when face `i` of `t` is not wound as its slot asks, else zero.
pub open spec fn off(t: Tetra, i: int) -> nat {
    if wound(t, i) {
        0
    } else {
        1
    }
}

/// The misordered faces of a resolved tetrahedron; none is counted on another.
pub open spec fn misordered(t: Tetra, nodes: int, o: Orientation) -> nat {
    if resolved(t, nodes, o) {
        off(t, 0) + off(t, 1) + off(t, 2) + off(t, 3)
    } else {
        0
    }
}

/// The sum of `f` over `0..n`.
pub open spec fn sum_upto(f: spec_fn(int) -> nat, n: int) -> nat
    decreases n,
{
    if n <= 0 {
        0
    } else {
        sum_upto(f, n - 1) + f(n - 1)
    }
}

/// One when `v` is out of range ([`bad`]).
fn bad_of(v: i32, nodes: usize) -> (r: usize)
    ensures
        r == bad(v, nodes as int),
{
    if v >= 0 && (v as usize) < nodes {
        0
    } else {
        1
    }
}

/// [`face_errors`].
fn face_errors_of(f: &TetFace, nodes: usize, tets: usize) -> (r: usize)
    ensures
        r == face_errors(*f, nodes as int, tets as int),
        r <= 4,
{
    let nb: usize = if f.neighbor >= 0 && (f.neighbor as usize) >= tets {
        1
    } else {
        0
    };
    bad_of(f.vertices[0], nodes) + bad_of(f.vertices[1], nodes) + bad_of(f.vertices[2], nodes) + nb
}

/// Whether `f` is `(a, b, c)` or one of its rotations ([`spec_same_winding`]).
pub fn same_winding(f: [i32; 3], a: i32, b: i32, c: i32) -> (r: bool)
    ensures
        r == spec_same_winding(f, a, b, c),
{
    (f[0] == a && f[1] == b && f[2] == c) || (f[0] == b && f[1] == c && f[2] == a) || (f[0] == c
        && f[1] == a && f[2] == b)
}

/// The per-tetrahedron checks, one tetrahedron at a time: its index errors ([`tet_errors`]), and
/// whether it is degenerate, inverted, and how many of its faces are misordered. `orient` holds
/// each tetrahedron's orientation, in order.
pub fn tetra_counts(tets: &Vec<Tetra>, nodes: usize, orient: &Vec<Orientation>) -> (r: TetraCounts)
    requires
        orient@.len() == tets@.len(),
        20 * tets@.len() <= usize::MAX,
    ensures
        r.index_errors == sum_upto(
            |k: int| tet_errors(tets@[k], nodes as int, tets@.len() as int),
            tets@.len() as int,
        ),
        r.degenerate_tets == count_where(
            |k: int| degenerate(tets@[k], nodes as int, orient@[k]),
            tets@.len() as int,
        ),
        r.inverted_tets == count_where(
            |k: int| inverted(tets@[k], nodes as int, orient@[k]),
            tets@.len() as int,
        ),
        r.misordered_faces == sum_upto(
            |k: int| misordered(tets@[k], nodes as int, orient@[k]),
            tets@.len() as int,
        ),
{
    let n = tets.len();
    let ghost fe = |k: int| tet_errors(tets@[k], nodes as int, n as int);
    let ghost fd = |k: int| degenerate(tets@[k], nodes as int, orient@[k]);
    let ghost fi = |k: int| inverted(tets@[k], nodes as int, orient@[k]);
    let ghost fm = |k: int| misordered(tets@[k], nodes as int, orient@[k]);
    let mut r = TetraCounts { index_errors: 0, degenerate_tets: 0, inverted_tets: 0, misordered_faces: 0 };
    let mut k: usize = 0;
    while k < n
        invariant
            n == tets@.len(),
            orient@.len() == n,
            20 * n <= usize::MAX,
            k <= n,
            r.index_errors == sum_upto(fe, k as int),
            r.degenerate_tets == count_where(fd, k as int),
            r.inverted_tets == count_where(fi, k as int),
            r.misordered_faces == sum_upto(fm, k as int),
            r.index_errors <= 20 * k,
            r.degenerate_tets <= k,
            r.inverted_tets <= k,
            r.misordered_faces <= 4 * k,
            fe == (|k: int| tet_errors(tets@[k], nodes as int, n as int)),
            fd == (|k: int| degenerate(tets@[k], nodes as int, orient@[k])),
            fi == (|k: int| inverted(tets@[k], nodes as int, orient@[k])),
            fm == (|k: int| misordered(tets@[k], nodes as int, orient@[k])),
        decreases n - k,
    {
        let t = &tets[k];
        let o = &orient[k];
        let corners = bad_of(t.vertices[0], nodes) + bad_of(t.vertices[1], nodes) + bad_of(
            t.vertices[2],
            nodes,
        ) + bad_of(t.vertices[3], nodes);
        let e = face_errors_of(&t.faces[0], nodes, n) + face_errors_of(&t.faces[1], nodes, n)
            + face_errors_of(&t.faces[2], nodes, n) + face_errors_of(&t.faces[3], nodes, n) + corners;
        assert(e == fe(k as int));
        r.index_errors = r.index_errors + e;
        let v = t.vertices;
        let distinct = v[0] != v[1] && v[0] != v[2] && v[0] != v[3] && v[1] != v[2] && v[1] != v[3]
            && v[2] != v[3];
        let unresolved = match o {
            Orientation::Unresolved => true,
            _ => false,
        };
        if corners == 0 {
            if !distinct || unresolved {
                r.degenerate_tets = r.degenerate_tets + 1;
            } else {
                if let Orientation::Positive = o {
                    r.inverted_tets = r.inverted_tets + 1;
                }
                let mut m: usize = 0;
                if !same_winding(t.faces[0].vertices, v[1], v[3], v[2]) {
                    m = m + 1;
                }
                if !same_winding(t.faces[1].vertices, v[2], v[3], v[0]) {
                    m = m + 1;
                }
                if !same_winding(t.faces[2].vertices, v[0], v[3], v[1]) {
                    m = m + 1;
                }
                if !same_winding(t.faces[3].vertices, v[1], v[2], v[0]) {
                    m = m + 1;
                }
                assert(m == fm(k as int));
                r.misordered_faces = r.misordered_faces + m;
            }
        }
        assert(fd(k as int) == (corners == 0 && (!distinct || unresolved)));
        assert(fi(k as int) == (corners == 0 && distinct && !unresolved && *o is Positive));
        assert(corners != 0 || !distinct || unresolved ==> fm(k as int) == 0);
        k = k + 1;
    }
    r
}

/// A face's three nodes as a sorted triple of their bit patterns: two faces have the same key
/// exactly when they hold the same three nodes.
pub open spec fn node_key(f: [i32; 3]) -> (u32, u32, u32) {
    sort3((f[0] as u32, f[1] as u32, f[2] as u32))
}

/// How many of the first `i` faces of `t` have key `k`.
pub open spec fn keys_before(t: Tetra, k: (u32, u32, u32), i: int) -> nat
    decreases i,
{
    if i <= 0 {
        0
    } else {
        keys_before(t, k, i - 1) + if node_key(t.faces[i - 1].vertices) == k {
            1nat
        } else {
            0nat
        }
    }
}

/// How many faces of the first `n` tetrahedra have key `k`.
pub open spec fn key_count(tets: Seq<Tetra>, k: (u32, u32, u32), n: int) -> nat {
    sum_upto(|q: int| keys_before(tets[q], k, 4), n)
}

/// Another face of the mesh holds the three nodes of `f` (a face of the mesh).
pub open spec fn shared(tets: Seq<Tetra>, f: TetFace) -> bool {
    key_count(tets, node_key(f.vertices), tets.len() as int) >= 2
}

/// [`node_key`].
fn key_of(f: [i32; 3]) -> (r: (u32, u32, u32))
    ensures
        r == node_key(f),
{
    sorted3((f[0] as u32, f[1] as u32, f[2] as u32))
}

/// [`pack3`].
fn packed(p: (u32, u32, u32)) -> (r: u128)
    ensures
        r == pack3(p),
{
    ((p.0 as u128) << 64u128) | ((p.1 as u128) << 32u128) | (p.2 as u128)
}

/// How many faces of the mesh hold each node key ([`key_count`]), by packed key; a key no face
/// holds is absent.
fn key_counts(tets: &Vec<Tetra>) -> (r: HashMap<u128, usize>)
    requires
        4 * tets@.len() <= usize::MAX,
    ensures
        forall|p: (u32, u32, u32)|
            #[trigger] key_count(tets@, p, tets@.len() as int) == if r@.contains_key(pack3(p)) {
                r@[pack3(p)] as nat
            } else {
                0nat
            },
{
    let n = tets.len();
    let mut counts: HashMap<u128, usize> = HashMap::new();
    let mut t: usize = 0;
    while t < n
        invariant
            n == tets@.len(),
            4 * n <= usize::MAX,
            t <= n,
            forall|p: (u32, u32, u32)|
                #[trigger] key_count(tets@, p, t as int) == if counts@.contains_key(pack3(p)) {
                    counts@[pack3(p)] as nat
                } else {
                    0nat
                },
            forall|k: u128| #[trigger] counts@.contains_key(k) ==> counts@[k] <= 4 * t,
        decreases n - t,
    {
        let mut i: usize = 0;
        while i < 4
            invariant
                n == tets@.len(),
                4 * n <= usize::MAX,
                t < n,
                i <= 4,
                forall|p: (u32, u32, u32)|
                    #[trigger] key_count(tets@, p, t as int) + keys_before(tets@[t as int], p, i as int)
                        == if counts@.contains_key(pack3(p)) {
                        counts@[pack3(p)] as nat
                    } else {
                        0nat
                    },
                forall|k: u128| #[trigger] counts@.contains_key(k) ==> counts@[k] <= 4 * t + i,
            decreases 4 - i,
        {
            let p0 = key_of(tets[t].faces[i].vertices);
            let key = packed(p0);
            let c: usize = match counts.get(&key) {
                Some(c) => *c,
                None => 0,
            };
            let ghost old_counts = counts@;
            counts.insert(key, c + 1);
            proof {
                assert forall|p: (u32, u32, u32)|
                    #[trigger] key_count(tets@, p, t as int) + keys_before(tets@[t as int], p, i + 1)
                        == if counts@.contains_key(pack3(p)) {
                        counts@[pack3(p)] as nat
                    } else {
                        0nat
                    } by {
                    lemma_pack3(p.0, p.1, p.2, p0.0, p0.1, p0.2);
                    assert(key_count(tets@, p, t as int) + keys_before(tets@[t as int], p, i as int)
                        == if old_counts.contains_key(pack3(p)) {
                        old_counts[pack3(p)] as nat
                    } else {
                        0nat
                    });
                }
            }
            i = i + 1;
        }
        proof {
            assert forall|p: (u32, u32, u32)|
                #[trigger] key_count(tets@, p, t + 1) == if counts@.contains_key(pack3(p)) {
                    counts@[pack3(p)] as nat
                } else {
                    0nat
                } by {
                assert(key_count(tets@, p, t as int) + keys_before(tets@[t as int], p, 4) == if counts@.contains_key(
                    pack3(p),
                ) {
                    counts@[pack3(p)] as nat
                } else {
                    0nat
                });
            }
        }
        t = t + 1;
    }
    counts
}

/// The face across `f` (face of tetrahedron `t`, with its neighbour in range): the first face of
/// the neighbour holding the same three nodes; none when the neighbour is `t` itself.
pub open spec fn twin(tets: Seq<Tetra>, t: int, f: TetFace) -> Option<TetFace> {
    let nb = f.neighbor as int;
    let k = node_key(f.vertices);
    let fs = tets[nb].faces;
    if nb == t {
        None
    } else if node_key(fs[0].vertices) == k {
        Some(fs[0])
    } else if node_key(fs[1].vertices) == k {
        Some(fs[1])
    } else if node_key(fs[2].vertices) == k {
        Some(fs[2])
    } else if node_key(fs[3].vertices) == k {
        Some(fs[3])
    } else {
        None
    }
}

/// Face `i` of tetrahedron `t` has its neighbour in range.
pub open spec fn linked(tets: Seq<Tetra>, t: int, i: int) -> bool {
    0 <= tets[t].faces[i].neighbor < tets.len()
}

/// Face `i` of tetrahedron `t` and the face across it name each other.
pub open spec fn mutual(tets: Seq<Tetra>, t: int, i: int) -> bool {
    twin(tets, t, tets[t].faces[i]) matches Some(g) && g.neighbor == t
}

/// Face `i` of tetrahedron `t` is not named back by its neighbour, or has none while another
/// face holds its three nodes (`nonmutual_neighbors`).
pub open spec fn nonmutual_at(tets: Seq<Tetra>, t: int, i: int) -> bool {
    let f = tets[t].faces[i];
    if linked(tets, t, i) {
        !mutual(tets, t, i)
    } else if f.neighbor < 0 {
        shared(tets, f)
    } else {
        false
    }
}

/// A marked face named back by its neighbour, whose face carries another marker
/// (`asymmetric_internal_faces`).
pub open spec fn asymmetric_at(tets: Seq<Tetra>, t: int, i: int) -> bool {
    let f = tets[t].faces[i];
    &&& linked(tets, t, i)
    &&& mutual(tets, t, i)
    &&& f.marker >= 0
    &&& twin(tets, t, f).unwrap().marker != f.marker
}

/// A face with no neighbour and no marker (`unmarked_boundary_faces`).
pub open spec fn unmarked_at(tets: Seq<Tetra>, t: int, i: int) -> bool {
    tets[t].faces[i].neighbor < 0 && tets[t].faces[i].marker < 0
}

/// A marker at or past the last scene face (`marker_out_of_range`).
pub open spec fn out_of_range_at(tets: Seq<Tetra>, scene: int, t: int, i: int) -> bool {
    tets[t].faces[i].marker >= 0 && tets[t].faces[i].marker >= scene
}

/// How many of the first `i` faces of tetrahedron `t` hold for `p`.
pub open spec fn row_upto(p: spec_fn(int, int) -> bool, t: int, i: int) -> nat {
    count_where(|j: int| p(t, j), i)
}

/// How many faces of the first `n` tetrahedra hold for `p`.
pub open spec fn faces_where(p: spec_fn(int, int) -> bool, n: int) -> nat {
    sum_upto(|t: int| row_upto(p, t, 4), n)
}

/// Scene face `m` is named by a face before face `i` of tetrahedron `t`.
pub open spec fn marked_before(tets: Seq<Tetra>, m: int, t: int, i: int) -> bool {
    exists|a: int, b: int|
        0 <= a && 0 <= b < 4 && (a < t || (a == t && b < i)) && #[trigger] tets[a].faces[b].marker == m
}

/// Scene face `m` is neither named by a marker nor left out on purpose (`drawn`).
pub open spec fn uncovered(tets: Seq<Tetra>, drawn: Seq<bool>, m: int) -> bool {
    !marked_before(tets, m, tets.len() as int, 0) && !drawn[m]
}

/// The first 20 of the uncovered scene faces among the first `n`, ascending.
pub open spec fn first_uncovered(tets: Seq<Tetra>, drawn: Seq<bool>, n: int) -> Seq<u32>
    decreases n,
{
    if n <= 0 {
        seq![]
    } else {
        let s = first_uncovered(tets, drawn, n - 1);
        if uncovered(tets, drawn, n - 1) && s.len() < 20 {
            s.push((n - 1) as u32)
        } else {
            s
        }
    }
}

proof fn lemma_row_step(p: spec_fn(int, int) -> bool, t: int, i: int)
    requires
        i >= 0,
    ensures
        row_upto(p, t, i + 1) == row_upto(p, t, i) + if p(t, i) {
            1nat
        } else {
            0nat
        },
{
}

proof fn lemma_faces_step(p: spec_fn(int, int) -> bool, t: int)
    requires
        t >= 0,
    ensures
        faces_where(p, t + 1) == faces_where(p, t) + row_upto(p, t, 4),
{
}

/// Which face of the neighbour is the face across `f` ([`twin`]).
fn twin_index(tets: &Vec<Tetra>, t: usize, f: &TetFace) -> (r: Option<usize>)
    requires
        0 <= f.neighbor < tets@.len(),
    ensures
        match twin(tets@, t as int, *f) {
            None => r is None,
            Some(g) => r matches Some(j) && j < 4 && tets@[f.neighbor as int].faces[j as int] == g,
        },
{
    let nb = f.neighbor as usize;
    if nb == t {
        return None;
    }
    let k = key_of(f.vertices);
    let fs = &tets[nb].faces;
    let mut j: usize = 0;
    while j < 4
        invariant
            j <= 4,
            nb == f.neighbor,
            nb != t,
            nb < tets@.len(),
            *fs == tets@[nb as int].faces,
            k == node_key(f.vertices),
            forall|q: int| 0 <= q < j ==> node_key(#[trigger] fs[q].vertices) != k,
        decreases 4 - j,
    {
        let kj = key_of(fs[j].vertices);
        if kj.0 == k.0 && kj.1 == k.1 && kj.2 == k.2 {
            return Some(j);
        }
        j = j + 1;
    }
    None
}

/// The per-face checks of a tetrahedral mesh and the coverage of its scene: faces not named back
/// by their neighbour ([`nonmutual_at`]), internal faces whose two sides carry different markers
/// ([`asymmetric_at`]), boundary faces with no marker ([`unmarked_at`]), markers past the scene
/// ([`out_of_range_at`]), and the scene faces no marker names and `drawn` does not leave out
/// ([`uncovered`]): their count and the first 20 ([`first_uncovered`]).
pub fn face_counts(tets: &Vec<Tetra>, scene_faces: usize, drawn: &Vec<bool>) -> (r: FaceCounts)
    requires
        drawn@.len() == scene_faces,
        scene_faces <= u32::MAX,
        4 * tets@.len() <= usize::MAX,
    ensures
        r.nonmutual_neighbors == faces_where(|t: int, i: int| nonmutual_at(tets@, t, i), tets@.len() as int),
        r.asymmetric_internal_faces == faces_where(
            |t: int, i: int| asymmetric_at(tets@, t, i),
            tets@.len() as int,
        ),
        r.unmarked_boundary_faces == faces_where(|t: int, i: int| unmarked_at(tets@, t, i), tets@.len() as int),
        r.marker_out_of_range == faces_where(
            |t: int, i: int| out_of_range_at(tets@, scene_faces as int, t, i),
            tets@.len() as int,
        ),
        r.uncovered_scene_faces == count_where(|m: int| uncovered(tets@, drawn@, m), scene_faces as int),
        r.uncovered_scene_faces_first@ == first_uncovered(tets@, drawn@, scene_faces as int),
{
    let n = tets.len();
    let counts = key_counts(tets);
    let ghost pn = |t: int, i: int| nonmutual_at(tets@, t, i);
    let ghost pa = |t: int, i: int| asymmetric_at(tets@, t, i);
    let ghost pu = |t: int, i: int| unmarked_at(tets@, t, i);
    let ghost po = |t: int, i: int| out_of_range_at(tets@, scene_faces as int, t, i);
    let mut nonmutual: usize = 0;
    let mut asymmetric: usize = 0;
    let mut unmarked: usize = 0;
    let mut out_of_range: usize = 0;
    let mut covered: Vec<bool> = Vec::new();
    let mut m: usize = 0;
    while m < scene_faces
        invariant
            m <= scene_faces,
            covered@.len() == m,
            forall|q: int| 0 <= q < m ==> !#[trigger] covered@[q],
        decreases scene_faces - m,
    {
        covered.push(false);
        m = m + 1;
    }
    let mut t: usize = 0;
    while t < n
        invariant
            n == tets@.len(),
            4 * n <= usize::MAX,
            t <= n,
            forall|p: (u32, u32, u32)|
                #[trigger] key_count(tets@, p, n as int) == if counts@.contains_key(pack3(p)) {
                    counts@[pack3(p)] as nat
                } else {
                    0nat
                },
            covered@.len() == scene_faces,
            forall|q: int| 0 <= q < scene_faces ==> (#[trigger] covered@[q] <==> marked_before(tets@, q, t as int, 0)),
            nonmutual == faces_where(pn, t as int),
            asymmetric == faces_where(pa, t as int),
            unmarked == faces_where(pu, t as int),
            out_of_range == faces_where(po, t as int),
            nonmutual <= 4 * t && asymmetric <= 4 * t && unmarked <= 4 * t && out_of_range <= 4 * t,
            pn == (|t: int, i: int| nonmutual_at(tets@, t, i)),
            pa == (|t: int, i: int| asymmetric_at(tets@, t, i)),
            pu == (|t: int, i: int| unmarked_at(tets@, t, i)),
            po == (|t: int, i: int| out_of_range_at(tets@, scene_faces as int, t, i)),
        decreases n - t,
    {
        let mut i: usize = 0;
        while i < 4
            invariant
                n == tets@.len(),
                4 * n <= usize::MAX,
                t < n,
                i <= 4,
                forall|p: (u32, u32, u32)|
                    #[trigger] key_count(tets@, p, n as int) == if counts@.contains_key(pack3(p)) {
                        counts@[pack3(p)] as nat
                    } else {
                        0nat
                    },
                covered@.len() == scene_faces,
                forall|q: int|
                    0 <= q < scene_faces ==> (#[trigger] covered@[q] <==> marked_before(tets@, q, t as int, i as int)),
                nonmutual == faces_where(pn, t as int) + row_upto(pn, t as int, i as int),
                asymmetric == faces_where(pa, t as int) + row_upto(pa, t as int, i as int),
                unmarked == faces_where(pu, t as int) + row_upto(pu, t as int, i as int),
                out_of_range == faces_where(po, t as int) + row_upto(po, t as int, i as int),
                nonmutual <= 4 * t + i && asymmetric <= 4 * t + i && unmarked <= 4 * t + i && out_of_range <= 4 * t + i,
                pn == (|t: int, i: int| nonmutual_at(tets@, t, i)),
                pa == (|t: int, i: int| asymmetric_at(tets@, t, i)),
                pu == (|t: int, i: int| unmarked_at(tets@, t, i)),
                po == (|t: int, i: int| out_of_range_at(tets@, scene_faces as int, t, i)),
            decreases 4 - i,
        {
            let f = &tets[t].faces[i];
            let nb = f.neighbor;
            let mut nm = false;
            let mut asym = false;
            let mut unm = false;
            if nb >= 0 && (nb as usize) < n {
                match twin_index(tets, t, f) {
                    Some(j) => {
                        let g = &tets[nb as usize].faces[j];
                        if g.neighbor >= 0 && (g.neighbor as usize) == t {
                            if f.marker >= 0 && g.marker != f.marker {
                                asym = true;
                            }
                        } else {
                            nm = true;
                        }
                    },
                    None => {
                        nm = true;
                    },
                }
            } else if nb < 0 {
                let key = packed(key_of(f.vertices));
                let c: usize = match counts.get(&key) {
                    Some(c) => *c,
                    None => 0,
                };
                if c >= 2 {
                    nm = true;
                }
                if f.marker < 0 {
                    unm = true;
                }
            }
            assert(nm == pn(t as int, i as int));
            assert(asym == pa(t as int, i as int));
            assert(unm == pu(t as int, i as int));
            proof {
                lemma_row_step(pn, t as int, i as int);
                lemma_row_step(pa, t as int, i as int);
                lemma_row_step(pu, t as int, i as int);
                lemma_row_step(po, t as int, i as int);
            }
            if nm {
                nonmutual = nonmutual + 1;
            }
            if asym {
                asymmetric = asymmetric + 1;
            }
            if unm {
                unmarked = unmarked + 1;
            }
            let ghost c0 = covered@;
            if f.marker >= 0 {
                if (f.marker as usize) >= scene_faces {
                    out_of_range = out_of_range + 1;
                } else {
                    covered.set(f.marker as usize, true);
                }
            }
            proof {
                assert forall|q: int|
                    0 <= q < scene_faces implies (#[trigger] covered@[q] <==> marked_before(
                        tets@,
                        q,
                        t as int,
                        i + 1,
                    )) by {
                    if tets@[t as int].faces[i as int].marker == q {
                        assert(marked_before(tets@, q, t as int, i + 1));
                    }
                    if marked_before(tets@, q, t as int, i + 1) && !marked_before(tets@, q, t as int, i as int) {
                        let (a, b) = choose|a: int, b: int|
                            0 <= a && 0 <= b < 4 && (a < t || (a == t && b < i + 1)) && #[trigger] tets@[a].faces[b].marker
                                == q;
                        assert(a == t && b == i);
                    }
                    assert(c0[q] <==> marked_before(tets@, q, t as int, i as int));
                }
            }
            i = i + 1;
        }
        proof {
            lemma_faces_step(pn, t as int);
            lemma_faces_step(pa, t as int);
            lemma_faces_step(pu, t as int);
            lemma_faces_step(po, t as int);
            assert forall|q: int| 0 <= q < scene_faces implies (#[trigger] covered@[q] <==> marked_before(
                tets@,
                q,
                t + 1,
                0,
            )) by {
                if marked_before(tets@, q, t as int, 4) {
                    let (a, b) = choose|a: int, b: int|
                        0 <= a && 0 <= b < 4 && (a < t || (a == t && b < 4)) && #[trigger] tets@[a].faces[b].marker == q;
                    assert(marked_before(tets@, q, t + 1, 0));
                }
                if marked_before(tets@, q, t + 1, 0) {
                    let (a, b) = choose|a: int, b: int|
                        0 <= a && 0 <= b < 4 && (a < t + 1 || (a == t + 1 && b < 0)) && #[trigger] tets@[a].faces[b].marker
                            == q;
                    assert(marked_before(tets@, q, t as int, 4));
                }
            }
        }
        t = t + 1;
    }
    let ghost pc = |m: int| uncovered(tets@, drawn@, m);
    let mut uncovered_count: usize = 0;
    let mut first: Vec<u32> = Vec::new();
    let mut m: usize = 0;
    while m < scene_faces
        invariant
            n == tets@.len(),
            m <= scene_faces <= u32::MAX,
            drawn@.len() == scene_faces,
            covered@.len() == scene_faces,
            forall|q: int| 0 <= q < scene_faces ==> (#[trigger] covered@[q] <==> marked_before(tets@, q, n as int, 0)),
            uncovered_count == count_where(pc, m as int),
            uncovered_count <= m,
            first@ == first_uncovered(tets@, drawn@, m as int),
            pc == (|m: int| uncovered(tets@, drawn@, m)),
        decreases scene_faces - m,
    {
        if !covered[m] && !drawn[m] {
            uncovered_count = uncovered_count + 1;
            if first.len() < 20 {
                first.push(m as u32);
            }
        }
        m = m + 1;
    }
    FaceCounts {
        unmarked_boundary_faces: unmarked,
        marker_out_of_range: out_of_range,
        nonmutual_neighbors: nonmutual,
        asymmetric_internal_faces: asymmetric,
        uncovered_scene_faces: uncovered_count,
        uncovered_scene_faces_first: first,
    }
}

/// `p` is strictly ascending.
pub open spec fn ascending(p: Seq<i32>) -> bool {
    forall|a: int, b: int| 0 <= a < b < p.len() ==> p[a] < p[b]
}

/// `p` holds exactly the volume ids the tetrahedra carry.
pub open spec fn lists_ids(p: Seq<i32>, tets: Seq<Tetra>) -> bool {
    forall|x: i32| p.contains(x) <==> exists|k: int| 0 <= k < tets.len() && #[trigger] tets[k].id_volume == x
}

/// An id as a key that sorts as the id does.
pub open spec fn id_key(v: i32) -> u64 {
    (v as int + 0x8000_0000) as u64
}

/// The distinct volume ids the tetrahedra carry, ascending, and how many tetrahedra carry an id
/// the numbering of `ids` does not allow among them ([`known_from`]; `unknown_volume_ids`).
pub fn unknown_volume_ids(tets: &Vec<Tetra>, ids: &VolumeIds) -> (r: (Vec<i32>, usize))
    ensures
        ascending(r.0@),
        lists_ids(r.0@, tets@),
        r.1 == count_where(
            |k: int| !known_from(ids.fittings@, r.0@, 0, ids.room).contains(tets@[k].id_volume),
            tets@.len() as int,
        ),
{
    let n = tets.len();
    let mut keys: Vec<u64> = Vec::new();
    let mut k: usize = 0;
    while k < n
        invariant
            n == tets@.len(),
            k <= n,
            keys@.len() == k,
            forall|q: int| 0 <= q < k ==> #[trigger] keys@[q] == id_key(tets@[q].id_volume),
        decreases n - k,
    {
        let v = tets[k].id_volume;
        keys.push((v as i64 + 0x8000_0000) as u64);
        k = k + 1;
    }
    let sorted = sort_keys(keys.as_slice());
    let mut present: Vec<i32> = Vec::new();
    let mut q: usize = 0;
    while q < sorted.len()
        invariant
            q <= sorted@.len(),
            present@.len() == q,
            forall|a: int, b: int| 0 <= a < b < sorted@.len() ==> #[trigger] sorted@[a] < #[trigger] sorted@[b],
            forall|x: u64| #[trigger] sorted@.contains(x) <==> keys@.contains(x),
            forall|a: int| 0 <= a < q ==> id_key(#[trigger] present@[a]) == sorted@[a],
            forall|a: int| 0 <= a < keys@.len() ==> #[trigger] keys@[a] < 0x1_0000_0000,
            keys@.len() == n,
            n == tets@.len(),
            forall|a: int| 0 <= a < n ==> #[trigger] keys@[a] == id_key(tets@[a].id_volume),
        decreases sorted@.len() - q,
    {
        let key = sorted[q];
        assert(sorted@.contains(key));
        assert(keys@.contains(key));
        present.push((key as i64 - 0x8000_0000) as i32);
        q = q + 1;
    }
    assert(present@.len() == sorted@.len());
    proof {
        assert forall|a: int, b: int| 0 <= a < b < present@.len() implies present@[a] < present@[b] by {
            assert(sorted@[a] < sorted@[b]);
            assert(id_key(present@[a]) == sorted@[a]);
            assert(id_key(present@[b]) == sorted@[b]);
        }
        assert forall|x: i32| present@.contains(x) <==> exists|k: int| 0 <= k < tets@.len() && #[trigger] tets@[k].id_volume == x by {
            if present@.contains(x) {
                let a = choose|a: int| 0 <= a < present@.len() && present@[a] == x;
                assert(sorted@.contains(sorted@[a]));
                let b = choose|b: int| 0 <= b < keys@.len() && keys@[b] == sorted@[a];
                assert(id_key(tets@[b].id_volume) == id_key(x));
                assert(tets@[b].id_volume == x);
            }
            if exists|k: int| 0 <= k < tets@.len() && #[trigger] tets@[k].id_volume == x {
                let k = choose|k: int| 0 <= k < tets@.len() && #[trigger] tets@[k].id_volume == x;
                assert(keys@[k] == id_key(x));
                assert(keys@.contains(id_key(x)));
                assert(sorted@.contains(id_key(x)));
                let a = choose|a: int| 0 <= a < sorted@.len() && sorted@[a] == id_key(x);
                assert(id_key(present@[a]) == id_key(x));
                assert(present@[a] == x);
            }
        }
    }
    let known = ids.known_ids(present.as_slice());
    let ghost pk = |k: int| !known_from(ids.fittings@, present@, 0, ids.room).contains(tets@[k].id_volume);
    let mut count: usize = 0;
    let mut k: usize = 0;
    while k < n
        invariant
            n == tets@.len(),
            k <= n,
            count <= k,
            known@ == known_from(ids.fittings@, present@, 0, ids.room),
            count == count_where(pk, k as int),
            pk == (|k: int| !known_from(ids.fittings@, present@, 0, ids.room).contains(tets@[k].id_volume)),
        decreases n - k,
    {
        if !contains(&known, tets[k].id_volume) {
            count = count + 1;
        }
        k = k + 1;
    }
    (present, count)
}

} // verus!
