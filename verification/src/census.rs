//! The geometry check's decisions on indices: which vertices share a position, and what each
//! face is before its neighbours are looked at: invalid, degenerate, a repeat of an earlier face,
//! or analysed. Positions are compared by their keys (the bits of their coordinates, `-0.0` as
//! `0.0`), and whether three distinct positions are collinear is decided on floating-point
//! coordinates; the callers make both.
use crate::cells::Use;
use crate::check::{DegenerateKind, DuplicateFace, InvalidCause};
use crate::finish::{first_same, lemma_new_index, rep, weld_vertices};
use std::collections::HashMap;
use vstd::prelude::*;
use vstd::slice::slice_subrange;

verus! {

broadcast use vstd::std_specs::hash::group_hash_axioms;

/// Each vertex's position id: the first finite vertex at its position ([`first_same`]), or
/// itself when one of its coordinates is not finite.
pub fn position_ids(keys: &Vec<[u64; 3]>, finite: &Vec<bool>) -> (r: Vec<u32>)
    requires
        keys@.len() == finite@.len(),
        finite@.len() <= u32::MAX,
    ensures
        r@.len() == finite@.len(),
        forall|i: int|
            0 <= i < r@.len() ==> #[trigger] r@[i] == if finite@[i] {
                first_same(keys@, finite@, i, 0)
            } else {
                i
            },
{
    let (kept, remap, _, _) = weld_vertices(keys, finite, true);
    let n = finite.len();
    let mut pid: Vec<u32> = Vec::new();
    let mut i: usize = 0;
    while i < n
        invariant
            i <= n == finite@.len() == keys@.len(),
            n <= u32::MAX,
            kept@ == crate::finish::kept_before(keys@, finite@, true, n as int),
            remap@.len() == n,
            forall|m: int|
                0 <= m < n ==> #[trigger] remap@[m] == (if finite@[m] {
                    crate::finish::new_index(keys@, finite@, true, m) as u32
                } else {
                    u32::MAX
                }),
            pid@.len() == i,
            forall|m: int|
                0 <= m < i ==> #[trigger] pid@[m] == if finite@[m] {
                    first_same(keys@, finite@, m, 0)
                } else {
                    m
                },
        decreases n - i,
    {
        if finite[i] {
            proof {
                lemma_new_index(keys@, finite@, true, i as int);
                crate::finish::lemma_kept_before(keys@, finite@, true, n as int);
            }
            let k = remap[i] as usize;
            assert(k == crate::finish::new_index(keys@, finite@, true, i as int));
            assert(kept@[k as int] == rep(keys@, finite@, true, i as int));
            pid.push(kept[k]);
        } else {
            pid.push(i as u32);
        }
        i = i + 1;
    }
    pid
}


/// What the check makes of a face: not analysed (invalid or degenerate), a repeat of the first
/// earlier face with its three positions, or analysed.
#[derive(Clone, Copy, Debug, PartialEq, Eq, Structural)]
pub enum FaceStatus {
    Invalid(InvalidCause),
    Degenerate(DegenerateKind),
    Duplicate(u32),
    Analysed,
}

/// Every vertex index of `t` is below `nv`.
pub open spec fn in_range(t: [u32; 3], nv: int) -> bool {
    t[0] < nv && t[1] < nv && t[2] < nv
}

/// A face's status judged on the face alone, in the check's order (an index out of range, a
/// vertex that is not finite, a repeated vertex, zero area); none when it is a candidate for
/// analysis.
pub open spec fn own_status(nv: int, finite: Seq<bool>, zero_area: Seq<bool>, t: [u32; 3], f: int) -> Option<
    FaceStatus,
> {
    if !in_range(t, nv) {
        Some(FaceStatus::Invalid(InvalidCause::IndexOutOfRange))
    } else if !finite[t[0] as int] || !finite[t[1] as int] || !finite[t[2] as int] {
        Some(FaceStatus::Invalid(InvalidCause::NonFiniteVertex))
    } else if t[0] == t[1] || t[1] == t[2] || t[0] == t[2] {
        Some(FaceStatus::Degenerate(DegenerateKind::RepeatedVertex))
    } else if zero_area[f] {
        Some(FaceStatus::Degenerate(DegenerateKind::ZeroArea))
    } else {
        None
    }
}

/// The position ids of a face's vertices, in its order.
pub open spec fn face_pids(pid: Seq<u32>, t: [u32; 3]) -> (u32, u32, u32) {
    (pid[t[0] as int], pid[t[1] as int], pid[t[2] as int])
}

/// A triple in ascending order.
pub open spec fn sort3(p: (u32, u32, u32)) -> (u32, u32, u32) {
    let (a, b, c) = p;
    if a <= b {
        if b <= c {
            (a, b, c)
        } else if a <= c {
            (a, c, b)
        } else {
            (c, a, b)
        }
    } else if a <= c {
        (b, a, c)
    } else if b <= c {
        (b, c, a)
    } else {
        (c, b, a)
    }
}

/// Two triples list the same cycle: one is the other rotated.
pub open spec fn spec_same_cycle(a: (u32, u32, u32), b: (u32, u32, u32)) -> bool {
    a == b || a == (b.1, b.2, b.0) || a == (b.2, b.0, b.1)
}

/// Face `f` is a candidate for analysis, and the three positions of face `g` are its.
pub open spec fn same_positions(
    nv: int,
    finite: Seq<bool>,
    zero_area: Seq<bool>,
    tris: Seq<[u32; 3]>,
    pid: Seq<u32>,
    g: int,
    f: int,
) -> bool {
    own_status(nv, finite, zero_area, tris[g], g) is None && sort3(face_pids(pid, tris[g])) == sort3(
        face_pids(pid, tris[f]),
    )
}

/// The first face from `h` on, before `f`, that is a candidate with `f`'s three positions.
pub open spec fn first_repeat(
    nv: int,
    finite: Seq<bool>,
    zero_area: Seq<bool>,
    tris: Seq<[u32; 3]>,
    pid: Seq<u32>,
    f: int,
    h: int,
) -> Option<int>
    decreases f - h,
{
    if h < 0 || h >= f {
        None
    } else if same_positions(nv, finite, zero_area, tris, pid, h, f) {
        Some(h)
    } else {
        first_repeat(nv, finite, zero_area, tris, pid, f, h + 1)
    }
}

/// Face `f`'s status: its own, or a repeat of the first earlier candidate with its three
/// positions, or analysed.
pub open spec fn status_of(
    nv: int,
    finite: Seq<bool>,
    zero_area: Seq<bool>,
    tris: Seq<[u32; 3]>,
    pid: Seq<u32>,
    f: int,
) -> FaceStatus {
    match own_status(nv, finite, zero_area, tris[f], f) {
        Some(s) => s,
        None => match first_repeat(nv, finite, zero_area, tris, pid, f, 0) {
            Some(g) => FaceStatus::Duplicate(g as u32),
            None => FaceStatus::Analysed,
        },
    }
}

/// The repeats among the first `k` faces, in face order, each with whether it keeps the first
/// face's orientation and group.
pub open spec fn repeats_before(
    nv: int,
    finite: Seq<bool>,
    zero_area: Seq<bool>,
    tris: Seq<[u32; 3]>,
    pid: Seq<u32>,
    groups: Seq<u128>,
    k: int,
) -> Seq<DuplicateFace>
    decreases k,
{
    if k <= 0 {
        seq![]
    } else {
        let before = repeats_before(nv, finite, zero_area, tris, pid, groups, k - 1);
        let f = k - 1;
        match status_of(nv, finite, zero_area, tris, pid, f) {
            FaceStatus::Duplicate(g) => before.push(
                DuplicateFace {
                    face: f as u32,
                    duplicate_of: g,
                    same_orientation: spec_same_cycle(
                        face_pids(pid, tris[f]),
                        face_pids(pid, tris[g as int]),
                    ),
                    same_group: groups[f] == groups[g as int],
                },
            ),
            _ => before,
        }
    }
}

/// What [`first_repeat`] finds: the first matching face from `h` on, or none.
proof fn lemma_first_repeat(
    nv: int,
    finite: Seq<bool>,
    zero_area: Seq<bool>,
    tris: Seq<[u32; 3]>,
    pid: Seq<u32>,
    f: int,
    h: int,
)
    requires
        0 <= h,
    ensures
        match first_repeat(nv, finite, zero_area, tris, pid, f, h) {
            Some(g) => h <= g < f && same_positions(nv, finite, zero_area, tris, pid, g, f) && forall|q: int|
                h <= q < g ==> !#[trigger] same_positions(nv, finite, zero_area, tris, pid, q, f),
            None => forall|q: int|
                h <= q < f ==> !#[trigger] same_positions(nv, finite, zero_area, tris, pid, q, f),
        },
    decreases f - h,
{
    if h < f && !same_positions(nv, finite, zero_area, tris, pid, h, f) {
        lemma_first_repeat(nv, finite, zero_area, tris, pid, f, h + 1);
    }
}

/// [`first_repeat`] finds `g` when `g` matches and nothing from `h` to `g` does.
proof fn lemma_first_repeat_is(
    nv: int,
    finite: Seq<bool>,
    zero_area: Seq<bool>,
    tris: Seq<[u32; 3]>,
    pid: Seq<u32>,
    f: int,
    g: int,
    h: int,
)
    requires
        0 <= h <= g < f,
        same_positions(nv, finite, zero_area, tris, pid, g, f),
        forall|q: int| h <= q < g ==> !#[trigger] same_positions(nv, finite, zero_area, tris, pid, q, f),
    ensures
        first_repeat(nv, finite, zero_area, tris, pid, f, h) == Some(g),
    decreases g - h,
{
    if h < g {
        lemma_first_repeat_is(nv, finite, zero_area, tris, pid, f, g, h + 1);
    }
}

/// Three `u32` packed into one `u128`, the first the most significant.
pub open spec fn pack3(p: (u32, u32, u32)) -> u128 {
    ((p.0 as u128) << 64u128) | ((p.1 as u128) << 32u128) | (p.2 as u128)
}

pub(crate) proof fn lemma_pack3(a: u32, b: u32, c: u32, x: u32, y: u32, z: u32)
    ensures
        (((a as u128) << 64u128) | ((b as u128) << 32u128) | (c as u128)) == (((x as u128) << 64u128) | ((y
            as u128) << 32u128) | (z as u128)) ==> a == x && b == y && c == z,
{
    assert((((a as u128) << 64u128) | ((b as u128) << 32u128) | (c as u128)) == (((x as u128) << 64u128) | ((y
        as u128) << 32u128) | (z as u128)) ==> a == x && b == y && c == z) by (bit_vector);
}

/// Whether `a` and `b` list the same cycle ([`spec_same_cycle`]).
pub fn same_cycle(a: (u32, u32, u32), b: (u32, u32, u32)) -> (r: bool)
    ensures
        r == spec_same_cycle(a, b),
{
    (a.0 == b.0 && a.1 == b.1 && a.2 == b.2) || (a.0 == b.1 && a.1 == b.2 && a.2 == b.0) || (a.0 == b.2 && a.1 == b.0 && a.2 == b.1)
}

/// A triple in ascending order ([`sort3`]).
pub(crate) fn sorted3(p: (u32, u32, u32)) -> (r: (u32, u32, u32))
    ensures
        r == sort3(p),
{
    let (a, b, c) = p;
    if a <= b {
        if b <= c {
            (a, b, c)
        } else if a <= c {
            (a, c, b)
        } else {
            (c, a, b)
        }
    } else if a <= c {
        (b, a, c)
    } else if b <= c {
        (b, c, a)
    } else {
        (c, b, a)
    }
}

/// Each face's status ([`status_of`]) and the repeats in face order ([`repeats_before`]), from
/// the vertex count, which vertices are finite, which faces have three collinear vertices, the
/// faces, the position ids ([`position_ids`]) and each face's group.
pub fn face_status(
    nv: usize,
    finite: &Vec<bool>,
    zero_area: &Vec<bool>,
    tris: &Vec<[u32; 3]>,
    pid: &Vec<u32>,
    groups: &Vec<u128>,
) -> (r: (Vec<FaceStatus>, Vec<DuplicateFace>))
    requires
        finite@.len() == nv,
        pid@.len() == nv,
        zero_area@.len() == tris@.len(),
        groups@.len() == tris@.len(),
        tris@.len() <= u32::MAX,
    ensures
        r.0@.len() == tris@.len(),
        forall|f: int|
            0 <= f < tris@.len() ==> #[trigger] r.0@[f] == status_of(
                nv as int,
                finite@,
                zero_area@,
                tris@,
                pid@,
                f,
            ),
        r.1@ == repeats_before(nv as int, finite@, zero_area@, tris@, pid@, groups@, tris@.len() as int),
{
    let ghost (fs, zs, ts, ps, gs) = (finite@, zero_area@, tris@, pid@, groups@);
    let ghost n = nv as int;
    let nf = tris.len();
    let mut status: Vec<FaceStatus> = Vec::new();
    let mut repeats: Vec<DuplicateFace> = Vec::new();
    let mut first: HashMap<u128, u32> = HashMap::new();
    let mut f: usize = 0;
    while f < nf
        invariant
            f <= nf == ts.len() <= u32::MAX,
            fs == finite@ && zs == zero_area@ && ts == tris@ && ps == pid@ && gs == groups@,
            n == nv,
            fs.len() == nv && ps.len() == nv && zs.len() == nf && gs.len() == nf,
            status@.len() == f,
            forall|q: int| 0 <= q < f ==> #[trigger] status@[q] == status_of(n, fs, zs, ts, ps, q),
            repeats@ == repeats_before(n, fs, zs, ts, ps, gs, f as int),
            forall|g: int|
                0 <= g < f && own_status(n, fs, zs, ts[g], g) is None && first_repeat(n, fs, zs, ts, ps, g, 0)
                    is None ==> first@.contains_key(#[trigger] pack3(sort3(face_pids(ps, ts[g]))))
                    && first@[pack3(sort3(face_pids(ps, ts[g])))] == g,
            forall|k: u128|
                #[trigger] first@.contains_key(k) ==> {
                    let g = first@[k] as int;
                    &&& 0 <= g < f
                    &&& own_status(n, fs, zs, ts[g], g) is None
                    &&& first_repeat(n, fs, zs, ts, ps, g, 0) is None
                    &&& pack3(sort3(face_pids(ps, ts[g]))) == k
                },
        decreases nf - f,
    {
        let t = tris[f];
        let s: FaceStatus = if t[0] as usize >= nv || t[1] as usize >= nv || t[2] as usize >= nv {
            FaceStatus::Invalid(InvalidCause::IndexOutOfRange)
        } else if !finite[t[0] as usize] || !finite[t[1] as usize] || !finite[t[2] as usize] {
            FaceStatus::Invalid(InvalidCause::NonFiniteVertex)
        } else if t[0] == t[1] || t[1] == t[2] || t[0] == t[2] {
            FaceStatus::Degenerate(DegenerateKind::RepeatedVertex)
        } else if zero_area[f] {
            FaceStatus::Degenerate(DegenerateKind::ZeroArea)
        } else {
            let p = (pid[t[0] as usize], pid[t[1] as usize], pid[t[2] as usize]);
            let (x, y, z) = sorted3(p);
            let key: u128 = ((x as u128) << 64u128) | ((y as u128) << 32u128) | (z as u128);
            assert(key == pack3(sort3(face_pids(ps, ts[f as int]))));
            proof {
                lemma_first_repeat(n, fs, zs, ts, ps, f as int, 0);
            }
            match first.get(&key) {
                Some(g) => {
                    let g = *g;
                    proof {
                        let gi = g as int;
                        let kg = sort3(face_pids(ps, ts[gi]));
                        lemma_pack3(kg.0, kg.1, kg.2, x, y, z);
                        lemma_first_repeat(n, fs, zs, ts, ps, gi, 0);
                        assert forall|q: int| 0 <= q < gi implies !#[trigger] same_positions(
                            n,
                            fs,
                            zs,
                            ts,
                            ps,
                            q,
                            f as int,
                        ) by {
                            assert(!same_positions(n, fs, zs, ts, ps, q, gi));
                        }
                        lemma_first_repeat_is(n, fs, zs, ts, ps, f as int, gi, 0);
                    }
                    let pg = (pid[tris[g as usize][0] as usize], pid[tris[g as usize][1] as usize], pid[
                        tris[g as usize][2] as usize
                    ]);
                    repeats.push(
                        DuplicateFace {
                            face: f as u32,
                            duplicate_of: g,
                            same_orientation: same_cycle(p, pg),
                            same_group: groups[f] == groups[g as usize],
                        },
                    );
                    FaceStatus::Duplicate(g)
                },
                None => {
                    proof {
                        if let Some(g) = first_repeat(n, fs, zs, ts, ps, f as int, 0) {
                            lemma_first_repeat(n, fs, zs, ts, ps, g, 0);
                            assert forall|q: int| 0 <= q < g implies !#[trigger] same_positions(
                                n,
                                fs,
                                zs,
                                ts,
                                ps,
                                q,
                                g,
                            ) by {
                                assert(!same_positions(n, fs, zs, ts, ps, q, f as int));
                            }
                            lemma_first_repeat(n, fs, zs, ts, ps, g, 0);
                            assert(first@.contains_key(pack3(sort3(face_pids(ps, ts[g])))));
                            assert(false);
                        }
                    }
                    first.insert(key, f as u32);
                    FaceStatus::Analysed
                },
            }
        };
        status.push(s);
        f = f + 1;
    }
    (status, repeats)
}

// ---------------------------------------------------------------------------------------------
// The edge census
// ---------------------------------------------------------------------------------------------
/// The use of edge `u < v` that face `t` makes, if any: the first of its edges `t0 t1`, `t1 t2`,
/// `t2 t0` that joins `u` and `v` (a face uses each distinct edge once: `[a, a, b]` uses `a b`
/// once), with whether it runs from `u` to `v` and its third vertex.
pub open spec fn face_edge(t: [u32; 3], u: u32, v: u32) -> Option<(bool, u32)> {
    if t[0] != t[1] && joins(t[0], t[1], u, v) {
        Some((t[0] < t[1], t[2]))
    } else if t[1] != t[2] && joins(t[1], t[2], u, v) {
        Some((t[1] < t[2], t[0]))
    } else if t[2] != t[0] && joins(t[2], t[0], u, v) {
        Some((t[2] < t[0], t[1]))
    } else {
        None
    }
}

/// `a b` is the edge `u < v`, either way round.
pub open spec fn joins(a: u32, b: u32, u: u32, v: u32) -> bool {
    (a == u && b == v) || (a == v && b == u)
}

/// The uses of edge `u v` by the first `n` faces, in face order; faces with an index out of
/// range are not in the census.
pub open spec fn edge_uses(tris: Seq<[u32; 3]>, status: Seq<FaceStatus>, u: u32, v: u32, n: int) -> Seq<Use>
    decreases n,
{
    if n <= 0 {
        seq![]
    } else {
        let before = edge_uses(tris, status, u, v, n - 1);
        let f = n - 1;
        if status[f] == FaceStatus::Invalid(InvalidCause::IndexOutOfRange) {
            before
        } else {
            if face_edge(tris[f], u, v) is Some {
                before.push(use_of(tris[f], f, u, v))
            } else {
                before
            }
        }
    }
}

/// Face `f`'s use of edge `u v` ([`face_edge`]).
pub open spec fn use_of(t: [u32; 3], f: int, u: u32, v: u32) -> Use {
    match face_edge(t, u, v) {
        Some((fwd, third)) => Use { face: f as u32, fwd, third },
        None => Use { face: f as u32, fwd: false, third: 0 },
    }
}

/// The census key of the edge `u v`: `u` in the high half, `v` in the low.
pub open spec fn edge_key(u: u32, v: u32) -> u64 {
    (u as int * 0x1_0000_0000 + v as int) as u64
}

/// An edge of the census: its vertices `u < v` and its uses in face order.
pub struct CensusEdge {
    pub vertices: [u32; 2],
    pub uses: Vec<Use>,
}

proof fn lemma_edge_key(u: u32, v: u32, x: u32, y: u32)
    ensures
        edge_key(u, v) == edge_key(x, y) ==> u == x && v == y,
        edge_key(u, v) < edge_key(x, y) <==> (u < x || (u == x && v < y)),
        edge_key(u, v) / 0x1_0000_0000 == u,
        edge_key(u, v) % 0x1_0000_0000 == v,
{
}

/// The census keys of the edges face `t` (face `f`) uses, each with its use ([`face_edge`]).
fn face_edges(t: [u32; 3], f: u32) -> (r: Vec<(u64, Use)>)
    ensures
        r@.len() <= 3,
        forall|p: int, q: int| 0 <= p < q < r@.len() ==> (#[trigger] r@[p]).0 != (#[trigger] r@[q]).0,
        forall|p: int|
            0 <= p < r@.len() ==> {
                let (k, e) = #[trigger] r@[p];
                let (u, v) = ((k / 0x1_0000_0000) as u32, (k % 0x1_0000_0000) as u32);
                &&& k == edge_key(u, v)
                &&& u < v
                &&& face_edge(t, u, v) == Some((e.fwd, e.third))
                &&& e.face == f
            },
        forall|u: u32, v: u32|
            u < v && #[trigger] face_edge(t, u, v) is Some ==> exists|p: int| 0 <= p < r@.len() && (#[trigger] r@[p]).0 == edge_key(u, v),
{
    let (a, b, c) = (t[0], t[1], t[2]);
    let k0 = key_of(a, b);
    let k1 = key_of(b, c);
    let k2 = key_of(c, a);
    let mut r: Vec<(u64, Use)> = Vec::new();
    if a != b {
        r.push((k0, Use { face: f, fwd: a < b, third: c }));
    }
    if b != c && k1 != k0 {
        r.push((k1, Use { face: f, fwd: b < c, third: a }));
    }
    if c != a && k2 != k0 && k2 != k1 {
        r.push((k2, Use { face: f, fwd: c < a, third: b }));
    }
    proof {
        lemma_edge_key(a, b, b, c);
        lemma_edge_key(a, b, c, a);
        lemma_edge_key(b, c, c, a);
        assert forall|u: u32, v: u32| u < v && #[trigger] face_edge(t, u, v) is Some implies exists|p: int|
            0 <= p < r@.len() && (#[trigger] r@[p]).0 == edge_key(u, v) by {
            lemma_edge_key(u, v, if a < b { a } else { b }, if a < b { b } else { a });
            lemma_edge_key(u, v, if b < c { b } else { c }, if b < c { c } else { b });
            lemma_edge_key(u, v, if c < a { c } else { a }, if c < a { a } else { c });
            let ku = edge_key(u, v);
            if a != b && joins(a, b, u, v) {
                assert(r@[0].0 == ku);
            } else if b != c && joins(b, c, u, v) {
                if a != b {
                    assert(r@[1].0 == ku);
                } else {
                    assert(r@[0].0 == ku);
                }
            } else {
                assert(c != a && joins(c, a, u, v));
                let q = if a != b { 1int } else { 0int } + if b != c && k1 != k0 { 1int } else { 0int };
                assert(r@[q].0 == ku);
            }
        }
    }
    r
}

/// The census key of the edge joining `a` and `b` ([`edge_key`] of the lower, then the higher).
fn key_of(a: u32, b: u32) -> (r: u64)
    ensures
        r == if a < b { edge_key(a, b) } else { edge_key(b, a) },
{
    let (u, v) = if a < b { (a, b) } else { (b, a) };
    (u as u64) * 0x1_0000_0000 + (v as u64)
}


/// The buckets hold, for each edge `u < v` that the first `n` faces use, its uses under its key,
/// and nothing else.
pub open spec fn buckets_hold(b: Map<u64, Vec<Use>>, tris: Seq<[u32; 3]>, status: Seq<FaceStatus>, n: int) -> bool {
    &&& forall|u: u32, v: u32|
        u < v ==> (b.contains_key(#[trigger] edge_key(u, v)) <==> edge_uses(tris, status, u, v, n).len() > 0)
    &&& forall|u: u32, v: u32|
        u < v && b.contains_key(#[trigger] edge_key(u, v)) ==> b[edge_key(u, v)]@ == edge_uses(tris, status, u, v, n)
    &&& forall|k: u64| #[trigger] b.contains_key(k) ==> (k / 0x1_0000_0000) < (k % 0x1_0000_0000)
}

/// `e` appended to the bucket of key `k`; a new key is appended to `order`.
fn push_use(b: &mut HashMap<u64, Vec<Use>>, order: &mut Vec<u64>, k: u64, e: Use)
    ensures
        final(b)@.dom() == old(b)@.dom().insert(k),
        final(b)@[k]@ == (if old(b)@.contains_key(k) {
            old(b)@[k]@
        } else {
            seq![]
        }).push(e),
        forall|k2: u64| k2 != k && old(b)@.contains_key(k2) ==> #[trigger] final(b)@[k2] == old(b)@[k2],
        final(order)@ == if old(b)@.contains_key(k) {
            old(order)@
        } else {
            old(order)@.push(k)
        },
{
    let ghost orig = b@;
    let mut bucket = match b.remove(&k) {
        Some(v) => v,
        None => {
            order.push(k);
            Vec::new()
        },
    };
    bucket.push(e);
    b.insert(k, bucket);
    assert(b@.dom() =~= orig.dom().insert(k));
}

/// The edge census of the faces whose indices are in range: each edge `u < v` that one uses,
/// ascending by `u`, then `v`, with its uses in face order ([`edge_uses`]).
pub fn census(tris: &Vec<[u32; 3]>, status: &Vec<FaceStatus>) -> (r: Vec<CensusEdge>)
    requires
        status@.len() == tris@.len(),
        tris@.len() <= u32::MAX,
    ensures
        forall|p: int, q: int|
            0 <= p < q < r@.len() ==> edge_key((#[trigger] r@[p]).vertices[0], r@[p].vertices[1]) < edge_key(
                (#[trigger] r@[q]).vertices[0],
                r@[q].vertices[1],
            ),
        forall|p: int|
            0 <= p < r@.len() ==> {
                let e = #[trigger] r@[p];
                &&& e.vertices[0] < e.vertices[1]
                &&& e.uses@ == edge_uses(tris@, status@, e.vertices[0], e.vertices[1], tris@.len() as int)
                &&& e.uses@.len() > 0
            },
        forall|u: u32, v: u32|
            u < v && #[trigger] edge_uses(tris@, status@, u, v, tris@.len() as int).len() > 0 ==> exists|p: int|
                0 <= p < r@.len() && (#[trigger] r@[p]).vertices[0] == u && r@[p].vertices[1] == v,
{
    let ghost ts = tris@;
    let ghost ss = status@;
    let n = tris.len();
    let mut b: HashMap<u64, Vec<Use>> = HashMap::new();
    let mut order: Vec<u64> = Vec::new();
    let mut f: usize = 0;
    while f < n
        invariant
            f <= n == ts.len() == ss.len(),
            n <= u32::MAX,
            ts == tris@,
            ss == status@,
            buckets_hold(b@, ts, ss, f as int),
            forall|p: int, q: int| 0 <= p < q < order@.len() ==> #[trigger] order@[p] != #[trigger] order@[q],
            forall|k: u64| #[trigger] order@.contains(k) <==> b@.contains_key(k),
        decreases n - f,
    {
        if status[f] != FaceStatus::Invalid(InvalidCause::IndexOutOfRange) {
            let mine = face_edges(tris[f], f as u32);
            let mut j: usize = 0;
            while j < mine.len()
                invariant
                    f < n == ts.len() == ss.len(),
                    n <= u32::MAX,
                    ts == tris@,
                    ss == status@,
                    ss[f as int] != FaceStatus::Invalid(InvalidCause::IndexOutOfRange),
                    j <= mine@.len() <= 3,
                    forall|p: int, q: int| 0 <= p < q < mine@.len() ==> (#[trigger] mine@[p]).0 != (#[trigger] mine@[q]).0,
                    forall|p: int|
                        0 <= p < mine@.len() ==> {
                            let (k, e) = #[trigger] mine@[p];
                            let (u, v) = ((k / 0x1_0000_0000) as u32, (k % 0x1_0000_0000) as u32);
                            &&& k == edge_key(u, v)
                            &&& u < v
                            &&& face_edge(ts[f as int], u, v) == Some((e.fwd, e.third))
                            &&& e.face == f
                        },
                    forall|u: u32, v: u32|
                        u < v ==> (b@.contains_key(#[trigger] edge_key(u, v)) <==> (edge_uses(ts, ss, u, v, f as int).len() > 0
                            || exists|p: int| 0 <= p < j && (#[trigger] mine@[p]).0 == edge_key(u, v))),
                    forall|u: u32, v: u32|
                        u < v && b@.contains_key(#[trigger] edge_key(u, v)) ==> b@[edge_key(u, v)]@ == if exists|p: int|
                            0 <= p < j && (#[trigger] mine@[p]).0 == edge_key(u, v) {
                            edge_uses(ts, ss, u, v, f as int).push(use_of(ts[f as int], f as int, u, v))
                        } else {
                            edge_uses(ts, ss, u, v, f as int)
                        },
                    forall|k: u64| #[trigger] b@.contains_key(k) ==> (k / 0x1_0000_0000) < (k % 0x1_0000_0000),
                    forall|p: int, q: int| 0 <= p < q < order@.len() ==> #[trigger] order@[p] != #[trigger] order@[q],
                    forall|k: u64| #[trigger] order@.contains(k) <==> b@.contains_key(k),
                decreases mine@.len() - j,
            {
                let (k, e) = mine[j];
                let ghost b0 = b@;
                let ghost o0 = order@;
                proof {
                    lemma_edge_key((k / 0x1_0000_0000) as u32, (k % 0x1_0000_0000) as u32, 0, 0);
                }
                push_use(&mut b, &mut order, k, e);
                proof {
                    let (ku, kv) = ((k / 0x1_0000_0000) as u32, (k % 0x1_0000_0000) as u32);
                    assert(mine@[j as int].0 == k);
                    assert forall|u: u32, v: u32|
                        u < v implies (b@.contains_key(#[trigger] edge_key(u, v)) <==> (edge_uses(ts, ss, u, v, f as int).len() > 0
                            || exists|p: int| 0 <= p < j + 1 && (#[trigger] mine@[p]).0 == edge_key(u, v))) by {
                        if edge_key(u, v) == k {
                            assert(mine@[j as int].0 == edge_key(u, v));
                        } else if exists|p: int| 0 <= p < j + 1 && (#[trigger] mine@[p]).0 == edge_key(u, v) {
                            let p = choose|p: int| 0 <= p < j + 1 && (#[trigger] mine@[p]).0 == edge_key(u, v);
                            assert(p < j);
                        }
                    }
                    assert forall|u: u32, v: u32|
                        u < v && b@.contains_key(#[trigger] edge_key(u, v)) implies b@[edge_key(u, v)]@ == if exists|p: int|
                            0 <= p < j + 1 && (#[trigger] mine@[p]).0 == edge_key(u, v) {
                            edge_uses(ts, ss, u, v, f as int).push(use_of(ts[f as int], f as int, u, v))
                        } else {
                            edge_uses(ts, ss, u, v, f as int)
                        } by {
                        lemma_edge_key(u, v, ku, kv);
                        if edge_key(u, v) == k {
                            assert(mine@[j as int].0 == edge_key(u, v));
                            assert(u == ku && v == kv);
                            if exists|p: int| 0 <= p < j && (#[trigger] mine@[p]).0 == edge_key(u, v) {
                                let p = choose|p: int| 0 <= p < j && (#[trigger] mine@[p]).0 == edge_key(u, v);
                                assert(mine@[p].0 != mine@[j as int].0);
                            }
                            if !b0.contains_key(k) {
                                assert(edge_uses(ts, ss, u, v, f as int).len() == 0);
                                assert(edge_uses(ts, ss, u, v, f as int) =~= seq![]);
                            }
                        } else {
                            if exists|p: int| 0 <= p < j + 1 && (#[trigger] mine@[p]).0 == edge_key(u, v) {
                                let p = choose|p: int| 0 <= p < j + 1 && (#[trigger] mine@[p]).0 == edge_key(u, v);
                                assert(p < j);
                            }
                        }
                    }
                    assert forall|k2: u64| #[trigger] order@.contains(k2) <==> b@.contains_key(k2) by {
                        assert(b@.dom().contains(k2) == (b0.dom().contains(k2) || k2 == k));
                        assert(o0.contains(k2) == b0.contains_key(k2));
                        if !b0.contains_key(k) {
                            if order@.contains(k2) && k2 != k {
                                let q = choose|q: int| 0 <= q < order@.len() && order@[q] == k2;
                                assert(o0[q] == k2);
                            }
                            if b0.contains_key(k2) {
                                assert(o0.contains(k2));
                                let q = choose|q: int| 0 <= q < o0.len() && o0[q] == k2;
                                assert(order@[q] == k2);
                            }
                            assert(order@[o0.len() as int] == k);
                        }
                    }
                    if !b0.contains_key(k) {
                        assert forall|p: int, q: int| 0 <= p < q < order@.len() implies #[trigger] order@[p] != #[trigger] order@[q] by {
                            if q == o0.len() {
                                if o0[p] == k {
                                    assert(o0.contains(k));
                                }
                            }
                        }
                    }
                }
                j = j + 1;
            }
            proof {
                assert forall|u: u32, v: u32| u < v implies (b@.contains_key(#[trigger] edge_key(u, v)) <==> edge_uses(
                    ts,
                    ss,
                    u,
                    v,
                    f + 1,
                ).len() > 0) && (b@.contains_key(edge_key(u, v)) ==> b@[edge_key(u, v)]@ == edge_uses(ts, ss, u, v, f + 1)) by {
                    let found = exists|p: int| 0 <= p < mine@.len() && (#[trigger] mine@[p]).0 == edge_key(u, v);
                    if found {
                        let p = choose|p: int| 0 <= p < mine@.len() && (#[trigger] mine@[p]).0 == edge_key(u, v);
                        let k = mine@[p].0;
                        lemma_edge_key(u, v, (k / 0x1_0000_0000) as u32, (k % 0x1_0000_0000) as u32);
                        assert(face_edge(ts[f as int], u, v) is Some);
                    } else {
                        if face_edge(ts[f as int], u, v) is Some {
                            assert(exists|p: int| 0 <= p < mine@.len() && (#[trigger] mine@[p]).0 == edge_key(u, v));
                        }
                    }
                }
            }
        }
        f = f + 1;
    }
    let keys = sort_keys(order.as_slice());
    let mut out: Vec<CensusEdge> = Vec::new();
    let mut p: usize = 0;
    while p < keys.len()
        invariant
            n == ts.len() == ss.len(),
            ts == tris@,
            ss == status@,
            buckets_hold(b@, ts, ss, n as int),
            forall|k: u64| #[trigger] order@.contains(k) <==> b@.contains_key(k),
            forall|q1: int, q2: int| 0 <= q1 < q2 < keys@.len() ==> #[trigger] keys@[q1] < #[trigger] keys@[q2],
            forall|k: u64| #[trigger] keys@.contains(k) <==> order@.contains(k),
            p <= keys@.len(),
            out@.len() == p,
            forall|q: int|
                0 <= q < p ==> {
                    let e = #[trigger] out@[q];
                    &&& edge_key(e.vertices[0], e.vertices[1]) == keys@[q]
                    &&& e.vertices[0] < e.vertices[1]
                    &&& e.uses@ == edge_uses(ts, ss, e.vertices[0], e.vertices[1], n as int)
                    &&& e.uses@.len() > 0
                },
        decreases keys@.len() - p,
    {
        let k = keys[p];
        assert(keys@.contains(k));
        let u = (k / 0x1_0000_0000) as u32;
        let v = (k % 0x1_0000_0000) as u32;
        proof {
            lemma_edge_key(u, v, 0, 0);
            assert(b@.contains_key(k));
            assert(k == edge_key(u, v));
        }
        let bucket = b.get(&k).unwrap();
        let mut uses: Vec<Use> = Vec::new();
        let mut j: usize = 0;
        while j < bucket.len()
            invariant
                j <= bucket@.len(),
                uses@ == bucket@.subrange(0, j as int),
            decreases bucket@.len() - j,
        {
            uses.push(bucket[j]);
            assert(uses@ =~= bucket@.subrange(0, j + 1));
            j = j + 1;
        }
        assert(uses@ =~= bucket@);
        out.push(CensusEdge { vertices: [u, v], uses });
        p = p + 1;
    }
    proof {
        assert forall|q1: int, q2: int|
            0 <= q1 < q2 < out@.len() implies edge_key((#[trigger] out@[q1]).vertices[0], out@[q1].vertices[1])
            < edge_key((#[trigger] out@[q2]).vertices[0], out@[q2].vertices[1]) by {
            assert(keys@[q1] < keys@[q2]);
        }
        assert forall|u: u32, v: u32|
            u < v && #[trigger] edge_uses(ts, ss, u, v, n as int).len() > 0 implies exists|q: int|
                0 <= q < out@.len() && (#[trigger] out@[q]).vertices[0] == u && out@[q].vertices[1] == v by {
            let k = edge_key(u, v);
            assert(b@.contains_key(k));
            assert(keys@.contains(k));
            let q = choose|q: int| 0 <= q < keys@.len() && keys@[q] == k;
            let e = out@[q];
            lemma_edge_key(u, v, e.vertices[0], e.vertices[1]);
        }
    }
    out
}

/// One of the first `n` of `s` is `k`.
pub open spec fn in_prefix(s: Seq<u64>, n: int, k: u64) -> bool {
    exists|q: int| 0 <= q < n && #[trigger] s[q] == k
}

/// The distinct keys, ascending.
pub(crate) fn sort_keys(ks: &[u64]) -> (r: Vec<u64>)
    ensures
        forall|p: int, q: int| 0 <= p < q < r@.len() ==> #[trigger] r@[p] < #[trigger] r@[q],
        forall|k: u64| #[trigger] r@.contains(k) <==> ks@.contains(k),
    decreases ks@.len(),
{
    if ks.len() <= 1 {
        let mut out: Vec<u64> = Vec::new();
        if ks.len() == 1 {
            out.push(ks[0]);
        }
        proof {
            assert forall|k: u64| #[trigger] out@.contains(k) <==> ks@.contains(k) by {
                if ks@.contains(k) {
                    assert(out@[0] == k);
                }
                if out@.contains(k) {
                    assert(ks@[0] == k);
                }
            }
        }
        return out;
    }
    let mid = ks.len() / 2;
    let left = slice_subrange(ks, 0, mid);
    let right = slice_subrange(ks, mid, ks.len());
    let a = sort_keys(left);
    let b = sort_keys(right);
    let mut out: Vec<u64> = Vec::new();
    let mut i: usize = 0;
    let mut j: usize = 0;
    while i < a.len() || j < b.len()
        invariant
            forall|p: int, q: int| 0 <= p < q < a@.len() ==> #[trigger] a@[p] < #[trigger] a@[q],
            forall|p: int, q: int| 0 <= p < q < b@.len() ==> #[trigger] b@[p] < #[trigger] b@[q],
            i <= a@.len(),
            j <= b@.len(),
            forall|p: int, q: int| 0 <= p < q < out@.len() ==> #[trigger] out@[p] < #[trigger] out@[q],
            out@.len() > 0 && i < a@.len() ==> out@.last() < a@[i as int],
            out@.len() > 0 && j < b@.len() ==> out@.last() < b@[j as int],
            forall|k: u64|
                #[trigger] in_prefix(out@, out@.len() as int, k) <==> (in_prefix(a@, i as int, k) || in_prefix(b@, j as int, k)),
        decreases a@.len() + b@.len() - i - j,
    {
        let ghost (o0, i0, j0) = (out@, i as int, j as int);
        assert(forall|k: u64|
            #[trigger] in_prefix(o0, o0.len() as int, k) <==> (in_prefix(a@, i0, k) || in_prefix(b@, j0, k)));
        let take_a = j == b.len() || (i < a.len() && a[i] <= b[j]);
        let take_b = i == a.len() || (j < b.len() && b[j] <= a[i]);
        let x = if take_a {
            a[i]
        } else {
            b[j]
        };
        out.push(x);
        if take_a {
            i = i + 1;
        }
        if take_b {
            j = j + 1;
        }
        proof {
            assert forall|p: int, q: int| 0 <= p < q < out@.len() implies #[trigger] out@[p] < #[trigger] out@[q] by {
                if q == o0.len() && p < o0.len() - 1 {
                    assert(o0[p] < o0.last());
                }
            }
            assert forall|k: u64|
                #[trigger] in_prefix(out@, out@.len() as int, k) <==> (in_prefix(a@, i as int, k) || in_prefix(b@, j as int, k)) by {
                if in_prefix(out@, out@.len() as int, k) {
                    let q = choose|q: int| 0 <= q < out@.len() && #[trigger] out@[q] == k;
                    if q < o0.len() {
                        assert(o0[q] == k);
                        assert(in_prefix(o0, o0.len() as int, k));
                        if in_prefix(a@, i0, k) {
                            let q2 = choose|q2: int| 0 <= q2 < i0 && #[trigger] a@[q2] == k;
                            assert(a@[q2] == k && q2 < i);
                        } else {
                            let q2 = choose|q2: int| 0 <= q2 < j0 && #[trigger] b@[q2] == k;
                            assert(b@[q2] == k && q2 < j);
                        }
                    } else if take_a {
                        assert(a@[i0] == k);
                    } else {
                        assert(b@[j0] == k);
                    }
                }
                if in_prefix(a@, i as int, k) {
                    let q = choose|q: int| 0 <= q < i && #[trigger] a@[q] == k;
                    if q < i0 {
                        assert(in_prefix(a@, i0, k));
                        assert(in_prefix(o0, o0.len() as int, k));
                        let q2 = choose|q2: int| 0 <= q2 < o0.len() && #[trigger] o0[q2] == k;
                        assert(out@[q2] == k);
                    } else {
                        assert(out@[o0.len() as int] == k);
                    }
                }
                if in_prefix(b@, j as int, k) {
                    let q = choose|q: int| 0 <= q < j && #[trigger] b@[q] == k;
                    if q < j0 {
                        assert(in_prefix(b@, j0, k));
                        assert(in_prefix(o0, o0.len() as int, k));
                        let q2 = choose|q2: int| 0 <= q2 < o0.len() && #[trigger] o0[q2] == k;
                        assert(out@[q2] == k);
                    } else {
                        assert(out@[o0.len() as int] == k);
                    }
                }
            }
        }
    }
    proof {
        assert forall|k: u64| #[trigger] out@.contains(k) <==> ks@.contains(k) by {
            assert(out@.contains(k) == in_prefix(out@, out@.len() as int, k));
            assert(a@.contains(k) == in_prefix(a@, a@.len() as int, k));
            assert(b@.contains(k) == in_prefix(b@, b@.len() as int, k));
            if ks@.contains(k) {
                let q = choose|q: int| 0 <= q < ks@.len() && ks@[q] == k;
                if q < mid {
                    assert(left@[q] == k);
                } else {
                    assert(right@[q - mid] == k);
                }
            }
            if left@.contains(k) {
                let q = choose|q: int| 0 <= q < left@.len() && left@[q] == k;
                assert(ks@[q] == k);
            }
            if right@.contains(k) {
                let q = choose|q: int| 0 <= q < right@.len() && right@[q] == k;
                assert(ks@[q + mid] == k);
            }
        }
    }
    out
}

/// Vertex `v` is a vertex of a face whose indices are all in range.
pub open spec fn referenced(tris: Seq<[u32; 3]>, nv: int, v: int) -> bool {
    exists|f: int|
        0 <= f < tris.len() && in_range(tris[f], nv) && (#[trigger] tris[f][0] == v || tris[f][1] == v || tris[f][2] == v)
}

/// How many of the first `n` vertices hold for `p`.
pub open spec fn count_where(p: spec_fn(int) -> bool, n: int) -> nat
    decreases n,
{
    if n <= 0 {
        0
    } else {
        count_where(p, n - 1) + if p(n - 1) {
            1nat
        } else {
            0nat
        }
    }
}

/// The vertex counts the check reports: vertices at the position of a lower-numbered one
/// (position id not their own), vertices not finite, and vertices no face with in-range indices
/// uses.
pub fn vertex_counts(nv: usize, finite: &Vec<bool>, pid: &Vec<u32>, tris: &Vec<[u32; 3]>) -> (r: (usize, usize, usize))
    requires
        finite@.len() == nv,
        pid@.len() == nv,
    ensures
        r.0 == count_where(|i: int| pid@[i] != i, nv as int),
        r.1 == count_where(|i: int| !finite@[i], nv as int),
        r.2 == count_where(|i: int| !referenced(tris@, nv as int, i), nv as int),
{
    let ghost ts = tris@;
    let mut used: Vec<bool> = vec![false; nv];
    let mut f: usize = 0;
    while f < tris.len()
        invariant
            f <= ts.len(),
            ts == tris@,
            used@.len() == nv,
            forall|v: int|
                0 <= v < nv ==> #[trigger] used@[v] == exists|g: int|
                    0 <= g < f && in_range(ts[g], nv as int) && (#[trigger] ts[g][0] == v || ts[g][1] == v || ts[g][2] == v),
        decreases ts.len() - f,
    {
        let t = tris[f];
        if (t[0] as usize) < nv && (t[1] as usize) < nv && (t[2] as usize) < nv {
            used.set(t[0] as usize, true);
            used.set(t[1] as usize, true);
            used.set(t[2] as usize, true);
        }
        proof {
            assert forall|v: int|
                0 <= v < nv implies #[trigger] used@[v] == exists|g: int|
                    0 <= g < f + 1 && in_range(ts[g], nv as int) && (#[trigger] ts[g][0] == v || ts[g][1] == v || ts[g][2] == v) by {
                if exists|g: int|
                    0 <= g < f + 1 && in_range(ts[g], nv as int) && (#[trigger] ts[g][0] == v || ts[g][1] == v || ts[g][2] == v) {
                    let g = choose|g: int|
                        0 <= g < f + 1 && in_range(ts[g], nv as int) && (#[trigger] ts[g][0] == v || ts[g][1] == v || ts[g][2] == v);
                    if g < f {
                        assert(ts[g][0] == v || ts[g][1] == v || ts[g][2] == v);
                    }
                }
                if used@[v] && !(exists|g: int|
                    0 <= g < f && in_range(ts[g], nv as int) && (#[trigger] ts[g][0] == v || ts[g][1] == v || ts[g][2] == v)) {
                    assert(ts[f as int][0] == v || ts[f as int][1] == v || ts[f as int][2] == v);
                }
            }
        }
        f = f + 1;
    }
    let mut coincident: usize = 0;
    let mut non_finite: usize = 0;
    let mut unreferenced: usize = 0;
    let mut i: usize = 0;
    while i < nv
        invariant
            i <= nv,
            used@.len() == nv,
            finite@.len() == nv,
            pid@.len() == nv,
            ts == tris@,
            forall|v: int| 0 <= v < nv ==> #[trigger] used@[v] == referenced(ts, nv as int, v),
            coincident == count_where(|j: int| pid@[j] != j, i as int),
            non_finite == count_where(|j: int| !finite@[j], i as int),
            unreferenced == count_where(|j: int| !referenced(ts, nv as int, j), i as int),
            coincident <= i && non_finite <= i && unreferenced <= i,
        decreases nv - i,
    {
        if pid[i] as usize != i {
            coincident = coincident + 1;
        }
        if !finite[i] {
            non_finite = non_finite + 1;
        }
        if !used[i] {
            unreferenced = unreferenced + 1;
        }
        i = i + 1;
    }
    (coincident, non_finite, unreferenced)
}
} // verus!
