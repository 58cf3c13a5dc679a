//! Assembly shared by the mesh readers: which vertices are used, which are welded into an
//! earlier one with equal coordinates, which groups are kept, and the fan triangulation of each
//! polygon.
//!
//! A vertex is told apart from another by its weld key, the bits of its three coordinates with
//! `-0.0` made `0.0` (so that two keys are equal exactly when the coordinates are, for finite
//! values); the callers make the keys, and place the kept vertices in world coordinates.
use crate::import::{ImportError, ImportReport, MeshFormat, format_name};
use std::collections::HashMap;
use vstd::prelude::*;

verus! {

broadcast use vstd::std_specs::hash::group_hash_axioms;

/// A mesh as a reader collects it: per vertex its weld key, the polygons (vertex indices, at
/// least 3, each below the vertex count) with their group index, the group names, and notes.
pub struct RawMesh {
    pub keys: Vec<[u64; 3]>,
    pub polygons: Vec<(Vec<u32>, u32)>,
    pub groups: Vec<String>,
    pub notes: Vec<String>,
}

/// A room model read from a mesh file: its vertices, as their positions in the file's vertex
/// list; its triangles over them; per triangle its group; the group names; the report.
pub struct ImportedModel {
    pub format: MeshFormat,
    pub vertices: Vec<u32>,
    pub triangles: Vec<[u32; 3]>,
    pub face_groups: Vec<u32>,
    pub group_names: Vec<String>,
    pub report: ImportReport,
}

// ---------------------------------------------------------------------------------------------
// Vertices
// ---------------------------------------------------------------------------------------------
/// Vertex `i` is used by some polygon.
pub open spec fn used_by(polys: Seq<(Seq<u32>, u32)>, i: int) -> bool {
    exists|k: int, j: int| 0 <= k < polys.len() && 0 <= j < polys[k].0.len() && #[trigger] polys[k].0[j] == i
}

/// No used vertex before `i` has `i`'s key.
pub open spec fn is_first(keys: Seq<[u64; 3]>, u: Seq<bool>, i: int) -> bool {
    forall|m: int| 0 <= m < i && #[trigger] u[m] ==> keys[m] != keys[i]
}

/// Vertex `i` is kept: used, and, when welding, the first with its key.
pub open spec fn kept_at(keys: Seq<[u64; 3]>, u: Seq<bool>, weld: bool, i: int) -> bool {
    u[i] && (!weld || is_first(keys, u, i))
}

/// The kept vertices before `i`, in file order.
pub open spec fn kept_before(keys: Seq<[u64; 3]>, u: Seq<bool>, weld: bool, i: int) -> Seq<u32>
    decreases i,
{
    if i <= 0 {
        seq![]
    } else if kept_at(keys, u, weld, i - 1) {
        kept_before(keys, u, weld, i - 1).push((i - 1) as u32)
    } else {
        kept_before(keys, u, weld, i - 1)
    }
}

/// The first used vertex from `m` on with `i`'s key, or `i`.
pub open spec fn first_same(keys: Seq<[u64; 3]>, u: Seq<bool>, i: int, m: int) -> int
    decreases i - m,
{
    if m >= i || m < 0 {
        i
    } else if u[m] && keys[m] == keys[i] {
        m
    } else {
        first_same(keys, u, i, m + 1)
    }
}

/// The vertex a used vertex becomes: itself, or, when welding, the first with its key.
pub open spec fn rep(keys: Seq<[u64; 3]>, u: Seq<bool>, weld: bool, i: int) -> int {
    if weld {
        first_same(keys, u, i, 0)
    } else {
        i
    }
}

/// The new index of a used vertex: how many kept vertices precede the one it becomes.
pub open spec fn new_index(keys: Seq<[u64; 3]>, u: Seq<bool>, weld: bool, i: int) -> int {
    kept_before(keys, u, weld, rep(keys, u, weld, i)).len() as int
}

/// How many of the first `i` vertices are unused.
pub open spec fn unused_before(u: Seq<bool>, i: int) -> nat
    decreases i,
{
    if i <= 0 {
        0
    } else {
        unused_before(u, i - 1) + (if u[i - 1] {
            0nat
        } else {
            1nat
        })
    }
}

/// How many of the first `i` vertices are used and welded into an earlier one.
pub open spec fn welded_before(keys: Seq<[u64; 3]>, u: Seq<bool>, weld: bool, i: int) -> nat
    decreases i,
{
    if i <= 0 {
        0
    } else {
        welded_before(keys, u, weld, i - 1) + (if u[i - 1] && !kept_at(keys, u, weld, i - 1) {
            1nat
        } else {
            0nat
        })
    }
}

/// The bucket a key goes in.
pub open spec fn key_hash(k: [u64; 3]) -> u64 {
    k@[0] ^ k@[1] ^ k@[2]
}

pub(crate) proof fn lemma_kept_before(keys: Seq<[u64; 3]>, u: Seq<bool>, weld: bool, i: int)
    requires
        0 <= i <= u.len(),
        forall|m: int| 0 <= m < u.len() && #[trigger] u[m] ==> m <= u32::MAX,
    ensures
        kept_before(keys, u, weld, i).len() <= i,
        kept_before(keys, u, weld, i).len() <= u32::MAX + 1,
        forall|j: int|
            0 <= j < kept_before(keys, u, weld, i).len() ==> {
                let v = #[trigger] kept_before(keys, u, weld, i)[j];
                &&& v < i
                &&& kept_at(keys, u, weld, v as int)
                &&& kept_before(keys, u, weld, v as int).len() == j
            },
        forall|m: int| 0 <= m < i && kept_at(keys, u, weld, m) ==> #[trigger] kept_before(keys, u, weld, i).contains(m as u32),
    decreases i,
{
    if i > 0 {
        lemma_kept_before(keys, u, weld, i - 1);
        let prev = kept_before(keys, u, weld, i - 1);
        let cur = kept_before(keys, u, weld, i);
        assert forall|j: int| 0 <= j < cur.len() implies {
            let v = #[trigger] cur[j];
            &&& v < i
            &&& kept_at(keys, u, weld, v as int)
            &&& kept_before(keys, u, weld, v as int).len() == j
        } by {
            if j < prev.len() {
                assert(cur[j] == prev[j]);
            }
        }
        if kept_at(keys, u, weld, i - 1) {
            assert forall|m: int| 0 <= m < i && kept_at(keys, u, weld, m) implies #[trigger] cur.contains(m as u32) by {
                if m == i - 1 {
                    assert(cur[prev.len() as int] == m as u32);
                } else {
                    assert(prev.contains(m as u32));
                    let k = choose|k: int| 0 <= k < prev.len() && prev[k] == m as u32;
                    assert(cur[k] == m as u32);
                }
            }
        }
    }
}

proof fn lemma_first_same(keys: Seq<[u64; 3]>, u: Seq<bool>, i: int, m: int)
    requires
        0 <= m <= i < u.len(),
        keys.len() == u.len(),
        u[i],
        forall|q: int| 0 <= q < m && #[trigger] u[q] ==> keys[q] != keys[i],
    ensures
        m <= first_same(keys, u, i, m) <= i,
        u[first_same(keys, u, i, m)],
        keys[first_same(keys, u, i, m)] == keys[i],
        is_first(keys, u, first_same(keys, u, i, m)),
    decreases i - m,
{
    if m < i && !(u[m] && keys[m] == keys[i]) {
        lemma_first_same(keys, u, i, m + 1);
    }
}

/// Whether vertex `i` is used, for every vertex ([`used_by`]).
fn used_marks(n: usize, polys: &Vec<(Vec<u32>, u32)>) -> (r: Vec<bool>)
    requires
        forall|k: int, j: int|
            0 <= k < polys@.len() && 0 <= j < polys@[k].0@.len() ==> #[trigger] polys@[k].0@[j] < n,
    ensures
        r@.len() == n,
        forall|i: int| 0 <= i < n ==> r@[i] == used_by(polys_view(polys@), i),
{
    let ghost pv = polys_view(polys@);
    let mut used = vec![false; n];
    let mut k: usize = 0;
    while k < polys.len()
        invariant
            k <= polys@.len(),
            pv == polys_view(polys@),
            used@.len() == n,
            forall|k2: int, j: int|
                0 <= k2 < polys@.len() && 0 <= j < polys@[k2].0@.len() ==> #[trigger] polys@[k2].0@[j] < n,
            forall|i: int|
                0 <= i < n ==> used@[i] == exists|k2: int, j: int|
                    0 <= k2 < k && 0 <= j < pv[k2].0.len() && #[trigger] pv[k2].0[j] == i,
        decreases polys@.len() - k,
    {
        let poly = &polys[k].0;
        assert(pv[k as int].0 == poly@);
        let mut j: usize = 0;
        while j < poly.len()
            invariant
                j <= poly@.len(),
                k < polys@.len(),
                pv == polys_view(polys@),
                pv[k as int].0 == poly@,
                used@.len() == n,
                forall|j2: int| 0 <= j2 < poly@.len() ==> #[trigger] poly@[j2] < n,
                forall|i: int|
                    0 <= i < n ==> used@[i] == ((exists|k2: int, j2: int|
                        0 <= k2 < k && 0 <= j2 < pv[k2].0.len() && #[trigger] pv[k2].0[j2] == i) || exists|j2: int|
                        0 <= j2 < j && #[trigger] poly@[j2] == i),
            decreases poly@.len() - j,
        {
            assert(polys@[k as int].0@[j as int] == poly@[j as int]);
            let v = poly[j] as usize;
            used.set(v, true);
            j = j + 1;
        }
        assert forall|i: int|
            0 <= i < n implies used@[i] == exists|k2: int, j2: int|
                0 <= k2 < k + 1 && 0 <= j2 < pv[k2].0.len() && #[trigger] pv[k2].0[j2] == i by {
            if exists|j2: int| 0 <= j2 < poly@.len() && #[trigger] poly@[j2] == i {
                let j2 = choose|j2: int| 0 <= j2 < poly@.len() && #[trigger] poly@[j2] == i;
                assert(pv[k as int].0[j2] == i);
            }
            if exists|k2: int, j2: int| 0 <= k2 < k + 1 && 0 <= j2 < pv[k2].0.len() && #[trigger] pv[k2].0[j2] == i {
                let (k2, j2) = choose|k2: int, j2: int|
                    0 <= k2 < k + 1 && 0 <= j2 < pv[k2].0.len() && #[trigger] pv[k2].0[j2] == i;
                if k2 == k {
                    assert(poly@[j2] == i);
                }
            }
        }
        k = k + 1;
    }
    used
}

/// The polygons as values.
pub open spec fn polys_view(p: Seq<(Vec<u32>, u32)>) -> Seq<(Seq<u32>, u32)> {
    p.map_values(|x: (Vec<u32>, u32)| (x.0@, x.1))
}

proof fn lemma_first_same_is(keys: Seq<[u64; 3]>, u: Seq<bool>, i: int, m0: int, m: int)
    requires
        0 <= m <= m0 < i,
        u[m0],
        keys[m0] == keys[i],
        forall|q: int| m <= q < m0 && #[trigger] u[q] ==> keys[q] != keys[i],
    ensures
        first_same(keys, u, i, m) == m0,
    decreases m0 - m,
{
    if m < m0 {
        lemma_first_same_is(keys, u, i, m0, m + 1);
    }
}

/// The buckets hold each kept vertex under its key's hash, and nothing else.
pub open spec fn buckets_ok(b: Map<u64, Vec<u32>>, keys: Seq<[u64; 3]>, kept: Seq<u32>) -> bool {
    &&& kept.len() <= u32::MAX + 1
    &&& forall|j: int|
        0 <= j < kept.len() ==> b.contains_key(key_hash(keys[#[trigger] kept[j] as int])) && b[key_hash(
            keys[kept[j] as int],
        )]@.contains(j as u32)
    &&& forall|hk: u64, e: u32|
        b.contains_key(hk) && #[trigger] b[hk]@.contains(e) ==> e < kept.len() && key_hash(keys[kept[e as int] as int])
            == hk
}

/// The kept vertex with key `key`, if any.
fn lookup(buckets: &HashMap<u64, Vec<u32>>, keys: &Vec<[u64; 3]>, kept: &Vec<u32>, key: [u64; 3]) -> (r: Option<u32>)
    requires
        buckets_ok(buckets@, keys@, kept@),
        forall|j: int| 0 <= j < kept@.len() ==> #[trigger] kept@[j] < keys@.len(),
    ensures
        match r {
            Some(e) => e < kept@.len() && keys@[kept@[e as int] as int] == key,
            None => forall|j: int| 0 <= j < kept@.len() ==> keys@[#[trigger] kept@[j] as int] != key,
        },
{
    let h = key[0] ^ key[1] ^ key[2];
    assert(h == key_hash(key));
    match buckets.get(&h) {
        None => {
            assert forall|j: int| 0 <= j < kept@.len() implies keys@[#[trigger] kept@[j] as int] != key by {
                if keys@[kept@[j] as int] == key {
                    assert(buckets@.contains_key(key_hash(keys@[kept@[j] as int])));
                }
            }
            None
        },
        Some(b) => {
            assert(buckets@.contains_key(h) && buckets@[h] == *b);
            let mut t: usize = 0;
            while t < b.len()
                invariant
                    t <= b@.len(),
                    buckets@.contains_key(h) && buckets@[h] == *b,
                    h == key_hash(key),
                    buckets_ok(buckets@, keys@, kept@),
                    forall|j: int| 0 <= j < kept@.len() ==> #[trigger] kept@[j] < keys@.len(),
                    forall|q: int| 0 <= q < t ==> keys@[kept@[b@[q] as int] as int] != key,
                decreases b@.len() - t,
            {
                let e = b[t];
                assert(b@.contains(e));
                let v = kept[e as usize];
                let k = keys[v as usize];
                if k[0] == key[0] && k[1] == key[1] && k[2] == key[2] {
                    assert(k =~= key);
                    return Some(e);
                }
                t = t + 1;
            }
            assert forall|j: int| 0 <= j < kept@.len() implies keys@[#[trigger] kept@[j] as int] != key by {
                if keys@[kept@[j] as int] == key {
                    assert(b@.contains(j as u32));
                    let q = choose|q: int| 0 <= q < b@.len() && b@[q] == j as u32;
                }
            }
            None
        },
    }
}

/// Welds the used vertices: the kept ones ([`kept_before`]), each vertex's new index
/// ([`new_index`]; `u32::MAX` for an unused one), and how many were welded and unused.
pub(crate) fn weld_vertices(keys: &Vec<[u64; 3]>, used: &Vec<bool>, weld: bool) -> (r: (Vec<u32>, Vec<u32>, usize, usize))
    requires
        keys@.len() == used@.len(),
        forall|m: int| 0 <= m < used@.len() && #[trigger] used@[m] ==> m <= u32::MAX,
    ensures
        r.0@ == kept_before(keys@, used@, weld, used@.len() as int),
        r.1@.len() == used@.len(),
        forall|i: int|
            0 <= i < used@.len() ==> #[trigger] r.1@[i] == (if used@[i] {
                new_index(keys@, used@, weld, i) as u32
            } else {
                u32::MAX
            }),
        r.2 == welded_before(keys@, used@, weld, used@.len() as int),
        r.3 == unused_before(used@, used@.len() as int),
{
    let n = used.len();
    let ghost ks = keys@;
    let ghost us = used@;
    let mut kept: Vec<u32> = Vec::new();
    let mut remap: Vec<u32> = Vec::new();
    let mut welded: usize = 0;
    let mut unused: usize = 0;
    let mut buckets: HashMap<u64, Vec<u32>> = HashMap::new();
    let mut i: usize = 0;
    while i < n
        invariant
            i <= n == us.len() == ks.len(),
            ks == keys@,
            us == used@,
            forall|m: int| 0 <= m < us.len() && #[trigger] us[m] ==> m <= u32::MAX,
            kept@ == kept_before(ks, us, weld, i as int),
            remap@.len() == i,
            forall|m: int|
                0 <= m < i ==> #[trigger] remap@[m] == (if us[m] {
                    new_index(ks, us, weld, m) as u32
                } else {
                    u32::MAX
                }),
            welded == welded_before(ks, us, weld, i as int),
            unused == unused_before(us, i as int),
            welded <= i,
            unused <= i,
            weld ==> buckets_ok(buckets@, ks, kept@),
        decreases n - i,
    {
        proof {
            lemma_kept_before(ks, us, weld, i as int);
        }
        if !used[i] {
            unused = unused + 1;
            remap.push(u32::MAX);
            i = i + 1;
            continue;
        }
        let next = kept.len();
        assert(next <= i);
        assert(next <= u32::MAX) by {
            if next > u32::MAX {
                let v = kept@[u32::MAX as int];
                assert(kept_at(ks, us, weld, v as int));
            }
        }
        let key = keys[i];
        let found: Option<u32> = if weld {
            lookup(&buckets, keys, &kept, key)
        } else {
            None
        };
        match found {
            Some(e) => {
                proof {
                    let m0 = kept@[e as int] as int;
                    assert(kept_at(ks, us, weld, m0));
                    lemma_first_same_is(ks, us, i as int, m0, 0);
                    assert(new_index(ks, us, weld, i as int) == e);
                    assert(!is_first(ks, us, i as int)) by {
                        assert(us[m0]);
                    }
                }
                welded = welded + 1;
                remap.push(e);
            },
            None => {
                proof {
                    if weld {
                        lemma_first_same(ks, us, i as int, 0);
                        let m0 = first_same(ks, us, i as int, 0);
                        if m0 < i {
                            assert(kept_at(ks, us, weld, m0));
                            assert(kept@.contains(m0 as u32));
                            let j = choose|j: int| 0 <= j < kept@.len() && kept@[j] == m0 as u32;
                            assert(ks[kept@[j] as int] == key);
                        }
                        assert(is_first(ks, us, i as int));
                    }
                    assert(kept_at(ks, us, weld, i as int));
                    assert(new_index(ks, us, weld, i as int) == next);
                }
                if weld {
                    let h = key[0] ^ key[1] ^ key[2];
                    assert(h == key_hash(key));
                    let ghost orig = buckets@;
                    let mut b = match buckets.remove(&h) {
                        Some(b) => b,
                        None => Vec::new(),
                    };
                    let ghost old_b = b@;
                    assert(orig.contains_key(h) ==> old_b == orig[h]@);
                    assert(!orig.contains_key(h) ==> old_b.len() == 0);
                    b.push(next as u32);
                    buckets.insert(h, b);
                    kept.push(i as u32);
                    proof {
                        assert(buckets@ == orig.remove(h).insert(h, buckets@[h]));
                        assert(buckets@[h]@ == old_b.push(next as u32));
                        assert forall|j: int|
                            0 <= j < kept@.len() implies buckets@.contains_key(key_hash(ks[kept@[j] as int]))
                            && #[trigger] buckets@[key_hash(ks[kept@[j] as int])]@.contains(j as u32) by {
                            if j < next {
                                let hj = key_hash(ks[kept@[j] as int]);
                                assert(orig.contains_key(hj) && orig[hj]@.contains(j as u32));
                                if hj == h {
                                    assert(old_b.contains(j as u32));
                                    let q = choose|q: int| 0 <= q < old_b.len() && old_b[q] == j as u32;
                                    assert(buckets@[h]@[q] == j as u32);
                                }
                            } else {
                                assert(buckets@[h]@[old_b.len() as int] == next as u32);
                            }
                        }
                        assert forall|hk: u64, e: u32|
                            buckets@.contains_key(hk) && #[trigger] buckets@[hk]@.contains(e) implies e < kept@.len()
                            && key_hash(ks[kept@[e as int] as int]) == hk by {
                            if hk == h {
                                let q = choose|q: int| 0 <= q < buckets@[hk]@.len() && buckets@[hk]@[q] == e;
                                if q < old_b.len() {
                                    assert(old_b[q] == e);
                                    assert(orig.contains_key(h) && orig[h]@.contains(e));
                                }
                            } else {
                                assert(orig.contains_key(hk) && orig[hk] == buckets@[hk]);
                            }
                        }
                    }
                } else {
                    kept.push(i as u32);
                }
                remap.push(next as u32);
            },
        }
        i = i + 1;
    }
    (kept, remap, welded, unused)
}

// ---------------------------------------------------------------------------------------------
// Groups and triangles
// ---------------------------------------------------------------------------------------------
/// Group `g` holds a polygon.
pub open spec fn group_used(polys: Seq<(Seq<u32>, u32)>, g: int) -> bool {
    exists|k: int| 0 <= k < polys.len() && polys[k].1 as int == g
}

/// The names of the groups before `g` that hold a polygon, in order.
pub open spec fn kept_groups(polys: Seq<(Seq<u32>, u32)>, names: Seq<Seq<char>>, g: int) -> Seq<Seq<char>>
    decreases g,
{
    if g <= 0 {
        seq![]
    } else if group_used(polys, g - 1) {
        kept_groups(polys, names, g - 1).push(names[g - 1])
    } else {
        kept_groups(polys, names, g - 1)
    }
}

/// The names of the groups before `g` that hold no polygon, in order.
pub open spec fn empty_groups(polys: Seq<(Seq<u32>, u32)>, names: Seq<Seq<char>>, g: int) -> Seq<Seq<char>>
    decreases g,
{
    if g <= 0 {
        seq![]
    } else if group_used(polys, g - 1) {
        empty_groups(polys, names, g - 1)
    } else {
        empty_groups(polys, names, g - 1).push(names[g - 1])
    }
}

/// The new index of a kept group: how many kept groups precede it.
pub open spec fn group_index(polys: Seq<(Seq<u32>, u32)>, names: Seq<Seq<char>>, g: int) -> u32 {
    kept_groups(polys, names, g).len() as u32
}

/// A polygon's fan of triangles `(p0, pk, pk+1)`, its vertices mapped by `m`.
pub open spec fn fan(p: Seq<u32>, m: Seq<u32>) -> Seq<(u32, u32, u32)> {
    Seq::new(
        (p.len() - 2) as nat,
        |k: int| (m[p[0] as int], m[p[k + 1] as int], m[p[k + 2] as int]),
    )
}

/// The triangles of the first `k` polygons.
pub open spec fn tris_before(polys: Seq<(Seq<u32>, u32)>, m: Seq<u32>, k: int) -> Seq<(u32, u32, u32)>
    decreases k,
{
    if k <= 0 {
        seq![]
    } else {
        tris_before(polys, m, k - 1) + fan(polys[k - 1].0, m)
    }
}

/// The group of each triangle of the first `k` polygons, groups mapped by `gm`.
pub open spec fn tri_groups_before(polys: Seq<(Seq<u32>, u32)>, gm: Seq<u32>, k: int) -> Seq<u32>
    decreases k,
{
    if k <= 0 {
        seq![]
    } else {
        tri_groups_before(polys, gm, k - 1) + Seq::new((polys[k - 1].0.len() - 2) as nat, |j: int| gm[polys[k - 1].1 as int])
    }
}

/// How many of the first `k` polygons have more than 3 vertices.
pub open spec fn split_before(polys: Seq<(Seq<u32>, u32)>, k: int) -> nat
    decreases k,
{
    if k <= 0 {
        0
    } else {
        split_before(polys, k - 1) + (if polys[k - 1].0.len() > 3 {
            1nat
        } else {
            0nat
        })
    }
}

/// The triangles as values.
pub open spec fn tris_view(t: Seq<[u32; 3]>) -> Seq<(u32, u32, u32)> {
    t.map_values(|x: [u32; 3]| (x@[0], x@[1], x@[2]))
}

/// The texts of `s`.
pub open spec fn texts(s: Seq<String>) -> Seq<Seq<char>> {
    s.map_values(|x: String| x@)
}

/// The vertices' new indices ([`new_index`], `u32::MAX` for unused ones).
pub open spec fn vertex_map(keys: Seq<[u64; 3]>, u: Seq<bool>, weld: bool) -> Seq<u32> {
    Seq::new(u.len(), |i: int| if u[i] { new_index(keys, u, weld, i) as u32 } else { u32::MAX })
}

/// The groups' new indices ([`group_index`], `u32::MAX` for empty ones).
pub open spec fn group_map(polys: Seq<(Seq<u32>, u32)>, names: Seq<Seq<char>>) -> Seq<u32> {
    Seq::new(names.len(), |g: int| if group_used(polys, g) { group_index(polys, names, g) } else { u32::MAX })
}

/// Whether each group holds a polygon, the new index of each, the kept names and the empty ones.
fn compact_groups(polys: &Vec<(Vec<u32>, u32)>, groups: Vec<String>) -> (r: (Vec<u32>, Vec<String>, Vec<String>))
    requires
        forall|k: int| 0 <= k < polys@.len() ==> (#[trigger] polys@[k]).1 < groups@.len(),
        groups@.len() <= u32::MAX,
    ensures
        r.0@ == group_map(polys_view(polys@), texts(groups@)),
        texts(r.1@) == kept_groups(polys_view(polys@), texts(groups@), groups@.len() as int),
        texts(r.2@) == empty_groups(polys_view(polys@), texts(groups@), groups@.len() as int),
{
    let ghost pv = polys_view(polys@);
    let ghost gv = texts(groups@);
    let ng = groups.len();
    let mut used = vec![false; ng];
    let mut k: usize = 0;
    while k < polys.len()
        invariant
            k <= polys@.len(),
            pv == polys_view(polys@),
            used@.len() == ng,
            forall|k2: int| 0 <= k2 < polys@.len() ==> (#[trigger] polys@[k2]).1 < ng,
            forall|g: int| 0 <= g < ng ==> used@[g] == exists|k2: int| 0 <= k2 < k && pv[k2].1 as int == g,
        decreases polys@.len() - k,
    {
        let g = polys[k].1 as usize;
        assert(pv[k as int].1 == polys@[k as int].1);
        used.set(g, true);
        k = k + 1;
    }
    let mut map: Vec<u32> = Vec::new();
    let mut kept: Vec<String> = Vec::new();
    let mut empty: Vec<String> = Vec::new();
    let mut groups = groups;
    let mut g: usize = 0;
    assert(texts(kept@) =~= seq![]);
    assert(texts(empty@) =~= seq![]);
    while g < ng
        invariant
            g <= ng <= u32::MAX,
            pv == polys_view(polys@),
            gv.len() == ng,
            used@.len() == ng,
            groups@.len() == ng - g,
            forall|j: int| 0 <= j < groups@.len() ==> #[trigger] groups@[j]@ == gv[g + j],
            forall|q: int| 0 <= q < ng ==> used@[q] == group_used(pv, q),
            map@.len() == g,
            forall|q: int| 0 <= q < g ==> #[trigger] map@[q] == (if group_used(pv, q) { group_index(pv, gv, q) } else { u32::MAX }),
            texts(kept@) == kept_groups(pv, gv, g as int),
            texts(empty@) == empty_groups(pv, gv, g as int),
            kept@.len() <= g,
        decreases ng - g,
    {
        let name = groups.remove(0);
        assert(name@ == gv[g as int]);
        if used[g] {
            let ghost kb = texts(kept@);
            map.push(kept.len() as u32);
            kept.push(name);
            assert(texts(kept@) =~= kb.push(gv[g as int]));
        } else {
            let ghost eb = texts(empty@);
            map.push(u32::MAX);
            empty.push(name);
            assert(texts(empty@) =~= eb.push(gv[g as int]));
        }
        g = g + 1;
    }
    assert(map@ =~= group_map(pv, gv));
    (map, kept, empty)
}

/// The fans of all polygons ([`tris_before`]), with their groups ([`tri_groups_before`]), and
/// how many polygons had more than 3 vertices.
fn triangulate(polys: &Vec<(Vec<u32>, u32)>, m: &Vec<u32>, gm: &Vec<u32>) -> (r: (Vec<[u32; 3]>, Vec<u32>, usize))
    requires
        forall|k: int| 0 <= k < polys@.len() ==> (#[trigger] polys@[k]).0@.len() >= 3,
        forall|k: int, j: int|
            0 <= k < polys@.len() && 0 <= j < polys@[k].0@.len() ==> #[trigger] polys@[k].0@[j] < m@.len(),
        forall|k: int| 0 <= k < polys@.len() ==> (#[trigger] polys@[k]).1 < gm@.len(),
    ensures
        tris_view(r.0@) == tris_before(polys_view(polys@), m@, polys@.len() as int),
        r.1@ == tri_groups_before(polys_view(polys@), gm@, polys@.len() as int),
        r.2 == split_before(polys_view(polys@), polys@.len() as int),
{
    let ghost pv = polys_view(polys@);
    let mut tris: Vec<[u32; 3]> = Vec::new();
    let mut groups: Vec<u32> = Vec::new();
    let mut split: usize = 0;
    let mut k: usize = 0;
    assert(tris_view(tris@) =~= seq![]);
    while k < polys.len()
        invariant
            k <= polys@.len(),
            pv == polys_view(polys@),
            forall|k2: int| 0 <= k2 < polys@.len() ==> (#[trigger] polys@[k2]).0@.len() >= 3,
            forall|k2: int, j: int|
                0 <= k2 < polys@.len() && 0 <= j < polys@[k2].0@.len() ==> #[trigger] polys@[k2].0@[j] < m@.len(),
            forall|k2: int| 0 <= k2 < polys@.len() ==> (#[trigger] polys@[k2]).1 < gm@.len(),
            tris_view(tris@) == tris_before(pv, m@, k as int),
            groups@ == tri_groups_before(pv, gm@, k as int),
            split == split_before(pv, k as int),
            split <= k,
        decreases polys@.len() - k,
    {
        let p = &polys[k].0;
        let g = gm[polys[k].1 as usize];
        assert(pv[k as int].0 == p@);
        assert(pv[k as int].1 == polys@[k as int].1);
        if p.len() > 3 {
            split = split + 1;
        }
        let ghost tb = tris_view(tris@);
        let ghost gb = groups@;
        let a = m[p[0] as usize];
        let pl = p.len();
        let mut j: usize = 1;
        while j < pl - 1
            invariant
                pl == p@.len(),
                1 <= j <= p@.len() - 1,
                p@.len() >= 3,
                k < polys@.len(),
                polys@[k as int].0@ == p@,
                forall|q: int| 0 <= q < p@.len() ==> #[trigger] p@[q] < m@.len(),
                a == m@[p@[0] as int],
                tris_view(tris@) == tb + fan(p@, m@).subrange(0, j - 1),
                groups@ == gb + Seq::new((j - 1) as nat, |q: int| g),
            decreases p@.len() - j,
        {
            assert(polys@[k as int].0@[j as int] == p@[j as int]);
            let t: [u32; 3] = [a, m[p[j] as usize], m[p[j + 1] as usize]];
            let ghost before = tris_view(tris@);
            tris.push(t);
            groups.push(g);
            proof {
                assert(tris_view(tris@) =~= before.push((t@[0], t@[1], t@[2])));
                assert(fan(p@, m@).subrange(0, j as int) =~= fan(p@, m@).subrange(0, j - 1).push(fan(p@, m@)[j - 1]));
                assert(groups@ =~= gb + Seq::new(j as nat, |q: int| g));
            }
            j = j + 1;
        }
        proof {
            assert(fan(p@, m@).subrange(0, (p@.len() - 2) as int) =~= fan(p@, m@));
            assert(Seq::new((p@.len() - 2) as nat, |q: int| g) =~= Seq::new((pv[k as int].0.len() - 2) as nat, |q: int| gm@[pv[k as int].1 as int]));
        }
        k = k + 1;
    }
    (tris, groups, split)
}

/// Every polygon has at least three vertices, each one of the first `vertices`, and names one of
/// the first `groups` groups.
pub open spec fn polygons_in_range(p: Seq<(Seq<u32>, u32)>, vertices: int, groups: int) -> bool {
    forall|k: int|
        0 <= k < p.len() ==> #[trigger] p[k].0.len() >= 3 && p[k].1 < groups && forall|j: int|
            0 <= j < p[k].0.len() ==> #[trigger] p[k].0[j] < vertices
}

/// A reader's polygons checked before [`finish`]: at most `u32::MAX` groups, and each polygon in
/// range ([`polygons_in_range`]); otherwise the file is invalid.
pub fn check_polygons(polygons: &Vec<(Vec<u32>, u32)>, vertices: usize, groups: usize, format: MeshFormat) -> (r:
    Result<(), ImportError>)
    ensures
        r is Ok <==> groups <= u32::MAX && polygons_in_range(polys_view(polygons@), vertices as int, groups as int),
        r matches Err(e) ==> (e matches ImportError::Invalid { format: f, .. } && f@ == format_name(format)),
{
    let fmt = format.name();
    if groups > 4294967295 {
        return Err(ImportError::invalid(fmt, "more groups than a face can name".to_owned()));
    }
    let ghost pv = polys_view(polygons@);
    let mut k: usize = 0;
    while k < polygons.len()
        invariant
            k <= polygons@.len(),
            pv == polys_view(polygons@),
            fmt@ == format_name(format),
            groups <= u32::MAX,
            forall|q: int|
                0 <= q < k ==> #[trigger] pv[q].0.len() >= 3 && pv[q].1 < groups && forall|j: int|
                    0 <= j < pv[q].0.len() ==> #[trigger] pv[q].0[j] < vertices,
        decreases polygons@.len() - k,
    {
        let poly = &polygons[k].0;
        let bad = poly.len() < 3 || (polygons[k].1 as usize) >= groups;
        if bad {
            assert(!polygons_in_range(pv, vertices as int, groups as int)) by {
                assert(pv[k as int].0 == poly@);
            }
            return Err(ImportError::invalid(fmt, "a face names a vertex or a group that does not exist".to_owned()));
        }
        let mut j: usize = 0;
        while j < poly.len()
            invariant
                j <= poly@.len(),
                forall|q: int| 0 <= q < j ==> #[trigger] poly@[q] < vertices,
                k < polygons@.len(),
                *poly == polygons@[k as int].0,
                pv == polys_view(polygons@),
                fmt@ == format_name(format),
            decreases poly@.len() - j,
        {
            if (poly[j] as usize) >= vertices {
                assert(!polygons_in_range(pv, vertices as int, groups as int)) by {
                    assert(pv[k as int].0 == poly@);
                    assert(pv[k as int].0[j as int] >= vertices);
                }
                return Err(ImportError::invalid(fmt, "a face names a vertex or a group that does not exist".to_owned()));
            }
            j = j + 1;
        }
        assert(pv[k as int].0 == poly@);
        k = k + 1;
    }
    Ok(())
}

/// The bits of a finite `f64`: its exponent bits are not all set.
pub open spec fn finite_bits(b: u64) -> bool {
    (b >> 52u64) & 0x7ffu64 != 0x7ffu64
}

/// A vertex key (the bits of its three coordinates) of a finite vertex.
pub open spec fn finite_key(k: [u64; 3]) -> bool {
    finite_bits(k[0]) && finite_bits(k[1]) && finite_bits(k[2])
}

/// Every vertex, used or not, is finite.
pub open spec fn all_finite(keys: Seq<[u64; 3]>) -> bool {
    forall|i: int| 0 <= i < keys.len() ==> finite_key(#[trigger] keys[i])
}

/// Whether the vertex with key `k` is finite ([`finite_key`]).
pub fn is_finite_key(k: [u64; 3]) -> (r: bool)
    ensures
        r == finite_key(k),
{
    (k[0] >> 52u64) & 0x7ffu64 != 0x7ffu64 && (k[1] >> 52u64) & 0x7ffu64 != 0x7ffu64 && (k[2] >> 52u64)
        & 0x7ffu64 != 0x7ffu64
}

/// Welds, drops unused vertices and empty groups, and triangulates: the model of `raw`, read from
/// a `format` file, welded when `weld`, the file having `source_faces` faces. A file without
/// polygons is empty; one with a vertex, used or not, with a coordinate that is not finite is
/// invalid; one with more than `u32::MAX` triangles is not read.
pub fn finish(raw: RawMesh, format: MeshFormat, weld: bool, source_faces: usize) -> (r: Result<ImportedModel, ImportError>)
    requires
        raw.keys@.len() <= usize::MAX,
        raw.groups@.len() <= u32::MAX,
        forall|k: int| 0 <= k < raw.polygons@.len() ==> (#[trigger] raw.polygons@[k]).0@.len() >= 3,
        forall|k: int, j: int|
            0 <= k < raw.polygons@.len() && 0 <= j < raw.polygons@[k].0@.len() ==> #[trigger] raw.polygons@[k].0@[j]
                < raw.keys@.len(),
        forall|k: int| 0 <= k < raw.polygons@.len() ==> (#[trigger] raw.polygons@[k]).1 < raw.groups@.len(),
    ensures
        ({
            let pv = polys_view(raw.polygons@);
            let n = raw.keys@.len() as int;
            let u = Seq::new(n as nat, |i: int| used_by(pv, i));
            let m = vertex_map(raw.keys@, u, weld);
            let gm = group_map(pv, texts(raw.groups@));
            match r {
                Ok(model) => {
                    &&& pv.len() > 0
                    &&& all_finite(raw.keys@)
                    &&& tris_before(pv, m, pv.len() as int).len() <= u32::MAX
                    &&& model.format == format
                    &&& model.vertices@ == kept_before(raw.keys@, u, weld, n)
                    &&& tris_view(model.triangles@) == tris_before(pv, m, pv.len() as int)
                    &&& model.face_groups@ == tri_groups_before(pv, gm, pv.len() as int)
                    &&& texts(model.group_names@) == kept_groups(pv, texts(raw.groups@), raw.groups@.len() as int)
                    &&& model.report.source_vertices == n
                    &&& model.report.source_faces == source_faces
                    &&& model.report.triangles == model.triangles@.len()
                    &&& model.report.polygons_split == split_before(pv, pv.len() as int)
                    &&& model.report.welded == weld
                    &&& model.report.welded_vertices == welded_before(raw.keys@, u, weld, n)
                    &&& model.report.unused_vertices == unused_before(u, n)
                    &&& texts(model.report.empty_groups@) == empty_groups(pv, texts(raw.groups@), raw.groups@.len() as int)
                    &&& model.report.notes@ == raw.notes@
                },
                Err(e) => {
                    ||| (pv.len() == 0 && (e matches ImportError::Empty { format: f } && f@ == format_name(format)))
                    ||| (pv.len() > 0 && !all_finite(raw.keys@) && (e matches ImportError::Invalid { format: f, .. }
                        && f@ == format_name(format)))
                    ||| (pv.len() > 0 && all_finite(raw.keys@) && tris_before(pv, m, pv.len() as int).len()
                        > u32::MAX && e is Unsupported)
                },
            }
        }),
{
    let fmt = format.name();
    if raw.polygons.len() == 0 {
        return Err(ImportError::Empty { format: fmt });
    }
    let ghost pv = polys_view(raw.polygons@);
    let n = raw.keys.len();
    let mut i: usize = 0;
    while i < n
        invariant
            n == raw.keys@.len(),
            i <= n,
            forall|j: int| 0 <= j < i ==> finite_key(#[trigger] raw.keys@[j]),
            pv == polys_view(raw.polygons@),
            raw.polygons@.len() > 0,
            fmt@ == format_name(format),
        decreases n - i,
    {
        if !is_finite_key(raw.keys[i]) {
            assert(!finite_key(raw.keys@[i as int]));
            assert(!all_finite(raw.keys@));
            return Err(ImportError::invalid(fmt, "a vertex has a non-finite coordinate".to_owned()));
        }
        i = i + 1;
    }
    assert(all_finite(raw.keys@));
    let used = used_marks(n, &raw.polygons);
    let ghost u = Seq::new(n as nat, |i: int| used_by(pv, i));
    assert(used@ =~= u);
    proof {
        assert forall|i: int| 0 <= i < used@.len() && #[trigger] used@[i] implies i <= u32::MAX by {
            let (k, j) = choose|k: int, j: int| 0 <= k < pv.len() && 0 <= j < pv[k].0.len() && #[trigger] pv[k].0[j] == i;
            assert(pv[k].0[j] == raw.polygons@[k].0@[j]);
        }
    }
    let (kept, remap, welded, unused) = weld_vertices(&raw.keys, &used, weld);
    assert(remap@ =~= vertex_map(raw.keys@, u, weld));
    let (gm, group_names, empty_groups) = compact_groups(&raw.polygons, raw.groups);
    let (triangles, face_groups, polygons_split) = triangulate(&raw.polygons, &remap, &gm);
    if triangles.len() > 4294967295 {
        return Err(ImportError::unsupported(fmt, "more than 4,294,967,295 triangles".to_owned()));
    }
    let report = ImportReport {
        source_vertices: n,
        source_faces,
        triangles: triangles.len(),
        polygons_split,
        welded: weld,
        welded_vertices: welded,
        unused_vertices: unused,
        empty_groups,
        notes: raw.notes,
    };
    Ok(ImportedModel { format, vertices: kept, triangles, face_groups, group_names, report })
}


/// The kept vertex a used vertex becomes is `rep`, which has its key; and kept vertices keep
/// their order.
pub(crate) proof fn lemma_new_index(keys: Seq<[u64; 3]>, u: Seq<bool>, weld: bool, i: int)
    requires
        keys.len() == u.len(),
        forall|m: int| 0 <= m < u.len() && #[trigger] u[m] ==> m <= u32::MAX,
        0 <= i < u.len(),
        u[i],
    ensures
        0 <= rep(keys, u, weld, i) <= i,
        kept_at(keys, u, weld, rep(keys, u, weld, i)),
        keys[rep(keys, u, weld, i)] == keys[i],
        !weld ==> rep(keys, u, weld, i) == i,
        new_index(keys, u, weld, i) < kept_before(keys, u, weld, u.len() as int).len(),
        kept_before(keys, u, weld, u.len() as int)[new_index(keys, u, weld, i)] == rep(keys, u, weld, i),
{
    let n = u.len() as int;
    if weld {
        lemma_first_same(keys, u, i, 0);
    }
    let r = rep(keys, u, weld, i);
    lemma_kept_before(keys, u, weld, n);
    lemma_kept_before(keys, u, weld, r);
    let all = kept_before(keys, u, weld, n);
    assert(all.contains(r as u32));
    let k = choose|k: int| 0 <= k < all.len() && all[k] == r as u32;
    assert(kept_before(keys, u, weld, all[k] as int).len() == k);
}

/// Welding is exact and consistent: with welding, two vertices that faces use become one vertex
/// exactly when their keys (their coordinates' bits, `-0.0` as `0.0`) are equal; without it, no
/// two of them merge. Either way a vertex becomes a kept vertex with its own key.
pub proof fn lemma_welding_is_exact(keys: Seq<[u64; 3]>, u: Seq<bool>, weld: bool, i: int, j: int)
    requires
        keys.len() == u.len(),
        forall|m: int| 0 <= m < u.len() && #[trigger] u[m] ==> m <= u32::MAX,
        0 <= i < u.len(),
        0 <= j < u.len(),
        u[i],
        u[j],
    ensures
        weld ==> (vertex_map(keys, u, weld)[i] == vertex_map(keys, u, weld)[j] <==> keys[i] == keys[j]),
        !weld ==> (vertex_map(keys, u, weld)[i] == vertex_map(keys, u, weld)[j] <==> i == j),
        keys[kept_before(keys, u, weld, u.len() as int)[vertex_map(keys, u, weld)[i] as int] as int] == keys[i],
{
    let n = u.len() as int;
    let all = kept_before(keys, u, weld, n);
    lemma_new_index(keys, u, weld, i);
    lemma_new_index(keys, u, weld, j);
    lemma_kept_before(keys, u, weld, n);
    let ni = new_index(keys, u, weld, i);
    let nj = new_index(keys, u, weld, j);
    assert(all.len() <= u32::MAX + 1);
    assert(vertex_map(keys, u, weld)[i] == ni as u32);
    assert(vertex_map(keys, u, weld)[j] == nj as u32);
    if weld && keys[i] == keys[j] && i != j {
        let (a, b) = if i < j {
            (i, j)
        } else {
            (j, i)
        };
        lemma_first_same(keys, u, a, 0);
        let f = first_same(keys, u, a, 0);
        lemma_first_same_is(keys, u, b, f, 0);
    }
}

} // verus!
