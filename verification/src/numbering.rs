//! The cells: the classes of the side graph, numbered from the exterior's (0) in order of first
//! appearance among the analysed faces' fronts and backs, and the cell on each side of each face.
use crate::cells::{UnionFind, NONE};
use std::collections::HashMap;
use vstd::prelude::*;

verus! {

broadcast use vstd::std_specs::hash::group_hash_axioms;

/// The side nodes in the order their cells are numbered: the exterior, then the front and the
/// back of each of the first `n` faces that is analysed.
pub open spec fn node_order(ext: int, an: Seq<bool>, n: int) -> Seq<int>
    decreases n,
{
    if n <= 0 {
        seq![ext]
    } else if an[n - 1] {
        node_order(ext, an, n - 1).push(2 * (n - 1)).push(2 * (n - 1) + 1)
    } else {
        node_order(ext, an, n - 1)
    }
}

/// The representatives of `nodes` in `uf`.
pub open spec fn roots_of(uf: UnionFind, nodes: Seq<int>) -> Seq<u32> {
    nodes.map_values(|x: int| uf.root(x) as u32)
}

/// The numbers of the first `k` representatives of `rs`, each new one taking the next number,
/// and how many numbers were given.
pub open spec fn numbering(rs: Seq<u32>, k: int) -> (Map<u32, u32>, nat)
    decreases k,
{
    if k <= 0 {
        (Map::empty(), 0)
    } else {
        let (m, c) = numbering(rs, k - 1);
        if m.contains_key(rs[k - 1]) {
            (m, c)
        } else {
            (m.insert(rs[k - 1], c as u32), c + 1)
        }
    }
}

pub(crate) proof fn lemma_numbering_grows(rs: Seq<u32>, j: int, k: int, x: u32)
    requires
        0 <= j <= k,
        numbering(rs, j).0.contains_key(x),
    ensures
        numbering(rs, k).0.contains_key(x) && numbering(rs, k).0[x] == numbering(rs, j).0[x],
    decreases k - j,
{
    if j < k {
        lemma_numbering_grows(rs, j, k - 1, x);
    }
}

/// At least one number is given to a non-empty sequence.
pub(crate) proof fn lemma_numbering_some(rs: Seq<u32>, k: int)
    requires
        1 <= k,
    ensures
        numbering(rs, k).1 >= 1,
    decreases k,
{
    if k > 1 {
        lemma_numbering_some(rs, k - 1);
    } else {
        assert(numbering(rs, 0).0 == Map::<u32, u32>::empty());
        assert(!numbering(rs, 0).0.contains_key(rs[0]));
    }
}

/// The exterior and at most two nodes per face.
pub(crate) proof fn lemma_order_len(ext: int, an: Seq<bool>, n: int)
    requires
        0 <= n <= an.len(),
    ensures
        1 <= node_order(ext, an, n).len() <= 2 * n + 1,
    decreases n,
{
    if n > 0 {
        lemma_order_len(ext, an, n - 1);
    }
}

pub(crate) proof fn lemma_numbering_bound(rs: Seq<u32>, k: int)
    requires
        0 <= k,
    ensures
        numbering(rs, k).1 <= k,
        forall|x: u32| #[trigger] numbering(rs, k).0.contains_key(x) ==> numbering(rs, k).0[x] < numbering(rs, k).1,
    decreases k,
{
    if k > 0 {
        lemma_numbering_bound(rs, k - 1);
    }
}

/// Gives node `x`'s class its number, a new one if its class has none yet.
pub(crate) fn visit(uf: &mut UnionFind, map: &mut HashMap<u32, u32>, count: &mut u32, x: u32, Ghost(rs): Ghost<Seq<u32>>) -> (r: u32)
    requires
        old(uf).wf(),
        x < old(uf).len(),
        old(map)@ == numbering(rs, rs.len() as int).0,
        *old(count) == numbering(rs, rs.len() as int).1,
        rs.len() < u32::MAX,
    ensures
        final(uf).wf(),
        final(uf).len() == old(uf).len(),
        forall|y: int| 0 <= y < old(uf).len() ==> #[trigger] final(uf).root(y) == old(uf).root(y),
        final(map)@ == numbering(rs.push(old(uf).root(x as int) as u32), rs.len() + 1int).0,
        *final(count) == numbering(rs.push(old(uf).root(x as int) as u32), rs.len() + 1int).1,
        final(map)@.contains_key(old(uf).root(x as int) as u32),
        r == final(map)@[old(uf).root(x as int) as u32],
{
    let ghost rs2 = rs.push(old(uf).root(x as int) as u32);
    assert(rs2.subrange(0, rs.len() as int) =~= rs);
    assert(numbering(rs2, rs.len() as int) == numbering(rs, rs.len() as int)) by {
        lemma_prefix_numbering(rs2, rs, rs.len() as int);
    }
    proof {
        lemma_numbering_bound(rs, rs.len() as int);
    }
    let root = uf.find(x);
    match map.get(&root) {
        Some(c) => *c,
        None => {
            let c = *count;
            map.insert(root, c);
            *count = c + 1;
            c
        },
    }
}

pub(crate) proof fn lemma_prefix_numbering(a: Seq<u32>, b: Seq<u32>, k: int)
    requires
        0 <= k <= b.len(),
        k <= a.len(),
        forall|i: int| 0 <= i < k ==> a[i] == b[i],
    ensures
        numbering(a, k) == numbering(b, k),
    decreases k,
{
    if k > 0 {
        lemma_prefix_numbering(a, b, k - 1);
    }
}

/// The cells: each analysed face's front and back cell ([`NONE`] for faces not analysed), and
/// how many cells there are. The classes of `uf` are numbered in order of first appearance
/// among the exterior, then the analysed faces' fronts and backs ([`node_order`],
/// [`numbering`]), so that the exterior is cell 0.
pub fn number_cells(uf: &mut UnionFind, exterior: u32, an: &Vec<bool>) -> (r: (Vec<u32>, Vec<u32>, usize))
    requires
        old(uf).wf(),
        exterior < old(uf).len(),
        2 * an@.len() <= old(uf).len(),
    ensures
        final(uf).wf(),
        final(uf).len() == old(uf).len(),
        forall|y: int| 0 <= y < old(uf).len() ==> #[trigger] final(uf).root(y) == old(uf).root(y),
        ({
            let order = node_order(exterior as int, an@, an@.len() as int);
            let (m, c) = numbering(roots_of(*old(uf), order), order.len() as int);
            &&& r.2 == c
            &&& r.0@.len() == an@.len() && r.1@.len() == an@.len()
            &&& m[old(uf).root(exterior as int) as u32] == 0
            &&& forall|f: int|
                0 <= f < an@.len() ==> #[trigger] r.0@[f] == (if an@[f] {
                    m[old(uf).root(2 * f) as u32]
                } else {
                    NONE
                }) && r.1@[f] == (if an@[f] {
                    m[old(uf).root(2 * f + 1) as u32]
                } else {
                    NONE
                })
        }),
{
    let ghost orig = *uf;
    let ghost full = roots_of(orig, node_order(exterior as int, an@, an@.len() as int));
    let mut map: HashMap<u32, u32> = HashMap::new();
    let mut count: u32 = 0;
    let ghost mut rs: Seq<u32> = seq![];
    assert(numbering(rs, 0).0 =~= map@);
    proof {
        orig.lemma_bounds(exterior as int);
    }
    let c0 = visit(uf, &mut map, &mut count, exterior, Ghost(rs));
    proof {
        rs = rs.push(orig.root(exterior as int) as u32);
        assert(rs =~= roots_of(orig, node_order(exterior as int, an@, 0)));
        let r0 = orig.root(exterior as int) as u32;
        assert(rs[0] == r0);
        assert(numbering(rs, 0).0 == Map::<u32, u32>::empty());
        assert(numbering(rs, 0).1 == 0);
        assert(!numbering(rs, 0).0.contains_key(r0));
        assert(numbering(rs, 1).0 == numbering(rs, 0).0.insert(r0, 0u32));
    }
    let mut front: Vec<u32> = Vec::new();
    let mut back: Vec<u32> = Vec::new();
    let mut f: usize = 0;
    while f < an.len()
        invariant
            uf.wf(),
            uf.len() == orig.len(),
            forall|y: int| 0 <= y < orig.len() ==> #[trigger] uf.root(y) == orig.root(y),
            2 * an@.len() <= orig.len() <= u32::MAX,
            exterior < orig.len(),
            f <= an@.len(),
            rs == roots_of(orig, node_order(exterior as int, an@, f as int)),
            rs.len() <= 2 * f + 1,
            map@ == numbering(rs, rs.len() as int).0,
            count == numbering(rs, rs.len() as int).1,
            map@.contains_key(orig.root(exterior as int) as u32) && map@[orig.root(exterior as int) as u32] == 0,
            front@.len() == f && back@.len() == f,
            forall|g: int|
                0 <= g < f ==> #[trigger] front@[g] == (if an@[g] {
                    map@[orig.root(2 * g) as u32]
                } else {
                    NONE
                }) && back@[g] == (if an@[g] {
                    map@[orig.root(2 * g + 1) as u32]
                } else {
                    NONE
                }) && (an@[g] ==> map@.contains_key(orig.root(2 * g) as u32) && map@.contains_key(
                    orig.root(2 * g + 1) as u32,
                )),
        decreases an@.len() - f,
    {
        if an[f] {
            proof {
                uf.lemma_bounds(2 * f as int);
                uf.lemma_bounds(2 * f + 1);
            }
            let ghost m0 = map@;
            let ghost rs0 = rs;
            let x = visit(uf, &mut map, &mut count, (2 * f) as u32, Ghost(rs));
            proof {
                rs = rs.push(orig.root(2 * f) as u32);
            }
            let ghost m1 = map@;
            let ghost rs1 = rs;
            let y = visit(uf, &mut map, &mut count, (2 * f + 1) as u32, Ghost(rs));
            proof {
                rs = rs.push(orig.root(2 * f + 1) as u32);
                assert(rs =~= roots_of(orig, node_order(exterior as int, an@, f + 1)));
                assert forall|k: u32| m0.contains_key(k) implies map@.contains_key(k) && map@[k] == m0[k] by {
                    assert(rs.subrange(0, rs0.len() as int) =~= rs0);
                    lemma_prefix_numbering(rs, rs0, rs0.len() as int);
                    lemma_numbering_grows(rs, rs0.len() as int, rs.len() as int, k);
                }
                assert(map@.contains_key(orig.root(2 * f) as u32) && map@[orig.root(2 * f) as u32] == x) by {
                    assert(rs.subrange(0, rs1.len() as int) =~= rs1);
                    lemma_prefix_numbering(rs, rs1, rs1.len() as int);
                    lemma_numbering_grows(rs, rs1.len() as int, rs.len() as int, orig.root(2 * f) as u32);
                }
            }
            front.push(x);
            back.push(y);
        } else {
            front.push(NONE);
            back.push(NONE);
            proof {
                assert(rs =~= roots_of(orig, node_order(exterior as int, an@, f + 1)));
            }
        }
        f = f + 1;
    }
    (front, back, count as usize)
}

} // verus!
