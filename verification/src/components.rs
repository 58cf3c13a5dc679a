//! Numbering the face-connected components of the analysed faces, in order of their first face.
use crate::cells::{UnionFind, NONE};
use crate::numbering::{lemma_numbering_grows, lemma_prefix_numbering, numbering, roots_of, visit};
use std::collections::HashMap;
use vstd::prelude::*;

verus! {

broadcast use vstd::std_specs::hash::group_hash_axioms;

/// The analysed faces among the first `n`, in order.
pub open spec fn face_order(an: Seq<bool>, n: int) -> Seq<int>
    decreases n,
{
    if n <= 0 {
        seq![]
    } else if an[n - 1] {
        face_order(an, n - 1).push(n - 1)
    } else {
        face_order(an, n - 1)
    }
}

/// The face-connected components, numbered in order of their first analysed face: each
/// analysed face's component ([`NONE`] for the others), and how many there are. `uf` holds one
/// node per face, the faces of a component joined.
pub fn number_components(uf: &mut UnionFind, an: &Vec<bool>) -> (r: (Vec<u32>, usize))
    requires
        old(uf).wf(),
        an@.len() <= old(uf).len(),
        an@.len() < u32::MAX,
    ensures
        final(uf).wf(),
        final(uf).len() == old(uf).len(),
        forall|y: int| 0 <= y < old(uf).len() ==> #[trigger] final(uf).root(y) == old(uf).root(y),
        ({
            let order = face_order(an@, an@.len() as int);
            let (m, c) = numbering(roots_of(*old(uf), order), order.len() as int);
            &&& r.1 == c
            &&& r.0@.len() == an@.len()
            &&& forall|f: int|
                0 <= f < an@.len() ==> #[trigger] r.0@[f] == (if an@[f] {
                    m[old(uf).root(f) as u32]
                } else {
                    NONE
                })
        }),
{
    let ghost orig = *uf;
    let mut map: HashMap<u32, u32> = HashMap::new();
    let mut count: u32 = 0;
    let ghost mut rs: Seq<u32> = seq![];
    assert(numbering(rs, 0).0 =~= map@);
    let mut comp: Vec<u32> = Vec::new();
    let mut f: usize = 0;
    while f < an.len()
        invariant
            uf.wf(),
            uf.len() == orig.len(),
            forall|y: int| 0 <= y < orig.len() ==> #[trigger] uf.root(y) == orig.root(y),
            an@.len() <= orig.len(),
            an@.len() < u32::MAX,
            f <= an@.len(),
            rs == roots_of(orig, face_order(an@, f as int)),
            rs.len() <= f,
            map@ == numbering(rs, rs.len() as int).0,
            count == numbering(rs, rs.len() as int).1,
            comp@.len() == f,
            forall|g: int|
                0 <= g < f ==> #[trigger] comp@[g] == (if an@[g] {
                    map@[orig.root(g) as u32]
                } else {
                    NONE
                }) && (an@[g] ==> map@.contains_key(orig.root(g) as u32)),
        decreases an@.len() - f,
    {
        if an[f] {
            proof {
                uf.lemma_bounds(f as int);
            }
            let ghost m0 = map@;
            let ghost rs0 = rs;
            let x = visit(uf, &mut map, &mut count, f as u32, Ghost(rs));
            assert(map@.contains_key(orig.root(f as int) as u32) && x == map@[orig.root(f as int) as u32]);
            proof {
                rs = rs.push(orig.root(f as int) as u32);
                assert(rs =~= roots_of(orig, face_order(an@, f + 1)));
                assert forall|k: u32| m0.contains_key(k) implies map@.contains_key(k) && map@[k] == m0[k] by {
                    assert(rs.subrange(0, rs0.len() as int) =~= rs0);
                    lemma_prefix_numbering(rs, rs0, rs0.len() as int);
                    lemma_numbering_grows(rs, rs0.len() as int, rs.len() as int, k);
                }
            }
            comp.push(x);
            assert(comp@[f as int] == map@[orig.root(f as int) as u32]);
        } else {
            comp.push(NONE);
            proof {
                assert(rs =~= roots_of(orig, face_order(an@, f + 1)));
            }
        }
        f = f + 1;
    }
    (comp, count as usize)
}

} // verus!
