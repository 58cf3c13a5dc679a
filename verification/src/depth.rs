//! The depth of each cell: how many faces lie between it and the exterior (cell 0), crossing
//! from a cell to the other cell of an analysed face that has different cells on its sides.
use crate::cells::{UnionFind, NONE};
use crate::numbering::{lemma_numbering_bound, lemma_numbering_some, lemma_order_len, node_order, number_cells, numbering, roots_of};
use vstd::prelude::*;

verus! {

/// Face `f` is analysed and joins the cells `a` and `b`, both below `nc`, one on each side.
pub open spec fn joins_cells(fc: Seq<u32>, bc: Seq<u32>, an: Seq<bool>, nc: int, f: int, a: int, b: int) -> bool {
    &&& 0 <= f < an.len()
    &&& an[f]
    &&& fc[f] != bc[f]
    &&& fc[f] < nc && bc[f] < nc
    &&& ((fc[f] == a && bc[f] == b) || (fc[f] == b && bc[f] == a))
}

/// Cells `a` and `b` share an analysed face ([`joins_cells`]).
pub open spec fn adjacent(fc: Seq<u32>, bc: Seq<u32>, an: Seq<bool>, nc: int, a: int, b: int) -> bool {
    exists|f: int| #[trigger] joins_cells(fc, bc, an, nc, f, a, b)
}

/// Cell `c` lies at most `k` faces from the exterior.
pub open spec fn within(fc: Seq<u32>, bc: Seq<u32>, an: Seq<bool>, nc: int, k: nat, c: int) -> bool
    decreases k,
{
    if k == 0 {
        c == 0
    } else {
        within(fc, bc, an, nc, (k - 1) as nat, c) || exists|m: int|
            within(fc, bc, an, nc, (k - 1) as nat, m) && #[trigger] adjacent(fc, bc, an, nc, m, c)
    }
}

proof fn lemma_within_mono(fc: Seq<u32>, bc: Seq<u32>, an: Seq<bool>, nc: int, j: nat, k: nat, c: int)
    requires
        j <= k,
        within(fc, bc, an, nc, j, c),
    ensures
        within(fc, bc, an, nc, k, c),
    decreases k - j,
{
    if j < k {
        lemma_within_mono(fc, bc, an, nc, j, (k - 1) as nat, c);
    }
}

/// Once a step adds no cell, no later step does.
proof fn lemma_within_stable(fc: Seq<u32>, bc: Seq<u32>, an: Seq<bool>, nc: int, l: nat, k: nat, c: int)
    requires
        forall|x: int| #[trigger] within(fc, bc, an, nc, l + 1, x) ==> within(fc, bc, an, nc, l, x),
        within(fc, bc, an, nc, k, c),
    ensures
        within(fc, bc, an, nc, l, c),
    decreases k,
{
    if k <= l {
        lemma_within_mono(fc, bc, an, nc, k, l, c);
    } else if within(fc, bc, an, nc, (k - 1) as nat, c) {
        lemma_within_stable(fc, bc, an, nc, l, (k - 1) as nat, c);
    } else {
        let m = choose|m: int| within(fc, bc, an, nc, (k - 1) as nat, m) && #[trigger] adjacent(fc, bc, an, nc, m, c);
        lemma_within_stable(fc, bc, an, nc, l, (k - 1) as nat, m);
        assert(within(fc, bc, an, nc, l + 1, c));
    }
}

/// Cells within reach are cells: below `nc`.
proof fn lemma_within_range(fc: Seq<u32>, bc: Seq<u32>, an: Seq<bool>, nc: int, k: nat, c: int)
    requires
        nc >= 1,
        within(fc, bc, an, nc, k, c),
    ensures
        0 <= c < nc,
    decreases k,
{
    if k > 0 {
        if within(fc, bc, an, nc, (k - 1) as nat, c) {
            lemma_within_range(fc, bc, an, nc, (k - 1) as nat, c);
        } else {
            let m = choose|m: int| within(fc, bc, an, nc, (k - 1) as nat, m) && #[trigger] adjacent(fc, bc, an, nc, m, c);
            let f = choose|f: int| #[trigger] joins_cells(fc, bc, an, nc, f, m, c);
        }
    }
}

/// How many of the first `n` cells have no depth yet.
pub open spec fn unset(d: Seq<u32>, n: int) -> nat
    decreases n,
{
    if n <= 0 {
        0
    } else {
        unset(d, n - 1) + if d[n - 1] == NONE {
            1nat
        } else {
            0nat
        }
    }
}

proof fn lemma_unset_shrinks(a: Seq<u32>, b: Seq<u32>, n: int, c0: int)
    requires
        0 <= n <= a.len(),
        a.len() == b.len(),
        forall|c: int| 0 <= c < a.len() && b[c] == NONE ==> a[c] == NONE,
    ensures
        unset(b, n) <= unset(a, n),
        0 <= c0 < n && a[c0] == NONE && b[c0] != NONE ==> unset(b, n) < unset(a, n),
    decreases n,
{
    if n > 0 {
        lemma_unset_shrinks(a, b, n - 1, c0);
    }
}

proof fn lemma_unset_le(d: Seq<u32>, n: int)
    requires
        0 <= n,
    ensures
        unset(d, n) <= n,
    decreases n,
{
    if n > 0 {
        lemma_unset_le(d, n - 1);
    }
}

/// Each cell's depth, from each face's front and back cell and whether it is analysed, for
/// `nc` cells: the fewest faces to cross from the exterior, or [`NONE`] for a cell no crossing
/// reaches.
pub fn cell_depths(fc: &Vec<u32>, bc: &Vec<u32>, an: &Vec<bool>, nc: usize) -> (r: Vec<u32>)
    requires
        1 <= nc < u32::MAX,
        fc@.len() == an@.len(),
        bc@.len() == an@.len(),
    ensures
        r@.len() == nc,
        forall|c: int|
            0 <= c < nc ==> {
                let d = #[trigger] r@[c];
                &&& d != NONE ==> within(fc@, bc@, an@, nc as int, d as nat, c) && (d == 0 || !within(
                    fc@,
                    bc@,
                    an@,
                    nc as int,
                    (d - 1) as nat,
                    c,
                ))
                &&& d == NONE ==> forall|k: nat| !#[trigger] within(fc@, bc@, an@, nc as int, k, c)
            },
{
    let ghost (f0, b0, a0, n) = (fc@, bc@, an@, nc as int);
    let mut depth: Vec<u32> = vec![NONE; nc];
    let ghost all_unset = depth@;
    depth.set(0, 0);
    proof {
        lemma_unset_shrinks(all_unset, depth@, nc as int, 0);
        lemma_unset_le(all_unset, nc as int);
    }
    let mut level: u32 = 0;
    loop
        invariant
            f0 == fc@ && b0 == bc@ && a0 == an@ && n == nc,
            1 <= nc < u32::MAX,
            fc@.len() == an@.len() && bc@.len() == an@.len(),
            depth@.len() == nc,
            level < nc,
            forall|c: int|
                0 <= c < nc ==> {
                    let d = #[trigger] depth@[c];
                    &&& (d != NONE) == within(f0, b0, a0, n, level as nat, c)
                    &&& d != NONE ==> d <= level && within(f0, b0, a0, n, d as nat, c) && (d == 0 || !within(
                        f0,
                        b0,
                        a0,
                        n,
                        (d - 1) as nat,
                        c,
                    ))
                },
            unset(depth@, nc as int) + level < nc,
        decreases unset(depth@, nc as int),
    {
        let ghost before = depth@;
        let mut changed = false;
        let mut f: usize = 0;
        while f < an.len()
            invariant
                f0 == fc@ && b0 == bc@ && a0 == an@ && n == nc,
                f <= an@.len(),
                fc@.len() == an@.len() && bc@.len() == an@.len(),
                depth@.len() == nc == before.len(),
                level < nc < u32::MAX,
                forall|c: int|
                    0 <= c < nc ==> {
                        let d = #[trigger] depth@[c];
                        &&& before[c] != NONE ==> d == before[c]
                        &&& before[c] == NONE ==> (d == NONE || d == level + 1)
                        &&& (before[c] == NONE && d == level + 1) <==> (before[c] == NONE && exists|g: int, m: int|
                            0 <= g < f && #[trigger] joins_cells(f0, b0, a0, n, g, m, c) && 0 <= m < nc && before[m] == level)
                    },
                changed == exists|c: int| 0 <= c < nc && before[c] == NONE && #[trigger] depth@[c] != NONE,
            decreases an@.len() - f,
        {
            let (a, b) = (fc[f], bc[f]);
            let ghost start = depth@;
            let ghost was_changed = changed;
            if an[f] && a != b && (a as usize) < nc && (b as usize) < nc {
                let ghost mid = depth@;
                if depth[a as usize] == level && depth[b as usize] == NONE {
                    depth.set(b as usize, level + 1);
                    changed = true;
                    assert(before[b as int] == NONE && depth@[b as int] != NONE);
                }
                let ghost mid2 = depth@;
                if depth[b as usize] == level && depth[a as usize] == NONE {
                    depth.set(a as usize, level + 1);
                    changed = true;
                    assert(before[a as int] == NONE && depth@[a as int] != NONE);
                }
                proof {
                    assert(joins_cells(f0, b0, a0, n, f as int, a as int, b as int));
                    assert(joins_cells(f0, b0, a0, n, f as int, b as int, a as int));
                    assert forall|c: int| 0 <= c < nc implies {
                        let d = #[trigger] depth@[c];
                        (before[c] == NONE && d == level + 1) <==> (before[c] == NONE && exists|g: int, m: int|
                            0 <= g < f + 1 && #[trigger] joins_cells(f0, b0, a0, n, g, m, c) && 0 <= m < nc && before[m] == level)
                    } by {
                        if before[c] == NONE && exists|g: int, m: int|
                            0 <= g < f + 1 && #[trigger] joins_cells(f0, b0, a0, n, g, m, c) && 0 <= m < nc && before[m] == level {
                            let (g, m) = choose|g: int, m: int|
                                0 <= g < f + 1 && #[trigger] joins_cells(f0, b0, a0, n, g, m, c) && 0 <= m < nc && before[m] == level;
                            if g < f {
                                assert(mid[c] == level + 1);
                            } else {
                                if m == a {
                                    assert(c == b);
                                } else {
                                    assert(c == a);
                                }
                            }
                        }
                    }
                }
            }
            proof {
                if was_changed {
                    let c = choose|c: int| 0 <= c < nc && before[c] == NONE && #[trigger] start[c] != NONE;
                    assert(depth@[c] != NONE);
                }
            }
            f = f + 1;
        }
        // The cells at the next level: those one crossing from a cell at this one.
        proof {
            assert forall|c: int| 0 <= c < nc implies {
                let d = #[trigger] depth@[c];
                (d != NONE) == within(f0, b0, a0, n, (level + 1) as nat, c)
            } by {
                if before[c] != NONE {
                    lemma_within_mono(f0, b0, a0, n, level as nat, (level + 1) as nat, c);
                } else {
                    if depth@[c] != NONE {
                        let (g, m) = choose|g: int, m: int|
                            0 <= g < an@.len() && #[trigger] joins_cells(f0, b0, a0, n, g, m, c) && 0 <= m < nc && before[m] == level;
                        assert(adjacent(f0, b0, a0, n, m, c));
                        assert(within(f0, b0, a0, n, level as nat, m));
                    }
                    if within(f0, b0, a0, n, (level + 1) as nat, c) {
                        let m = choose|m: int| within(f0, b0, a0, n, level as nat, m) && #[trigger] adjacent(f0, b0, a0, n, m, c);
                        let g = choose|g: int| #[trigger] joins_cells(f0, b0, a0, n, g, m, c);
                        lemma_within_range(f0, b0, a0, n, level as nat, m);
                        assert(before[m] != NONE);
                        if before[m] < level {
                            lemma_within_mono(f0, b0, a0, n, before[m] as nat, (level - 1) as nat, m);
                            assert(within(f0, b0, a0, n, level as nat, c));
                        }
                        assert(before[m] == level);
                    }
                }
            }
        }
        if !changed {
            proof {
                assert forall|c: int| 0 <= c < nc && depth@[c] == NONE implies forall|k: nat|
                    !#[trigger] within(f0, b0, a0, n, k, c) by {
                    assert forall|x: int| #[trigger] within(f0, b0, a0, n, (level + 1) as nat, x) implies within(
                        f0,
                        b0,
                        a0,
                        n,
                        level as nat,
                        x,
                    ) by {
                        lemma_within_range(f0, b0, a0, n, (level + 1) as nat, x);
                        assert(depth@[x] == before[x]);
                    }
                    assert forall|k: nat| !#[trigger] within(f0, b0, a0, n, k, c) by {
                        if within(f0, b0, a0, n, k, c) {
                            lemma_within_stable(f0, b0, a0, n, level as nat, k, c);
                        }
                    }
                }
            }
            return depth;
        }
        proof {
            let c0 = choose|c: int| 0 <= c < nc && before[c] == NONE && #[trigger] depth@[c] != NONE;
            lemma_unset_shrinks(before, depth@, nc as int, c0);
            lemma_unset_le(depth@, nc as int);
        }
        level = level + 1;
    }
}

/// The cells of a placed side graph and their depths: each analysed face's front and back cell,
/// the exterior's cell 0 and the others numbered in order of first appearance ([`number_cells`]),
/// and each cell's depth, the fewest faces crossed from the exterior, or [`NONE`] when it cannot
/// be reached ([`cell_depths`]).
pub fn cells_and_depths(uf: &mut UnionFind, exterior: u32, an: &Vec<bool>) -> (r: (Vec<u32>, Vec<u32>, Vec<u32>))
    requires
        old(uf).wf(),
        exterior < old(uf).len(),
        2 * an@.len() <= old(uf).len(),
        2 * an@.len() + 2 < u32::MAX,
    ensures
        final(uf).wf(),
        final(uf).len() == old(uf).len(),
        forall|y: int| 0 <= y < old(uf).len() ==> #[trigger] final(uf).root(y) == old(uf).root(y),
        1 <= r.2@.len() <= 2 * an@.len() + 1,
        ({
            let order = node_order(exterior as int, an@, an@.len() as int);
            let (m, c) = numbering(roots_of(*old(uf), order), order.len() as int);
            &&& r.2@.len() == c
            &&& r.0@.len() == an@.len() && r.1@.len() == an@.len()
            &&& m[old(uf).root(exterior as int) as u32] == 0
            &&& forall|f: int|
                0 <= f < an@.len() ==> #[trigger] r.0@[f] == (if an@[f] {
                    m[old(uf).root(2 * f) as u32]
                } else {
                    NONE
                }) && r.1@[f] == (if an@[f] {
                    m[old(uf).root(2 * f + 1) as u32]
                } else {
                    NONE
                })
        }),
        forall|c: int|
            0 <= c < r.2@.len() ==> {
                let d = #[trigger] r.2@[c];
                let nc = r.2@.len() as int;
                &&& d != NONE ==> within(r.0@, r.1@, an@, nc, d as nat, c) && (d == 0 || !within(
                    r.0@,
                    r.1@,
                    an@,
                    nc,
                    (d - 1) as nat,
                    c,
                ))
                &&& d == NONE ==> forall|k: nat| !#[trigger] within(r.0@, r.1@, an@, nc, k, c)
            },
{
    let ghost u0 = *uf;
    let (front, back, count) = number_cells(uf, exterior, an);
    proof {
        let order = node_order(exterior as int, an@, an@.len() as int);
        lemma_order_len(exterior as int, an@, an@.len() as int);
        let rs = roots_of(u0, order);
        lemma_numbering_bound(rs, order.len() as int);
        lemma_numbering_some(rs, order.len() as int);
    }
    let depth = cell_depths(&front, &back, an, count);
    (front, back, depth)
}

} // verus!
