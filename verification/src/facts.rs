//! The cell facts the geometry check reads, built from the side graph once the sides around
//! every edge are joined: the components placed in one another ([`place`]), the cells numbered
//! and their depths found ([`cells_and_depths`]), and each edge's wedges that face the exterior.
//! The float-decided inputs (the rays, the seed faces, the radial order the joins took) are
//! arguments.
use crate::cells::{joined_all, together, EdgeTopo, Sides, NONE};
use crate::census::count_where;
use crate::depth::{cells_and_depths, within};
use crate::numbering::{node_order, numbering, roots_of};
use crate::place::{ambiguous_at, place, place_pairs, rays_in, Ray};
use vstd::prelude::*;

verus! {

/// The cell facts of a side graph: per face its front and back cell, per cell its depth, per
/// edge how many of its wedges (or its one open side) face the exterior, and the counts of
/// components, of components no ray placed, of ambiguous placements, of tied and of conflicting
/// edges.
pub struct CellFacts {
    pub front_cell: Vec<u32>,
    pub back_cell: Vec<u32>,
    pub depth: Vec<u32>,
    pub edge_exterior: Vec<u32>,
    pub components: usize,
    pub unresolved: usize,
    pub ambiguous: usize,
    pub ties: usize,
    pub conflicts: usize,
}

/// The cell of side node `n` (the front `2f` or back `2f + 1` of face `f`).
pub open spec fn node_cell(front: Seq<u32>, back: Seq<u32>, n: int) -> u32 {
    if n % 2 == 0 {
        front[n / 2]
    } else {
        back[n / 2]
    }
}

/// How many of the first `k` of `ns` lie in the exterior (cell 0).
pub open spec fn exterior_in(front: Seq<u32>, back: Seq<u32>, ns: Seq<u32>, k: int) -> nat
    decreases k,
{
    if k <= 0 {
        0
    } else {
        exterior_in(front, back, ns, k - 1) + if node_cell(front, back, ns[k - 1] as int) == 0 {
            1nat
        } else {
            0nat
        }
    }
}

/// The side nodes an edge's joins named: its one face's front when open, a side per wedge at a
/// junction, none otherwise.
pub open spec fn topo_nodes(t: EdgeTopo) -> Seq<u32> {
    match t {
        EdgeTopo::Open(n) => seq![n],
        EdgeTopo::Manifold => seq![],
        EdgeTopo::Junction(ns) => ns@,
    }
}

/// How many of an edge's wedges face the exterior.
pub open spec fn edge_exterior_of(front: Seq<u32>, back: Seq<u32>, t: EdgeTopo) -> nat {
    exterior_in(front, back, topo_nodes(t), topo_nodes(t).len() as int)
}

/// The edge's nodes are sides of the first `faces` faces, at most `u32::MAX` of them.
pub open spec fn topo_in(t: EdgeTopo, faces: int) -> bool {
    &&& topo_nodes(t).len() <= u32::MAX
    &&& forall|k: int| 0 <= k < topo_nodes(t).len() ==> #[trigger] topo_nodes(t)[k] < 2 * faces
}

proof fn lemma_order_in(ext: int, an: Seq<bool>, n: int, len: int)
    requires
        0 <= ext < len,
        0 <= n <= an.len(),
        2 * an.len() <= len,
    ensures
        forall|k: int| 0 <= k < node_order(ext, an, n).len() ==> 0 <= #[trigger] node_order(ext, an, n)[k] < len,
    decreases n,
{
    if n > 0 {
        lemma_order_in(ext, an, n - 1, len);
        let prev = node_order(ext, an, n - 1);
        if an[n - 1] {
            assert forall|k: int| 0 <= k < node_order(ext, an, n).len() implies 0 <= #[trigger] node_order(
                ext,
                an,
                n,
            )[k] < len by {
                if k < prev.len() {
                    assert(node_order(ext, an, n)[k] == prev[k]);
                }
            }
        }
    } else {
        assert(node_order(ext, an, 0) =~= seq![ext]);
    }
}

/// How many of `ns` face the exterior ([`exterior_in`]).
fn count_exterior(front: &Vec<u32>, back: &Vec<u32>, ns: &Vec<u32>) -> (r: u32)
    requires
        front@.len() == back@.len(),
        forall|k: int| 0 <= k < ns@.len() ==> #[trigger] ns@[k] < 2 * front@.len(),
        ns@.len() <= u32::MAX,
    ensures
        r == exterior_in(front@, back@, ns@, ns@.len() as int),
{
    let mut c: u32 = 0;
    let mut k: usize = 0;
    while k < ns.len()
        invariant
            k <= ns@.len() <= u32::MAX,
            front@.len() == back@.len(),
            forall|j: int| 0 <= j < ns@.len() ==> #[trigger] ns@[j] < 2 * front@.len(),
            c == exterior_in(front@, back@, ns@, k as int),
            c <= k,
        decreases ns@.len() - k,
    {
        let n = ns[k];
        let cell = if n % 2 == 0 {
            front[(n / 2) as usize]
        } else {
            back[(n / 2) as usize]
        };
        assert(cell == node_cell(front@, back@, ns@[k as int] as int));
        if cell == 0 {
            c = c + 1;
        }
        k = k + 1;
    }
    c
}

/// The cell facts of the side graph `sides`, its sides around every edge joined (each edge's
/// joins gave `topos`, in edge order): places the components by their `rays` and `seeds`
/// ([`place`]: its joins, and nothing else, are added), then numbers the cells of the analysed
/// faces `an` and finds their depths ([`cells_and_depths`]) on the placed graph, and counts each
/// edge's wedges facing the exterior ([`edge_exterior_of`]). One ray per component.
pub fn cell_facts(sides: &mut Sides, an: &Vec<bool>, rays: &Vec<Option<Ray>>, seeds: &Vec<u32>, topos: &Vec<EdgeTopo>) -> (r:
    CellFacts)
    requires
        old(sides).uf.wf(),
        seeds@.len() == rays@.len(),
        forall|c: int| 0 <= c < seeds@.len() ==> 2 * #[trigger] seeds@[c] + 1 < old(sides).uf.len(),
        old(sides).exterior < old(sides).uf.len(),
        rays_in(rays@, old(sides).uf.len()),
        2 * an@.len() <= old(sides).uf.len(),
        2 * an@.len() + 2 < u32::MAX,
        forall|p: int| 0 <= p < topos@.len() ==> topo_in(#[trigger] topos@[p], an@.len() as int),
    ensures
        final(sides).uf.wf(),
        final(sides).uf.len() == old(sides).uf.len(),
        final(sides).exterior == old(sides).exterior,
        forall|x: int, y: int|
            0 <= x < old(sides).uf.len() && 0 <= y < old(sides).uf.len() ==> #[trigger] together(final(sides).uf)(x, y)
                == joined_all(
                together(old(sides).uf),
                place_pairs(old(sides).uf, rays@, seeds@, old(sides).exterior),
                rays@.len() as int,
            )(x, y),
        r.components == rays@.len(),
        r.unresolved == count_where(|c: int| rays@[c] is None, rays@.len() as int),
        r.ambiguous == count_where(|c: int| ambiguous_at(old(sides).uf, rays@, c), rays@.len() as int),
        r.ties == old(sides).ties,
        r.conflicts == old(sides).conflicts,
        1 <= r.depth@.len() <= 2 * an@.len() + 1,
        ({
            let order = node_order(final(sides).exterior as int, an@, an@.len() as int);
            let (m, c) = numbering(roots_of(final(sides).uf, order), order.len() as int);
            &&& r.depth@.len() == c
            &&& r.front_cell@.len() == an@.len() && r.back_cell@.len() == an@.len()
            &&& m[final(sides).uf.root(final(sides).exterior as int) as u32] == 0
            &&& forall|f: int|
                0 <= f < an@.len() ==> #[trigger] r.front_cell@[f] == (if an@[f] {
                    m[final(sides).uf.root(2 * f) as u32]
                } else {
                    NONE
                }) && r.back_cell@[f] == (if an@[f] {
                    m[final(sides).uf.root(2 * f + 1) as u32]
                } else {
                    NONE
                })
        }),
        forall|c: int|
            0 <= c < r.depth@.len() ==> {
                let d = #[trigger] r.depth@[c];
                let nc = r.depth@.len() as int;
                &&& d != NONE ==> within(r.front_cell@, r.back_cell@, an@, nc, d as nat, c) && (d == 0 || !within(
                    r.front_cell@,
                    r.back_cell@,
                    an@,
                    nc,
                    (d - 1) as nat,
                    c,
                ))
                &&& d == NONE ==> forall|k: nat| !#[trigger] within(r.front_cell@, r.back_cell@, an@, nc, k, c)
            },
        r.edge_exterior@.len() == topos@.len(),
        forall|p: int|
            0 <= p < topos@.len() ==> #[trigger] r.edge_exterior@[p] == edge_exterior_of(
                r.front_cell@,
                r.back_cell@,
                topos@[p],
            ),
{
    let ties = sides.ties;
    let conflicts = sides.conflicts;
    let (unresolved, ambiguous) = place(sides, rays, seeds);
    let ghost placed = sides.uf;
    let ext = sides.exterior;
    let (front_cell, back_cell, depth) = cells_and_depths(&mut sides.uf, ext, an);
    proof {
        let order = node_order(ext as int, an@, an@.len() as int);
        lemma_order_in(ext as int, an@, an@.len() as int, placed.len() as int);
        assert(roots_of(placed, order) =~= roots_of(sides.uf, order));
        assert forall|x: int, y: int|
            0 <= x < placed.len() && 0 <= y < placed.len() implies #[trigger] together(sides.uf)(x, y) == together(
                placed,
            )(x, y) by {
            assert(sides.uf.root(x) == placed.root(x));
            assert(sides.uf.root(y) == placed.root(y));
        }
    }
    let mut edge_exterior: Vec<u32> = Vec::new();
    let mut p: usize = 0;
    while p < topos.len()
        invariant
            p <= topos@.len(),
            front_cell@.len() == an@.len() && back_cell@.len() == an@.len(),
            2 * an@.len() + 2 < u32::MAX,
            forall|q: int| 0 <= q < topos@.len() ==> topo_in(#[trigger] topos@[q], an@.len() as int),
            edge_exterior@.len() == p,
            forall|q: int|
                0 <= q < p ==> #[trigger] edge_exterior@[q] == edge_exterior_of(front_cell@, back_cell@, topos@[q]),
        decreases topos@.len() - p,
    {
        let e: u32 = match &topos[p] {
            EdgeTopo::Open(n) => {
                assert(topo_nodes(topos@[p as int])[0] == *n);
                let one = vec![*n];
                assert(one@ =~= topo_nodes(topos@[p as int]));
                count_exterior(&front_cell, &back_cell, &one)
            },
            EdgeTopo::Manifold => 0,
            EdgeTopo::Junction(ns) => {
                assert(topo_in(topos@[p as int], an@.len() as int));
                count_exterior(&front_cell, &back_cell, ns)
            },
        };
        edge_exterior.push(e);
        p = p + 1;
    }
    CellFacts {
        front_cell,
        back_cell,
        depth,
        edge_exterior,
        components: rays.len(),
        unresolved,
        ambiguous,
        ties,
        conflicts,
    }
}

} // verus!
