//! Which volume each side of each face faces: the side graph and its union-find. Every analysed
//! face has two sides, front (`2f`) and back (`2f + 1`); sides that face the same air are joined,
//! and the joined classes are the cells. How faces are ordered around an edge and how rays place
//! components is decided on floating-point positions, which this crate leaves to its callers.
use crate::check::{EdgeClass, FaceClass};
use std::collections::HashMap;
use vstd::prelude::*;

verus! {

/// "No value" for per-face and per-cell tables.
pub const NONE: u32 = 0xFFFF_FFFF;

/// The root `x` reaches by following parents, each step to a strictly higher rank, no higher
/// than `bound`.
pub open spec fn root_in(parent: Seq<u32>, rank: Seq<nat>, bound: nat, x: int) -> int
    decreases bound - rank[x],
{
    if 0 <= x < parent.len() && parent[x] as int != x && 0 <= parent[x] < parent.len()
        && rank[x] < rank[parent[x] as int] <= bound {
        root_in(parent, rank, bound, parent[x] as int)
    } else {
        x
    }
}

/// Disjoint sets over `0..n`, with path halving and union by size.
pub struct UnionFind {
    parent: Vec<u32>,
    size: Vec<u32>,
    /// Each element ranks below its parent, and no rank exceeds `bound`.
    rank: Ghost<Seq<nat>>,
    bound: Ghost<nat>,
}

impl UnionFind {
    /// The parents form a forest: every element's parent is in range, and ranks rise towards
    /// the roots.
    pub closed spec fn wf(&self) -> bool {
        &&& self.parent@.len() == self.size@.len()
        &&& self.rank@.len() == self.parent@.len()
        &&& self.parent@.len() <= u32::MAX
        &&& forall|x: int| 0 <= x < self.parent@.len() ==> #[trigger] self.parent@[x] < self.parent@.len()
        &&& forall|x: int| 0 <= x < self.parent@.len() ==> #[trigger] self.rank@[x] <= self.bound@
        &&& forall|x: int|
            0 <= x < self.parent@.len() && #[trigger] self.parent@[x] as int != x ==> self.rank@[x]
                < self.rank@[self.parent@[x] as int]
    }

    /// How many elements.
    pub closed spec fn len(&self) -> nat {
        self.parent@.len()
    }

    /// The representative of `x`'s set.
    pub closed spec fn root(&self, x: int) -> int {
        root_in(self.parent@, self.rank@, self.bound@, x)
    }

    /// A well-formed union-find holds at most `u32::MAX` elements, and each element's
    /// representative is one of them.
    pub proof fn lemma_bounds(&self, x: int)
        requires
            self.wf(),
            0 <= x < self.len(),
        ensures
            self.len() <= u32::MAX,
            0 <= self.root(x) < self.len(),
    {
        lemma_root_step(self.parent@, self.rank@, self.bound@, x);
    }

    /// `n` elements, each alone in its set.
    pub fn new(n: usize) -> (r: Self)
        requires
            n <= u32::MAX,
        ensures
            r.wf(),
            r.len() == n,
            forall|x: int| 0 <= x < n ==> #[trigger] r.root(x) == x,
    {
        let mut parent: Vec<u32> = Vec::new();
        let mut i: usize = 0;
        while i < n
            invariant
                i <= n <= u32::MAX,
                parent@.len() == i,
                forall|x: int| 0 <= x < i ==> #[trigger] parent@[x] == x,
            decreases n - i,
        {
            parent.push(i as u32);
            i = i + 1;
        }
        let uf = UnionFind {
            parent,
            size: vec![1u32; n],
            rank: Ghost(Seq::new(n as nat, |x: int| 0nat)),
            bound: Ghost(0nat),
        };
        assert forall|x: int| 0 <= x < n implies #[trigger] uf.root(x) == x by {
            assert(uf.parent@[x] == x);
        }
        uf
    }

    /// The representative of `x`'s set. Halves the path it walks, which changes no element's
    /// representative.
    pub fn find(&mut self, x: u32) -> (r: u32)
        requires
            old(self).wf(),
            x < old(self).len(),
        ensures
            final(self).wf(),
            final(self).len() == old(self).len(),
            r == old(self).root(x as int),
            r < old(self).len(),
            old(self).root(r as int) == r,
            forall|y: int| 0 <= y < old(self).len() ==> #[trigger] final(self).root(y) == old(self).root(y),
    {
        let ghost r0 = self.root(x as int);
        let ghost orig = *self;
        let mut x = x;
        proof {
            lemma_root_step(self.parent@, self.rank@, self.bound@, x as int);
        }
        while self.parent[x as usize] != x
            invariant
                self.wf(),
                self.len() == orig.len(),
                x < self.len(),
                self.root(x as int) == r0,
                forall|y: int| 0 <= y < orig.len() ==> #[trigger] self.root(y) == orig.root(y),
            decreases self.bound@ - self.rank@[x as int],
        {
            let p = self.parent[x as usize];
            let g = self.parent[p as usize];
            let ghost before = *self;
            proof {
                lemma_root_step(self.parent@, self.rank@, self.bound@, x as int);
                lemma_root_step(self.parent@, self.rank@, self.bound@, p as int);
                assert(self.rank@[x as int] < self.rank@[g as int]) by {
                    if g != p {
                    }
                }
            }
            self.parent.set(x as usize, g);
            proof {
                lemma_reparent(before.parent@, before.rank@, before.bound@, x as int, g);
                assert forall|y: int| 0 <= y < orig.len() implies #[trigger] self.root(y) == orig.root(y) by {
                    assert(self.root(y) == before.root(y));
                }
            }
            x = g;
        }
        proof {
            lemma_root_step(self.parent@, self.rank@, self.bound@, x as int);
        }
        x
    }

    /// Joins the sets of `a` and `b`: every element of either now has the same representative,
    /// one of the two old ones, and every other element keeps its own.
    pub fn union(&mut self, a: u32, b: u32)
        requires
            old(self).wf(),
            a < old(self).len(),
            b < old(self).len(),
        ensures
            final(self).wf(),
            final(self).len() == old(self).len(),
            final(self).root(a as int) == old(self).root(a as int) || final(self).root(a as int)
                == old(self).root(b as int),
            forall|y: int|
                0 <= y < old(self).len() ==> #[trigger] final(self).root(y) == (if old(self).root(y)
                    == old(self).root(a as int) || old(self).root(y) == old(self).root(b as int) {
                    final(self).root(a as int)
                } else {
                    old(self).root(y)
                }),
    {
        let ghost orig = *self;
        let ra = self.find(a);
        let rb = self.find(b);
        if ra == rb {
            assert forall|y: int| 0 <= y < orig.len() implies #[trigger] self.root(y) == (if orig.root(
                y,
            ) == orig.root(a as int) || orig.root(y) == orig.root(b as int) {
                ra as int
            } else {
                orig.root(y)
            }) by {}
            return;
        }
        let (big, small) = if self.size[ra as usize] < self.size[rb as usize] {
            (rb, ra)
        } else {
            (ra, rb)
        };
        let ghost before = *self;
        proof {
            assert(self.root(a as int) == ra as int);
            assert(self.root(b as int) == rb as int);
            lemma_root_step(self.parent@, self.rank@, self.bound@, a as int);
            lemma_root_step(self.parent@, self.rank@, self.bound@, b as int);
        }
        let sb = self.size[big as usize];
        let ss = self.size[small as usize];
        self.parent.set(small as usize, big);
        // The sizes only balance the trees; a sum past `u32::MAX` cannot occur with fewer
        // elements than that, and would only unbalance them.
        self.size.set(big as usize, sb.saturating_add(ss));
        let ghost new_rank = if before.rank@[big as int] > before.rank@[small as int] {
            before.rank@[big as int]
        } else {
            before.rank@[small as int] + 1
        };
        proof {
            self.rank@ = before.rank@.update(big as int, new_rank);
            self.bound@ = if new_rank > before.bound@ {
                new_rank
            } else {
                before.bound@
            };
            lemma_link(before.parent@, before.rank@, before.bound@, self.rank@, self.bound@, small as int, big);
            assert forall|y: int| 0 <= y < orig.len() implies #[trigger] self.root(y) == (if orig.root(
                y,
            ) == orig.root(a as int) || orig.root(y) == orig.root(b as int) {
                big as int
            } else {
                orig.root(y)
            }) by {
                assert(self.root(y) == (if before.root(y) == small {
                    big as int
                } else {
                    before.root(y)
                }));
            }
        }
    }
}

/// A step of the walk: `x`'s root is its parent's, and a root is its own parent.
pub proof fn lemma_root_step(parent: Seq<u32>, rank: Seq<nat>, bound: nat, x: int)
    requires
        0 <= x < parent.len(),
        rank.len() == parent.len(),
        forall|y: int| 0 <= y < parent.len() ==> #[trigger] parent[y] < parent.len(),
        forall|y: int| 0 <= y < parent.len() ==> #[trigger] rank[y] <= bound,
        forall|y: int|
            0 <= y < parent.len() && #[trigger] parent[y] as int != y ==> rank[y] < rank[parent[y] as int],
    ensures
        parent[x] as int != x ==> root_in(parent, rank, bound, x) == root_in(
            parent,
            rank,
            bound,
            parent[x] as int,
        ),
        parent[x] as int == x ==> root_in(parent, rank, bound, x) == x,
        0 <= root_in(parent, rank, bound, x) < parent.len(),
        parent[root_in(parent, rank, bound, x)] as int == root_in(parent, rank, bound, x),
        rank[x] <= rank[root_in(parent, rank, bound, x)],
    decreases bound - rank[x],
{
    if parent[x] as int != x {
        lemma_root_step(parent, rank, bound, parent[x] as int);
    }
}

/// Pointing `x` at `g`, an element further up its own path, changes no element's root.
pub proof fn lemma_reparent(parent: Seq<u32>, rank: Seq<nat>, bound: nat, x: int, g: u32)
    requires
        0 <= x < parent.len(),
        rank.len() == parent.len(),
        g < parent.len(),
        forall|y: int| 0 <= y < parent.len() ==> #[trigger] parent[y] < parent.len(),
        forall|y: int| 0 <= y < parent.len() ==> #[trigger] rank[y] <= bound,
        forall|y: int|
            0 <= y < parent.len() && #[trigger] parent[y] as int != y ==> rank[y] < rank[parent[y] as int],
        parent[x] as int != x,
        g as int != x,
        rank[x] < rank[g as int],
        root_in(parent, rank, bound, g as int) == root_in(parent, rank, bound, x),
    ensures
        forall|y: int|
            0 <= y < parent.len() ==> #[trigger] root_in(parent.update(x, g), rank, bound, y) == root_in(
                parent,
                rank,
                bound,
                y,
            ),
{
    assert forall|y: int| 0 <= y < parent.len() implies #[trigger] root_in(
        parent.update(x, g),
        rank,
        bound,
        y,
    ) == root_in(parent, rank, bound, y) by {
        lemma_reparent_one(parent, rank, bound, x, g, y);
    }
}

/// [`lemma_reparent`] for one element, by induction up its path.
proof fn lemma_reparent_one(parent: Seq<u32>, rank: Seq<nat>, bound: nat, x: int, g: u32, y: int)
    requires
        0 <= x < parent.len(),
        0 <= y < parent.len(),
        rank.len() == parent.len(),
        g < parent.len(),
        forall|z: int| 0 <= z < parent.len() ==> #[trigger] parent[z] < parent.len(),
        forall|z: int| 0 <= z < parent.len() ==> #[trigger] rank[z] <= bound,
        forall|z: int|
            0 <= z < parent.len() && #[trigger] parent[z] as int != z ==> rank[z] < rank[parent[z] as int],
        parent[x] as int != x,
        g as int != x,
        rank[x] < rank[g as int],
        root_in(parent, rank, bound, g as int) == root_in(parent, rank, bound, x),
    ensures
        root_in(parent.update(x, g), rank, bound, y) == root_in(parent, rank, bound, y),
    decreases bound - rank[y],
{
    let p2 = parent.update(x, g);
    lemma_root_step(parent, rank, bound, y);
    if y == x {
        lemma_reparent_one(parent, rank, bound, x, g, g as int);
        assert(root_in(p2, rank, bound, x) == root_in(p2, rank, bound, g as int));
    } else if parent[y] as int != y {
        lemma_reparent_one(parent, rank, bound, x, g, parent[y] as int);
        assert(p2[y] == parent[y]);
    } else {
        assert(p2[y] == parent[y]);
    }
}

/// Linking the root `s` under the root `t`, with `t`'s rank raised above `s`'s: the elements
/// whose root was `s` now have `t`, every other keeps its root.
pub proof fn lemma_link(
    parent: Seq<u32>,
    rank: Seq<nat>,
    bound: nat,
    rank2: Seq<nat>,
    bound2: nat,
    s: int,
    t: u32,
)
    requires
        0 <= s < parent.len(),
        t < parent.len(),
        s != t as int,
        rank.len() == parent.len(),
        forall|y: int| 0 <= y < parent.len() ==> #[trigger] parent[y] < parent.len(),
        forall|y: int| 0 <= y < parent.len() ==> #[trigger] rank[y] <= bound,
        forall|y: int|
            0 <= y < parent.len() && #[trigger] parent[y] as int != y ==> rank[y] < rank[parent[y] as int],
        parent[s] as int == s,
        parent[t as int] == t,
        rank2 == rank.update(t as int, rank2[t as int]),
        rank2[t as int] >= rank[t as int],
        rank2[t as int] > rank[s],
        bound2 >= bound,
        bound2 >= rank2[t as int],
    ensures
        forall|y: int|
            0 <= y < parent.len() ==> #[trigger] root_in(parent.update(s, t), rank2, bound2, y) == (if root_in(
                parent,
                rank,
                bound,
                y,
            ) == s {
                t as int
            } else {
                root_in(parent, rank, bound, y)
            }),
        forall|y: int| 0 <= y < parent.len() ==> #[trigger] rank2[y] <= bound2,
        forall|y: int|
            0 <= y < parent.len() && #[trigger] parent.update(s, t)[y] as int != y ==> rank2[y]
                < rank2[parent.update(s, t)[y] as int],
{
    let p2 = parent.update(s, t);
    assert forall|y: int|
        0 <= y < parent.len() && #[trigger] p2[y] as int != y implies rank2[y] < rank2[p2[y] as int] by {
        if y == s {
        } else {
            assert(p2[y] == parent[y]);
            if parent[y] == t {
            }
        }
    }
    assert forall|y: int| 0 <= y < parent.len() implies #[trigger] root_in(p2, rank2, bound2, y) == (if root_in(
        parent,
        rank,
        bound,
        y,
    ) == s {
        t as int
    } else {
        root_in(parent, rank, bound, y)
    }) by {
        lemma_link_one(parent, rank, bound, rank2, bound2, s, t, y);
    }
}

/// [`lemma_link`] for one element, by induction up its path.
proof fn lemma_link_one(
    parent: Seq<u32>,
    rank: Seq<nat>,
    bound: nat,
    rank2: Seq<nat>,
    bound2: nat,
    s: int,
    t: u32,
    y: int,
)
    requires
        0 <= s < parent.len(),
        0 <= y < parent.len(),
        t < parent.len(),
        s != t as int,
        rank.len() == parent.len(),
        forall|z: int| 0 <= z < parent.len() ==> #[trigger] parent[z] < parent.len(),
        forall|z: int| 0 <= z < parent.len() ==> #[trigger] rank[z] <= bound,
        forall|z: int|
            0 <= z < parent.len() && #[trigger] parent[z] as int != z ==> rank[z] < rank[parent[z] as int],
        parent[s] as int == s,
        parent[t as int] == t,
        rank2 == rank.update(t as int, rank2[t as int]),
        rank2[t as int] >= rank[t as int],
        rank2[t as int] > rank[s],
        bound2 >= bound,
        bound2 >= rank2[t as int],
    ensures
        root_in(parent.update(s, t), rank2, bound2, y) == (if root_in(parent, rank, bound, y) == s {
            t as int
        } else {
            root_in(parent, rank, bound, y)
        }),
    decreases bound - rank[y],
{
    let p2 = parent.update(s, t);
    lemma_root_step(parent, rank, bound, y);
    if y == s {
        assert(p2[t as int] == t);
        assert(root_in(p2, rank2, bound2, t as int) == t as int);
        assert(root_in(p2, rank2, bound2, s) == root_in(p2, rank2, bound2, t as int));
    } else if y == t as int {
        assert(p2[y] == t);
    } else if parent[y] as int != y {
        assert(p2[y] == parent[y]);
        lemma_link_one(parent, rank, bound, rank2, bound2, s, t, parent[y] as int);
        assert(rank2[y] == rank[y]);
        if parent[y] == t {
            assert(rank2[y] < rank2[t as int]);
        } else {
            assert(rank2[parent[y] as int] == rank[parent[y] as int]);
        }
    } else {
        assert(p2[y] == parent[y]);
    }
}

/// The front side of a face.
pub fn front(face: u32) -> (r: u32)
    requires
        face < 0x8000_0000,
    ensures
        r == 2 * face,
{
    2 * face
}

/// The back side of a face.
pub fn back(face: u32) -> (r: u32)
    requires
        face < 0x7FFF_FFFF,
    ensures
        r == 2 * face + 1,
{
    2 * face + 1
}

/// One use of an edge `u < v` by an analysed face.
#[derive(Clone, Copy, Debug)]
pub struct Use {
    pub face: u32,
    /// The face runs along the edge from `u` to `v` (its vertex cycle contains `u, v`).
    pub fwd: bool,
    /// The face's vertex that is not on the edge.
    pub third: u32,
}

/// The side of `a` that faces the wedge following it in right-hand rotation about `u -> v`:
/// for a face running `u -> v` that wedge is on its front.
pub fn after(a: &Use) -> (r: u32)
    requires
        a.face < 0x7FFF_FFFF,
    ensures
        r == (if a.fwd {
            2 * a.face
        } else {
            2 * a.face + 1
        }),
{
    if a.fwd {
        front(a.face)
    } else {
        back(a.face)
    }
}

/// The side of `b` that faces the wedge preceding it.
pub fn before(b: &Use) -> (r: u32)
    requires
        b.face < 0x7FFF_FFFF,
    ensures
        r == (if b.fwd {
            2 * b.face + 1
        } else {
            2 * b.face
        }),
{
    if b.fwd {
        back(b.face)
    } else {
        front(b.face)
    }
}

/// The side graph: nodes `2f` (front of face f) and `2f + 1` (back), plus the exterior.
pub struct Sides {
    pub uf: UnionFind,
    pub exterior: u32,
    /// Edges whose incident faces tie in angle (overlap); the result is then unreliable.
    pub ties: usize,
    /// Manifold edges both faces run in the same direction.
    pub conflicts: usize,
}

impl Sides {
    /// The sides of `faces` faces, each alone, and the exterior after them.
    pub fn new(faces: usize) -> (r: Self)
        requires
            faces < 0x7FFF_FFFF,
        ensures
            r.uf.wf(),
            r.uf.len() == 2 * faces + 1,
            forall|x: int| 0 <= x < 2 * faces + 1 ==> #[trigger] r.uf.root(x) == x,
            r.exterior == 2 * faces,
            r.ties == 0,
            r.conflicts == 0,
    {
        Sides { uf: UnionFind::new(2 * faces + 1), exterior: (2 * faces) as u32, ties: 0, conflicts: 0 }
    }
}

/// The cells, and the lookup from a class representative to its cell.
pub struct Cells {
    /// Per face: the cell on its front and on its back ([`NONE`] for faces not analysed).
    pub front_cell: Vec<u32>,
    pub back_cell: Vec<u32>,
    /// Per cell: its depth ([`NONE`] if unreachable).
    pub depth: Vec<u32>,
    /// Face-connected components of the analysed faces.
    pub components: usize,
    /// Components whose placement no ray could decide.
    pub unresolved: usize,
    /// Components placed inside two others that do not nest.
    pub ambiguous: usize,
    /// Representative-to-cell lookup.
    pub node_cell: HashMap<u32, u32>,
    pub uf: UnionFind,
}

impl Cells {
    /// The cell a side node belongs to: its class representative's cell, or [`NONE`].
    pub fn cell_of(&mut self, node: u32) -> (r: u32)
        requires
            old(self).uf.wf(),
            node < old(self).uf.len(),
        ensures
            final(self).uf.wf(),
            final(self).uf.len() == old(self).uf.len(),
            forall|y: int| 0 <= y < old(self).uf.len() ==> #[trigger] final(self).uf.root(y) == old(self).uf.root(y),
            final(self).node_cell@ == old(self).node_cell@,
            r == (if old(self).node_cell@.contains_key(old(self).uf.root(node as int) as u32) {
                old(self).node_cell@[old(self).uf.root(node as int) as u32]
            } else {
                NONE
            }),
    {
        let root = self.uf.find(node);
        match self.node_cell.get(&root) {
            Some(c) => *c,
            None => NONE,
        }
    }
}


impl Cells {
    /// The cell of a side node as [`Cells::cell_of`] gives it.
    pub open spec fn cell_spec(&self, node: int) -> u32 {
        let root = self.uf.root(node) as u32;
        if self.node_cell@.contains_key(root) {
            self.node_cell@[root]
        } else {
            NONE
        }
    }

    /// How many of `nodes` lie in the exterior (cell 0).
    pub open spec fn exterior_count(&self, nodes: Seq<u32>) -> nat
        decreases nodes.len(),
    {
        if nodes.len() == 0 {
            0
        } else {
            self.exterior_count(nodes.drop_last()) + if self.cell_spec(nodes.last() as int) == 0 {
                1nat
            } else {
                0nat
            }
        }
    }
}

/// How the analysed faces around an edge meet, in side nodes.
pub enum EdgeTopo {
    /// Used once; the side node of its face.
    Open(u32),
    /// Used twice.
    Manifold,
    /// Used three times or more; for each wedge, a side node facing it.
    Junction(Vec<u32>),
}

/// What an analysed face separates, from the cells on its front and back ([`NONE`] for none)
/// and their depths.
pub open spec fn spec_face_class(front: u32, back: u32, front_depth: u32, back_depth: u32) -> FaceClass {
    if front == back {
        if front == 0 {
            FaceClass::Exterior
        } else {
            FaceClass::Sheet
        }
    } else if front == 0 || back == 0 {
        FaceClass::Boundary
    } else if front_depth == back_depth {
        FaceClass::Partition
    } else {
        FaceClass::NestedShell
    }
}

/// What an analysed face separates ([`spec_face_class`]), and whether it is inverted: between
/// two reachable cells, its front is the deeper.
pub fn face_class(front: u32, back: u32, front_depth: u32, back_depth: u32) -> (r: (FaceClass, bool))
    ensures
        r.0 == spec_face_class(front, back, front_depth, back_depth),
        r.1 == (front != back && front_depth != NONE && back_depth != NONE && front_depth > back_depth),
{
    let class = if front == back {
        if front == 0 {
            FaceClass::Exterior
        } else {
            FaceClass::Sheet
        }
    } else if front == 0 || back == 0 {
        FaceClass::Boundary
    } else if front_depth == back_depth {
        FaceClass::Partition
    } else {
        FaceClass::NestedShell
    };
    (class, front != back && front_depth != NONE && back_depth != NONE && front_depth > back_depth)
}

/// What an edge is: unanalysed when no analysed face uses it; used once, open on the exterior or
/// free inside; manifold; or a junction with the exterior in none, one, or more of its wedges.
pub fn edge_class(cells: &mut Cells, analysed_uses: u32, topo: &EdgeTopo) -> (r: EdgeClass)
    requires
        old(cells).uf.wf(),
        topo matches EdgeTopo::Open(n) ==> n < old(cells).uf.len(),
        topo matches EdgeTopo::Junction(ns) ==> forall|k: int| 0 <= k < ns@.len() ==> #[trigger] ns@[k] < old(cells).uf.len(),
    ensures
        final(cells).uf.wf(),
        final(cells).uf.len() == old(cells).uf.len(),
        forall|y: int| 0 <= y < old(cells).uf.len() ==> #[trigger] final(cells).uf.root(y) == old(cells).uf.root(y),
        final(cells).node_cell@ == old(cells).node_cell@,
        r == if analysed_uses == 0 {
            EdgeClass::Unanalysed
        } else {
            match topo {
                EdgeTopo::Open(n) => if old(cells).cell_spec(*n as int) == 0 {
                    EdgeClass::BoundaryOpen
                } else {
                    EdgeClass::InternalFree
                },
                EdgeTopo::Manifold => EdgeClass::Manifold,
                EdgeTopo::Junction(ns) => {
                    let e = old(cells).exterior_count(ns@);
                    if e == 0 {
                        EdgeClass::InternalJunction
                    } else if e == 1 {
                        EdgeClass::BoundaryJunction
                    } else {
                        EdgeClass::PinchedBoundary
                    }
                },
            }
        },
{
    if analysed_uses == 0 {
        return EdgeClass::Unanalysed;
    }
    match topo {
        EdgeTopo::Open(n) => {
            if cells.cell_of(*n) == 0 {
                EdgeClass::BoundaryOpen
            } else {
                EdgeClass::InternalFree
            }
        },
        EdgeTopo::Manifold => EdgeClass::Manifold,
        EdgeTopo::Junction(ns) => {
            let ghost c0 = *cells;
            let mut exterior: usize = 0;
            let mut k: usize = 0;
            while k < ns.len()
                invariant
                    k <= ns@.len(),
                    forall|j: int| 0 <= j < ns@.len() ==> #[trigger] ns@[j] < c0.uf.len(),
                    c0.uf.wf(),
                    cells.uf.wf(),
                    cells.uf.len() == c0.uf.len(),
                    forall|y: int| 0 <= y < c0.uf.len() ==> #[trigger] cells.uf.root(y) == c0.uf.root(y),
                    cells.node_cell@ == c0.node_cell@,
                    exterior == c0.exterior_count(ns@.subrange(0, k as int)),
                    exterior <= k,
                decreases ns@.len() - k,
            {
                let ghost before = *cells;
                let c = cells.cell_of(ns[k]);
                assert(ns@.subrange(0, k + 1).drop_last() =~= ns@.subrange(0, k as int));
                assert(c == c0.cell_spec(ns@[k as int] as int));
                if c == 0 {
                    exterior = exterior + 1;
                }
                k = k + 1;
            }
            assert(ns@.subrange(0, ns@.len() as int) =~= ns@);
            if exterior == 0 {
                EdgeClass::InternalJunction
            } else if exterior == 1 {
                EdgeClass::BoundaryJunction
            } else {
                EdgeClass::PinchedBoundary
            }
        },
    }
}

/// The side node of a use facing the wedge after it ([`after`]).
pub open spec fn after_node(a: Use) -> int {
    if a.fwd {
        2 * a.face
    } else {
        2 * a.face + 1
    }
}

/// The side node of a use facing the wedge before it ([`before`]).
pub open spec fn before_node(b: Use) -> int {
    if b.fwd {
        2 * b.face + 1
    } else {
        2 * b.face
    }
}

/// The pairs of side nodes an edge joins, its analysed uses given in their order about it: one
/// use joins its face's front and back (air flows round a free edge); two or more join, for each
/// use, the side after it with the side before the next, the last with the first.
pub open spec fn edge_pairs(uses: Seq<Use>) -> Seq<(int, int)> {
    if uses.len() == 0 {
        seq![]
    } else if uses.len() == 1 {
        seq![(2 * uses[0].face, 2 * uses[0].face + 1)]
    } else {
        Seq::new(uses.len(), |i: int| (after_node(uses[i]), before_node(uses[(i + 1) % (uses.len() as int)])))
    }
}

/// Which nodes are together once `a` and `b` are joined, given which are together before.
pub open spec fn join_rel(same: spec_fn(int, int) -> bool, a: int, b: int) -> spec_fn(int, int) -> bool {
    |x: int, y: int| same(x, y) || ((same(x, a) || same(x, b)) && (same(y, a) || same(y, b)))
}

/// Which nodes are together once the first `k` pairs are joined.
pub open spec fn joined_all(same: spec_fn(int, int) -> bool, pairs: Seq<(int, int)>, k: int) -> spec_fn(int, int) -> bool
    decreases k,
{
    if k <= 0 {
        same
    } else {
        join_rel(joined_all(same, pairs, k - 1), pairs[k - 1].0, pairs[k - 1].1)
    }
}

/// Nodes with one representative in `uf`.
pub open spec fn together(uf: UnionFind) -> spec_fn(int, int) -> bool {
    |x: int, y: int| uf.root(x) == uf.root(y)
}

impl Sides {
    /// Joins the sides around an edge used by the analysed faces `uses`, given in their order
    /// about the edge (the caller sorts them by angle, and says whether two tied): the sides
    /// [`edge_pairs`] pairs end up together, and nothing else does ([`joined_all`]). Two uses
    /// running the same way count as an orientation conflict, a tie as one more tie. What the
    /// edge contributed: nothing for no use, the front of the one face for one, manifold for two,
    /// the side after each use for three or more.
    pub fn join_edge(&mut self, uses: &Vec<Use>, tied: bool) -> (r: EdgeTopo)
        requires
            old(self).uf.wf(),
            forall|i: int| 0 <= i < uses@.len() ==> 2 * (#[trigger] uses@[i]).face + 1 < old(self).uf.len(),
            old(self).ties < usize::MAX,
            old(self).conflicts < usize::MAX,
        ensures
            final(self).uf.wf(),
            final(self).uf.len() == old(self).uf.len(),
            final(self).exterior == old(self).exterior,
            forall|x: int, y: int|
                0 <= x < old(self).uf.len() && 0 <= y < old(self).uf.len() ==> #[trigger] together(final(self).uf)(x, y)
                    == joined_all(together(old(self).uf), edge_pairs(uses@), edge_pairs(uses@).len() as int)(x, y),
            final(self).conflicts == old(self).conflicts + if uses@.len() == 2 && uses@[0].fwd == uses@[1].fwd {
                1int
            } else {
                0int
            },
            final(self).ties == old(self).ties + if uses@.len() >= 3 && tied {
                1int
            } else {
                0int
            },
            uses@.len() == 0 ==> r is Manifold,
            uses@.len() == 1 ==> r == EdgeTopo::Open((2 * uses@[0].face) as u32),
            uses@.len() == 2 ==> r is Manifold,
            uses@.len() >= 3 ==> (r matches EdgeTopo::Junction(ns) && ns@.len() == uses@.len() && forall|i: int|
                0 <= i < uses@.len() ==> ns@[i] == after_node(#[trigger] uses@[i])),
    {
        let ghost pairs = edge_pairs(uses@);
        let ghost orig = self.uf;
        let k = uses.len();
        if k == 0 {
            return EdgeTopo::Manifold;
        }
        let mut i: usize = 0;
        let n = if k == 1 { 1 } else { k };
        while i < n
            invariant
                self.uf.wf(),
                self.uf.len() == orig.len(),
                n == pairs.len(),
                pairs == edge_pairs(uses@),
                k == uses@.len() >= 1,
                k >= 2 ==> n == k,
                i <= n,
                forall|j: int| 0 <= j < uses@.len() ==> 2 * (#[trigger] uses@[j]).face + 1 < orig.len(),
                self.exterior == old(self).exterior,
                self.ties == old(self).ties,
                self.conflicts == old(self).conflicts,
                forall|x: int, y: int|
                    0 <= x < orig.len() && 0 <= y < orig.len() ==> #[trigger] together(self.uf)(x, y)
                        == joined_all(together(orig), pairs, i as int)(x, y),
            decreases n - i,
        {
            let (a, b) = if k == 1 {
                let f = uses[0].face;
                (front(f), back(f))
            } else {
                let nx = if i + 1 == k { 0 } else { i + 1 };
                assert(i < k);
                assert(((i + 1) as int) % (k as int) == nx) by {
                    if i + 1 == k {
                        vstd::arithmetic::div_mod::lemma_mod_self_0(k as int);
                    } else {
                        vstd::arithmetic::div_mod::lemma_small_mod((i + 1) as nat, k as nat);
                    }
                }
                (after(&uses[i]), before(&uses[nx]))
            };
            assert(a == pairs[i as int].0 && b == pairs[i as int].1);
            let ghost prev = self.uf;
            self.uf.union(a, b);
            proof {
                assert forall|x: int, y: int|
                    0 <= x < orig.len() && 0 <= y < orig.len() implies #[trigger] together(self.uf)(x, y)
                        == joined_all(together(orig), pairs, i + 1)(x, y) by {
                    let j = joined_all(together(orig), pairs, i as int);
                    assert(j(x, y) == together(prev)(x, y));
                    assert(j(x, a as int) == together(prev)(x, a as int));
                    assert(j(x, b as int) == together(prev)(x, b as int));
                    assert(j(y, a as int) == together(prev)(y, a as int));
                    assert(j(y, b as int) == together(prev)(y, b as int));
                    let ra = prev.root(a as int);
                    let rb = prev.root(b as int);
                    let ina = |z: int| prev.root(z) == ra || prev.root(z) == rb;
                    assert(self.uf.root(x) == if ina(x) { self.uf.root(a as int) } else { prev.root(x) });
                    assert(self.uf.root(y) == if ina(y) { self.uf.root(a as int) } else { prev.root(y) });
                }
            }
            i = i + 1;
        }
        if k == 2 && uses[0].fwd == uses[1].fwd {
            self.conflicts = self.conflicts + 1;
        }
        if k >= 3 && tied {
            self.ties = self.ties + 1;
        }
        if k == 1 {
            EdgeTopo::Open(front(uses[0].face))
        } else if k == 2 {
            EdgeTopo::Manifold
        } else {
            let mut ns: Vec<u32> = Vec::new();
            let mut j: usize = 0;
            while j < k
                invariant
                    j <= k == uses@.len(),
                    forall|q: int| 0 <= q < uses@.len() ==> 2 * (#[trigger] uses@[q]).face + 1 < orig.len(),
                    orig.len() <= u32::MAX,
                    ns@.len() == j,
                    forall|q: int| 0 <= q < j ==> ns@[q] == after_node(#[trigger] uses@[q]),
                decreases k - j,
            {
                ns.push(after(&uses[j]));
                j = j + 1;
            }
            EdgeTopo::Junction(ns)
        }
    }
}
} // verus!
