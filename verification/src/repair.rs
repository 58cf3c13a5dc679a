//! The repair's mechanical fixes on indices: after welding (each vertex's target, the first
//! vertex it is merged into, found by distance, which this crate leaves to its callers), which
//! vertices stay and their new numbers, and which faces are removed as degenerate or as repeats
//! of an earlier face, the others kept and renumbered.
use crate::census::{lemma_pack3, pack3, sort3, sorted3, spec_same_cycle, same_cycle};
use crate::check::ReasonCode;
use std::collections::HashMap;
use vstd::prelude::*;

verus! {

broadcast use vstd::std_specs::hash::group_hash_axioms;

/// Why the repair removed a face.
#[derive(Clone, Copy, Debug, PartialEq, Eq, Hash, Structural)]
pub enum DegenerateCause {
    /// Two of its vertex indices are equal.
    RepeatedVertex,
    /// Three distinct vertices, exactly collinear (or coincident).
    ZeroArea,
    /// Welding made two of its vertices one, or its three vertices collinear.
    CollapsedByWeld,
}

/// What the repair did to the geometry as a whole.
#[derive(Clone, Copy, Debug, PartialEq, Eq, Hash, Structural)]
pub enum RepairStatus {
    /// Nothing needed changing, and the check passes.
    Unchanged,
    /// Changes were made, and the check passes on the result.
    Repaired,
    /// The check still refuses the result.
    Refused,
}

/// A reason the repaired geometry is still refused, its faces in the input's numbering.
#[derive(Clone, Debug, PartialEq)]
pub struct Refusal {
    pub code: ReasonCode,
    pub count: usize,
    pub faces: Vec<u32>,
    pub message: String,
}

/// A face the repair removed, in the input's numbering.
#[derive(Clone, Copy, Debug, PartialEq, Eq, Structural)]
pub enum FaceChange {
    RemoveDegenerateFace { face: u32, cause: DegenerateCause },
    /// The same three welded vertices as an earlier face, which is kept.
    RemoveDuplicateFace { face: u32, duplicate_of: u32, same_orientation: bool, same_group: bool },
}

/// The status of a repair: refused when the check still refuses the result, else repaired when
/// anything changed, else unchanged.
pub fn repair_status(check_passes: bool, changed: bool) -> (r: RepairStatus)
    ensures
        r == if !check_passes {
            RepairStatus::Refused
        } else if changed {
            RepairStatus::Repaired
        } else {
            RepairStatus::Unchanged
        },
{
    if !check_passes {
        RepairStatus::Refused
    } else if changed {
        RepairStatus::Repaired
    } else {
        RepairStatus::Unchanged
    }
}

/// Weld targets as the welding gives them: each vertex's target is itself or a lower vertex that
/// is its own target.
pub open spec fn targets_ok(target: Seq<u32>) -> bool {
    forall|v: int| 0 <= v < target.len() ==> #[trigger] target[v] <= v && target[target[v] as int] == target[v]
}

/// How many of the first `v` vertices stay (are their own target).
pub open spec fn staying_before(target: Seq<u32>, v: int) -> nat
    decreases v,
{
    if v <= 0 {
        0
    } else {
        staying_before(target, v - 1) + if target[v - 1] == (v - 1) as u32 {
            1nat
        } else {
            0nat
        }
    }
}

/// The vertices among the first `v` that stay, in order.
pub open spec fn staying(target: Seq<u32>, v: int) -> Seq<u32>
    decreases v,
{
    if v <= 0 {
        seq![]
    } else if target[v - 1] == (v - 1) as u32 {
        staying(target, v - 1).push((v - 1) as u32)
    } else {
        staying(target, v - 1)
    }
}

proof fn lemma_staying(target: Seq<u32>, v: int)
    requires
        0 <= v <= target.len(),
    ensures
        staying(target, v).len() == staying_before(target, v),
        staying_before(target, v) <= v,
    decreases v,
{
    if v > 0 {
        lemma_staying(target, v - 1);
    }
}

/// Each vertex's new number (how many staying vertices precede its target), and the staying
/// vertices in order.
pub fn renumber_vertices(target: &Vec<u32>) -> (r: (Vec<u32>, Vec<u32>))
    requires
        targets_ok(target@),
        target@.len() <= u32::MAX,
    ensures
        r.0@.len() == target@.len(),
        forall|v: int| 0 <= v < target@.len() ==> #[trigger] r.0@[v] == staying_before(target@, target@[v] as int),
        r.1@ == staying(target@, target@.len() as int),
{
    let n = target.len();
    let mut count: Vec<u32> = Vec::new();
    let mut stay: Vec<u32> = Vec::new();
    let mut v: usize = 0;
    while v < n
        invariant
            v <= n == target@.len() <= u32::MAX,
            count@.len() == v,
            forall|u: int| 0 <= u < v ==> #[trigger] count@[u] == staying_before(target@, u),
            stay@ == staying(target@, v as int),
            stay@.len() == staying_before(target@, v as int),
            stay@.len() <= v,
        decreases n - v,
    {
        proof {
            lemma_staying(target@, v as int);
        }
        count.push(stay.len() as u32);
        if target[v] as usize == v {
            stay.push(v as u32);
        }
        v = v + 1;
    }
    let mut map: Vec<u32> = Vec::new();
    let mut u: usize = 0;
    while u < n
        invariant
            u <= n == target@.len(),
            targets_ok(target@),
            count@.len() == n,
            forall|w: int| 0 <= w < n ==> #[trigger] count@[w] == staying_before(target@, w),
            map@.len() == u,
            forall|w: int| 0 <= w < u ==> #[trigger] map@[w] == staying_before(target@, target@[w] as int),
        decreases n - u,
    {
        let t = target[u] as usize;
        assert(t <= u);
        map.push(count[t]);
        u = u + 1;
    }
    (map, stay)
}


/// What the repair does with a face.
#[derive(Clone, Copy, Debug, PartialEq, Eq, Structural)]
pub enum Fate {
    Kept,
    Degenerate(DegenerateCause),
    Duplicate(u32),
}

/// The inputs of the face fixes: the vertex count, which vertices are finite, the weld targets,
/// the faces, and per face whether its three vertices are exactly collinear before and after
/// welding.
pub struct FaceInputs {
    pub finite: Vec<bool>,
    pub target: Vec<u32>,
    pub tris: Vec<[u32; 3]>,
    pub zero_area: Vec<bool>,
    pub zero_area_welded: Vec<bool>,
    pub groups: Vec<u128>,
}

impl FaceInputs {
    /// One entry per vertex and per face, and weld targets as the welding gives them.
    pub open spec fn wf(&self) -> bool {
        &&& self.target@.len() == self.finite@.len()
        &&& self.target@.len() <= u32::MAX
        &&& targets_ok(self.target@)
        &&& self.zero_area@.len() == self.tris@.len()
        &&& self.zero_area_welded@.len() == self.tris@.len()
        &&& self.groups@.len() == self.tris@.len()
        &&& self.tris@.len() <= u32::MAX
    }

    pub open spec fn nv(&self) -> int {
        self.target@.len() as int
    }

    /// Face `i`'s vertices, each replaced by its weld target.
    pub open spec fn welded(&self, i: int) -> (u32, u32, u32) {
        let t = self.tris@[i];
        (self.target@[t[0] as int], self.target@[t[1] as int], self.target@[t[2] as int])
    }

    /// A vertex index in the output: an in-range vertex's new number ([`staying_before`] of its
    /// target), an index out of range as it is.
    pub open spec fn renum(&self, v: u32) -> u32 {
        if v < self.nv() {
            staying_before(self.target@, self.target@[v as int] as int) as u32
        } else {
            v
        }
    }

    /// Face `i` in the output's numbering.
    pub open spec fn renumbered(&self, i: int) -> (u32, u32, u32) {
        let t = self.tris@[i];
        (self.renum(t[0]), self.renum(t[1]), self.renum(t[2]))
    }

    /// What face `i` alone decides: kept when it cannot be repaired (an index out of range, a
    /// vertex not finite); removed as degenerate (a repeated vertex, zero area, or collapsed by
    /// welding); none when it is a candidate, kept unless it repeats an earlier one.
    pub open spec fn own_fate(&self, i: int) -> Option<Fate> {
        let t = self.tris@[i];
        let w = self.welded(i);
        if !(t[0] < self.nv() && t[1] < self.nv() && t[2] < self.nv()) {
            Some(Fate::Kept)
        } else if !self.finite@[t[0] as int] || !self.finite@[t[1] as int] || !self.finite@[t[2] as int] {
            Some(Fate::Kept)
        } else if t[0] == t[1] || t[1] == t[2] || t[0] == t[2] {
            Some(Fate::Degenerate(DegenerateCause::RepeatedVertex))
        } else if self.zero_area@[i] {
            Some(Fate::Degenerate(DegenerateCause::ZeroArea))
        } else if w.0 == w.1 || w.1 == w.2 || w.0 == w.2 || self.zero_area_welded@[i] {
            Some(Fate::Degenerate(DegenerateCause::CollapsedByWeld))
        } else {
            None
        }
    }

    /// Face `g` is a candidate with face `i`'s three welded vertices.
    pub open spec fn same_welded(&self, g: int, i: int) -> bool {
        self.own_fate(g) is None && sort3(self.welded(g)) == sort3(self.welded(i))
    }

    /// The first candidate from `h` on, before `i`, with `i`'s three welded vertices.
    pub open spec fn first_same(&self, i: int, h: int) -> Option<int>
        decreases i - h,
    {
        if h < 0 || h >= i {
            None
        } else if self.same_welded(h, i) {
            Some(h)
        } else {
            self.first_same(i, h + 1)
        }
    }

    /// What the repair does with face `i`.
    pub open spec fn fate(&self, i: int) -> Fate {
        match self.own_fate(i) {
            Some(f) => f,
            None => match self.first_same(i, 0) {
                Some(g) => Fate::Duplicate(g as u32),
                None => Fate::Kept,
            },
        }
    }

    /// The faces kept among the first `n`, in order.
    pub open spec fn kept_upto(&self, n: int) -> Seq<u32>
        decreases n,
    {
        if n <= 0 {
            seq![]
        } else if self.fate(n - 1) == Fate::Kept {
            self.kept_upto(n - 1).push((n - 1) as u32)
        } else {
            self.kept_upto(n - 1)
        }
    }

    /// The removals among the first `n` faces, in order.
    pub open spec fn changes_upto(&self, n: int) -> Seq<FaceChange>
        decreases n,
    {
        if n <= 0 {
            seq![]
        } else {
            let i = n - 1;
            match self.fate(i) {
                Fate::Kept => self.changes_upto(i),
                Fate::Degenerate(c) => self.changes_upto(i).push(FaceChange::RemoveDegenerateFace { face: i as u32, cause: c }),
                Fate::Duplicate(g) => self.changes_upto(i).push(
                    FaceChange::RemoveDuplicateFace {
                        face: i as u32,
                        duplicate_of: g,
                        same_orientation: spec_same_cycle(self.welded(i), self.welded(g as int)),
                        same_group: self.groups@[i] == self.groups@[g as int],
                    },
                ),
            }
        }
    }
}

/// The faces the repair keeps, renumbered, with their groups and their input indices; each input
/// face's output index; and the removals.
pub struct FaceRepair {
    pub faces: Vec<(u32, u32, u32)>,
    pub groups: Vec<u128>,
    pub kept: Vec<u32>,
    pub face_map: Vec<Option<u32>>,
    pub changes: Vec<FaceChange>,
}

proof fn lemma_first_same(x: FaceInputs, i: int, h: int)
    requires
        0 <= h,
    ensures
        match x.first_same(i, h) {
            Some(g) => h <= g < i && x.same_welded(g, i) && forall|q: int| h <= q < g ==> !#[trigger] x.same_welded(q, i),
            None => forall|q: int| h <= q < i ==> !#[trigger] x.same_welded(q, i),
        },
    decreases i - h,
{
    if h < i && !x.same_welded(h, i) {
        lemma_first_same(x, i, h + 1);
    }
}

proof fn lemma_first_same_is(x: FaceInputs, i: int, g: int, h: int)
    requires
        0 <= h <= g < i,
        x.same_welded(g, i),
        forall|q: int| h <= q < g ==> !#[trigger] x.same_welded(q, i),
    ensures
        x.first_same(i, h) == Some(g),
    decreases g - h,
{
    if h < g {
        lemma_first_same_is(x, i, g, h + 1);
    }
}

/// The face fixes ([`FaceInputs::fate`]): degenerate faces and repeats of an earlier face
/// removed, the others kept in order and renumbered ([`FaceInputs::renumbered`]).
pub fn repair_faces(x: &FaceInputs) -> (r: FaceRepair)
    requires
        x.wf(),
    ensures
        r.kept@ == x.kept_upto(x.tris@.len() as int),
        r.faces@.len() == r.kept@.len(),
        r.groups@.len() == r.kept@.len(),
        forall|k: int|
            0 <= k < r.kept@.len() ==> #[trigger] r.faces@[k] == x.renumbered(r.kept@[k] as int) && r.groups@[k]
                == x.groups@[r.kept@[k] as int],
        r.face_map@.len() == x.tris@.len(),
        forall|i: int|
            0 <= i < x.tris@.len() ==> #[trigger] r.face_map@[i] == if x.fate(i) == Fate::Kept {
                Some(x.kept_upto(i).len() as u32)
            } else {
                None
            },
        r.changes@ == x.changes_upto(x.tris@.len() as int),
{
    let nv = x.target.len();
    let nf = x.tris.len();
    let (map, _) = renumber_vertices(&x.target);
    let mut faces: Vec<(u32, u32, u32)> = Vec::new();
    let mut groups: Vec<u128> = Vec::new();
    let mut kept: Vec<u32> = Vec::new();
    let mut face_map: Vec<Option<u32>> = Vec::new();
    let mut changes: Vec<FaceChange> = Vec::new();
    let mut first: HashMap<u128, u32> = HashMap::new();
    let mut i: usize = 0;
    while i < nf
        invariant
            x.wf(),
            nv == x.nv(),
            nf == x.tris@.len(),
            i <= nf,
            map@.len() == nv,
            forall|v: int| 0 <= v < nv ==> #[trigger] map@[v] == staying_before(x.target@, x.target@[v] as int),
            kept@ == x.kept_upto(i as int),
            kept@.len() <= i,
            faces@.len() == kept@.len(),
            groups@.len() == kept@.len(),
            forall|k: int|
                0 <= k < kept@.len() ==> #[trigger] faces@[k] == x.renumbered(kept@[k] as int) && groups@[k]
                    == x.groups@[kept@[k] as int],
            face_map@.len() == i,
            forall|q: int|
                0 <= q < i ==> #[trigger] face_map@[q] == if x.fate(q) == Fate::Kept {
                    Some(x.kept_upto(q).len() as u32)
                } else {
                    None
                },
            changes@ == x.changes_upto(i as int),
            forall|g: int|
                0 <= g < i && x.own_fate(g) is None && x.first_same(g, 0) is None ==> first@.contains_key(
                    #[trigger] pack3(sort3(x.welded(g))),
                ) && first@[pack3(sort3(x.welded(g)))] == g,
            forall|k: u128|
                #[trigger] first@.contains_key(k) ==> {
                    let g = first@[k] as int;
                    &&& 0 <= g < i
                    &&& x.own_fate(g) is None
                    &&& x.first_same(g, 0) is None
                    &&& pack3(sort3(x.welded(g))) == k
                },
        decreases nf - i,
    {
        let t = x.tris[i];
        let ghost ii = i as int;
        proof {
            lemma_first_same(*x, ii, 0);
        }
        let own: Option<Fate> = if (t[0] as usize) >= nv || (t[1] as usize) >= nv || (t[2] as usize) >= nv {
            Some(Fate::Kept)
        } else if !x.finite[t[0] as usize] || !x.finite[t[1] as usize] || !x.finite[t[2] as usize] {
            Some(Fate::Kept)
        } else if t[0] == t[1] || t[1] == t[2] || t[0] == t[2] {
            Some(Fate::Degenerate(DegenerateCause::RepeatedVertex))
        } else if x.zero_area[i] {
            Some(Fate::Degenerate(DegenerateCause::ZeroArea))
        } else {
            let (a, b, c) = (x.target[t[0] as usize], x.target[t[1] as usize], x.target[t[2] as usize]);
            if a == b || b == c || a == c || x.zero_area_welded[i] {
                Some(Fate::Degenerate(DegenerateCause::CollapsedByWeld))
            } else {
                None
            }
        };
        assert(own == x.own_fate(ii));
        let fate: Fate = match own {
            Some(f) => f,
            None => {
                let w = (x.target[t[0] as usize], x.target[t[1] as usize], x.target[t[2] as usize]);
                let (p, q, s) = sorted3(w);
                let key: u128 = ((p as u128) << 64u128) | ((q as u128) << 32u128) | (s as u128);
                assert(key == pack3(sort3(x.welded(ii))));
                match first.get(&key) {
                    Some(g) => {
                        let g = *g;
                        proof {
                            let gi = g as int;
                            let kg = sort3(x.welded(gi));
                            lemma_pack3(kg.0, kg.1, kg.2, p, q, s);
                            lemma_first_same(*x, gi, 0);
                            assert forall|h: int| 0 <= h < gi implies !#[trigger] x.same_welded(h, ii) by {
                                assert(!x.same_welded(h, gi));
                            }
                            lemma_first_same_is(*x, ii, gi, 0);
                        }
                        Fate::Duplicate(g)
                    },
                    None => {
                        proof {
                            if let Some(g) = x.first_same(ii, 0) {
                                lemma_first_same(*x, g, 0);
                                assert forall|h: int| 0 <= h < g implies !#[trigger] x.same_welded(h, g) by {
                                    assert(!x.same_welded(h, ii));
                                }
                                lemma_first_same(*x, g, 0);
                                assert(first@.contains_key(pack3(sort3(x.welded(g)))));
                                assert(false);
                            }
                        }
                        first.insert(key, i as u32);
                        Fate::Kept
                    },
                }
            },
        };
        assert(fate == x.fate(ii));
        match fate {
            Fate::Kept => {
                let r0 = if (t[0] as usize) < nv { map[t[0] as usize] } else { t[0] };
                let r1 = if (t[1] as usize) < nv { map[t[1] as usize] } else { t[1] };
                let r2 = if (t[2] as usize) < nv { map[t[2] as usize] } else { t[2] };
                face_map.push(Some(kept.len() as u32));
                faces.push((r0, r1, r2));
                groups.push(x.groups[i]);
                kept.push(i as u32);
            },
            Fate::Degenerate(c) => {
                face_map.push(None);
                changes.push(FaceChange::RemoveDegenerateFace { face: i as u32, cause: c });
            },
            Fate::Duplicate(g) => {
                let w = (x.target[t[0] as usize], x.target[t[1] as usize], x.target[t[2] as usize]);
                let tg = x.tris[g as usize];
                proof {
                    assert(x.own_fate(g as int) is None);
                }
                let wg = (x.target[tg[0] as usize], x.target[tg[1] as usize], x.target[tg[2] as usize]);
                face_map.push(None);
                changes.push(
                    FaceChange::RemoveDuplicateFace {
                        face: i as u32,
                        duplicate_of: g,
                        same_orientation: same_cycle(w, wg),
                        same_group: x.groups[i] == x.groups[g as usize],
                    },
                );
            },
        }
        i = i + 1;
    }
    FaceRepair { faces, groups, kept, face_map, changes }
}

/// The face map undoes the kept list: the `k`-th kept face is kept, and `k` faces are kept before
/// it, so its output index is `k`.
pub proof fn lemma_kept_maps_back(x: FaceInputs, n: int, k: int)
    requires
        0 <= n <= u32::MAX,
        0 <= k < x.kept_upto(n).len(),
    ensures
        0 <= x.kept_upto(n)[k] < n,
        x.fate(x.kept_upto(n)[k] as int) == Fate::Kept,
        x.kept_upto(x.kept_upto(n)[k] as int).len() == k,
    decreases n,
{
    if n > 0 {
        if x.fate(n - 1) == Fate::Kept && k == x.kept_upto(n - 1).len() {
            assert(x.kept_upto(n)[k] == (n - 1) as u32);
        } else {
            lemma_kept_maps_back(x, n - 1, k);
            assert(x.kept_upto(n)[k] == x.kept_upto(n - 1)[k]);
        }
    }
}
} // verus!
