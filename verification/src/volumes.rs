//! The volume ids a tetrahedral mesh may carry: TetGen numbers the regions seeded at the fitting
//! zones with their solver ids, and the room's parts from one above the largest seed on.
use vstd::prelude::*;

verus! {

/// The largest of `s` and 0.
pub open spec fn max_seed(s: Seq<i32>) -> int
    decreases s.len(),
{
    if s.len() == 0 {
        0
    } else {
        let m = max_seed(s.drop_last());
        if s.last() > m {
            s.last() as int
        } else {
            m
        }
    }
}

/// `max_seed` bounds every item and is one of them, or 0.
proof fn lemma_max_seed(s: Seq<i32>)
    ensures
        max_seed(s) >= 0,
        forall|i: int| 0 <= i < s.len() ==> s[i] <= max_seed(s),
        max_seed(s) == 0 || exists|i: int| 0 <= i < s.len() && s[i] == max_seed(s),
    decreases s.len(),
{
    if s.len() > 0 {
        lemma_max_seed(s.drop_last());
        assert forall|i: int| 0 <= i < s.len() implies s[i] <= max_seed(s) by {
            if i < s.len() - 1 {
                assert(s[i] == s.drop_last()[i]);
            }
        }
        if max_seed(s.drop_last()) != 0 && s.last() <= max_seed(s.drop_last()) {
            let i = choose|i: int| 0 <= i < s.drop_last().len() && s.drop_last()[i] == max_seed(s.drop_last());
            assert(s[i] == max_seed(s));
        }
        if s.last() > max_seed(s.drop_last()) {
            assert(s[s.len() - 1] == max_seed(s));
        }
    }
}

/// The ids TetGen gives the regions of a mesh: the fitting zones' solver ids, and the room's first
/// id, its further parts carrying the ids above it.
#[derive(Clone, Debug, PartialEq, Eq)]
pub struct VolumeIds {
    /// The room's first id.
    pub room: i32,
    /// The solver ids of the enabled fitting zones.
    pub fittings: Vec<i32>,
}

/// Of the ids `present` (as a mesh carries them, ascending), from position `k` on, those the
/// numbering allows, the room's next part being `next`: a fitting's id, or the room's next part.
pub open spec fn known_from(fittings: Seq<i32>, present: Seq<i32>, k: int, next: i32) -> Seq<i32>
    decreases present.len() - k,
{
    if k < 0 || k >= present.len() {
        seq![]
    } else if fittings.contains(present[k]) {
        seq![present[k]] + known_from(fittings, present, k + 1, next)
    } else if present[k] == next {
        seq![present[k]] + known_from(fittings, present, k + 1, if next == i32::MAX {
            next
        } else {
            (next + 1) as i32
        })
    } else {
        known_from(fittings, present, k + 1, next)
    }
}

impl VolumeIds {
    /// TetGen's numbering for regions seeded with `fittings`: the room starts one above the
    /// largest seed, or at 1 without one.
    pub fn tetgen(fittings: Vec<i32>) -> (r: Self)
        requires
            max_seed(fittings@) < i32::MAX,
        ensures
            r.room == max_seed(fittings@) + 1,
            r.fittings@ == fittings@,
            r.room >= 1,
            forall|i: int| 0 <= i < fittings@.len() ==> fittings@[i] < r.room,
    {
        proof {
            lemma_max_seed(fittings@);
        }
        let mut m: i32 = 0;
        let mut i: usize = 0;
        while i < fittings.len()
            invariant
                i <= fittings@.len(),
                m == max_seed(fittings@.subrange(0, i as int)),
            decreases fittings@.len() - i,
        {
            assert(fittings@.subrange(0, i + 1).drop_last() =~= fittings@.subrange(0, i as int));
            if fittings[i] > m {
                m = fittings[i];
            }
            i = i + 1;
        }
        assert(fittings@.subrange(0, fittings@.len() as int) =~= fittings@);
        VolumeIds { room: m + 1, fittings }
    }

    /// Whether a tetrahedron may carry `id` on its own: a fitting's id, or the room's or above.
    pub fn knows(&self, id: i32) -> (r: bool)
        ensures
            r == (self.fittings@.contains(id) || id >= self.room),
    {
        contains(&self.fittings, id) || id >= self.room
    }

    /// Of the distinct ids a mesh carries (ascending), those TetGen's numbering allows: the
    /// fittings', and the room's parts from `room` up to the first missing number.
    pub fn known_ids(&self, present: &[i32]) -> (r: Vec<i32>)
        ensures
            r@ == known_from(self.fittings@, present@, 0, self.room),
    {
        let mut next = self.room;
        let mut known: Vec<i32> = Vec::new();
        let mut k: usize = 0;
        while k < present.len()
            invariant
                k <= present@.len(),
                known@ + known_from(self.fittings@, present@, k as int, next) == known_from(
                    self.fittings@,
                    present@,
                    0,
                    self.room,
                ),
            decreases present@.len() - k,
        {
            let id = present[k];
            let ghost before = known@;
            if contains(&self.fittings, id) {
                known.push(id);
                assert(before + known_from(self.fittings@, present@, k as int, next) =~= known@ + known_from(
                    self.fittings@,
                    present@,
                    k + 1,
                    next,
                ));
            } else if id == next {
                known.push(id);
                let ghost old_next = next;
                next = if next < i32::MAX {
                    next + 1
                } else {
                    next
                };
                assert(before + known_from(self.fittings@, present@, k as int, old_next) =~= known@ + known_from(
                    self.fittings@,
                    present@,
                    k + 1,
                    next,
                ));
            }
            k = k + 1;
        }
        assert(known@ + seq![] =~= known@);
        known
    }
}

impl Default for VolumeIds {
    /// A mesh without fitting zones: room 1.
    fn default() -> (r: Self)
        ensures
            r.room == 1,
            r.fittings@ == Seq::<i32>::empty(),
    {
        VolumeIds::tetgen(Vec::new())
    }
}

/// Whether `v` holds `x`.
pub(crate) fn contains(v: &Vec<i32>, x: i32) -> (r: bool)
    ensures
        r == v@.contains(x),
{
    let mut i: usize = 0;
    while i < v.len()
        invariant
            i <= v@.len(),
            forall|j: int| 0 <= j < i ==> v@[j] != x,
        decreases v@.len() - i,
    {
        if v[i] == x {
            assert(v@[i as int] == x);
            return true;
        }
        i = i + 1;
    }
    false
}

} // verus!
