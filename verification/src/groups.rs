//! The surface groups of a project import: each face's key (its material group, its scene
//! receiver and its fitting zones), the distinct keys in ascending order, each face's group among
//! them, and each group's name.
//!
//! A key orders by material group (no group, [`NO_GROUP`], last), then by receiver stored plus
//! one (no receiver, 0, first), then by the zones' list, shorter first where one starts the
//! other, as a tuple `(usize, usize, Vec<usize>)` orders.
use vstd::prelude::*;
use vstd::slice::slice_subrange;

verus! {

/// The group index of a face that no material group lists.
pub const NO_GROUP: usize = usize::MAX;

/// What each face is tagged with: its material group, its scene receiver and the fitting zones
/// that list it (ascending).
pub struct FaceTags {
    pub group: Vec<Option<usize>>,
    pub receiver: Vec<Option<usize>>,
    pub zones: Vec<Vec<usize>>,
}

impl FaceTags {
    /// One entry per face in each list.
    pub open spec fn wf(&self) -> bool {
        &&& self.receiver@.len() == self.group@.len()
        &&& self.zones@.len() == self.group@.len()
    }

    /// How many faces.
    pub open spec fn faces(&self) -> nat {
        self.group@.len()
    }

    /// Face `f`'s key: its group ([`NO_GROUP`] for none), its receiver plus one (wrapping, so
    /// that none is 0), its zones.
    pub open spec fn key(&self, f: int) -> (usize, usize, Seq<usize>) {
        (
            match self.group@[f] {
                Some(g) => g,
                None => NO_GROUP,
            },
            match self.receiver@[f] {
                Some(r) => if r == usize::MAX {
                    0usize
                } else {
                    (r + 1) as usize
                },
                None => 0usize,
            },
            self.zones@[f]@,
        )
    }
}

/// Lexicographic order of `usize` lists: a list that starts another comes first.
pub open spec fn seq_lt(a: Seq<usize>, b: Seq<usize>) -> bool
    decreases a.len(),
{
    if a.len() == 0 {
        b.len() > 0
    } else if b.len() == 0 {
        false
    } else if a[0] != b[0] {
        a[0] < b[0]
    } else {
        seq_lt(a.drop_first(), b.drop_first())
    }
}

/// The order of keys: by group, then receiver, then zones.
pub open spec fn key_lt(a: (usize, usize, Seq<usize>), b: (usize, usize, Seq<usize>)) -> bool {
    a.0 < b.0 || (a.0 == b.0 && (a.1 < b.1 || (a.1 == b.1 && seq_lt(a.2, b.2))))
}

/// The order of `usize` lists is a strict total order.
pub proof fn lemma_seq_order(a: Seq<usize>, b: Seq<usize>, c: Seq<usize>)
    ensures
        !seq_lt(a, a),
        seq_lt(a, b) ==> !seq_lt(b, a),
        a != b ==> seq_lt(a, b) || seq_lt(b, a),
        seq_lt(a, b) && seq_lt(b, c) ==> seq_lt(a, c),
    decreases a.len(),
{
    if a.len() > 0 {
        lemma_seq_order(a.drop_first(), a.drop_first(), a.drop_first());
        if b.len() > 0 {
            if c.len() > 0 {
                lemma_seq_order(a.drop_first(), b.drop_first(), c.drop_first());
            } else {
                lemma_seq_order(a.drop_first(), b.drop_first(), b.drop_first());
            }
            if a != b && a[0] == b[0] {
                assert(a.drop_first() != b.drop_first()) by {
                    if a.drop_first() == b.drop_first() {
                        assert(a =~= seq![a[0]] + a.drop_first());
                        assert(b =~= seq![b[0]] + b.drop_first());
                    }
                }
            }
        }
    } else {
        if b.len() == 0 {
            assert(a =~= b);
        }
    }
}

/// The order of keys is a strict total order.
pub proof fn lemma_key_order(
    a: (usize, usize, Seq<usize>),
    b: (usize, usize, Seq<usize>),
    c: (usize, usize, Seq<usize>),
)
    ensures
        !key_lt(a, a),
        key_lt(a, b) ==> !key_lt(b, a),
        a != b ==> key_lt(a, b) || key_lt(b, a),
        key_lt(a, b) && key_lt(b, c) ==> key_lt(a, c),
{
    lemma_seq_order(a.2, b.2, c.2);
    lemma_seq_order(a.2, a.2, a.2);
}

/// Compares two `usize` lists: -1, 0 or 1 as `a` comes before, equals or comes after `b`.
fn compare_lists(a: &Vec<usize>, b: &Vec<usize>) -> (r: i8)
    ensures
        r == -1 <==> seq_lt(a@, b@),
        r == 0 <==> a@ == b@,
        r == 1 <==> seq_lt(b@, a@),
        r == -1 || r == 0 || r == 1,
{
    proof {
        lemma_seq_order(a@, b@, a@);
    }
    let mut i: usize = 0;
    assert(a@.subrange(0, a@.len() as int) =~= a@);
    assert(b@.subrange(0, b@.len() as int) =~= b@);
    while i < a.len() && i < b.len()
        invariant
            i <= a@.len(),
            i <= b@.len(),
            a@.subrange(0, i as int) == b@.subrange(0, i as int),
            seq_lt(a@, b@) == seq_lt(a@.subrange(i as int, a@.len() as int), b@.subrange(i as int, b@.len() as int)),
            seq_lt(b@, a@) == seq_lt(b@.subrange(i as int, b@.len() as int), a@.subrange(i as int, a@.len() as int)),
        decreases a@.len() - i,
    {
        let ghost ta = a@.subrange(i as int, a@.len() as int);
        let ghost tb = b@.subrange(i as int, b@.len() as int);
        if a[i] < b[i] {
            assert(ta[0] == a@[i as int] && tb[0] == b@[i as int]);
            assert(a@ != b@) by {
                if a@ == b@ {
                    assert(a@[i as int] == b@[i as int]);
                }
            }
            return -1;
        }
        if a[i] > b[i] {
            assert(ta[0] == a@[i as int] && tb[0] == b@[i as int]);
            assert(a@ != b@) by {
                if a@ == b@ {
                    assert(a@[i as int] == b@[i as int]);
                }
            }
            return 1;
        }
        assert(ta.drop_first() =~= a@.subrange(i + 1, a@.len() as int));
        assert(tb.drop_first() =~= b@.subrange(i + 1, b@.len() as int));
        assert(a@.subrange(0, i + 1) =~= a@.subrange(0, i as int).push(a@[i as int]));
        assert(b@.subrange(0, i + 1) =~= b@.subrange(0, i as int).push(b@[i as int]));
        i = i + 1;
    }
    let ghost ta = a@.subrange(i as int, a@.len() as int);
    let ghost tb = b@.subrange(i as int, b@.len() as int);
    if a.len() == b.len() {
        assert(a@ =~= a@.subrange(0, i as int));
        assert(b@ =~= b@.subrange(0, i as int));
        0
    } else if a.len() < b.len() {
        assert(ta.len() == 0 && tb.len() > 0);
        assert(a@ != b@);
        -1
    } else {
        assert(tb.len() == 0 && ta.len() > 0);
        assert(a@ != b@);
        1
    }
}

impl FaceTags {
    /// Compares the keys of faces `f` and `g`: -1, 0 or 1 ([`key_lt`]).
    fn compare(&self, f: usize, g: usize) -> (r: i8)
        requires
            self.wf(),
            f < self.faces(),
            g < self.faces(),
        ensures
            r == -1 <==> key_lt(self.key(f as int), self.key(g as int)),
            r == 0 <==> self.key(f as int) == self.key(g as int),
            r == 1 <==> key_lt(self.key(g as int), self.key(f as int)),
    {
        let ka = self.key_parts(f);
        let kb = self.key_parts(g);
        proof {
            lemma_key_order(self.key(f as int), self.key(g as int), self.key(f as int));
        }
        if ka.0 < kb.0 {
            -1
        } else if ka.0 > kb.0 {
            1
        } else if ka.1 < kb.1 {
            -1
        } else if ka.1 > kb.1 {
            1
        } else {
            compare_lists(&self.zones[f], &self.zones[g])
        }
    }

    /// The group and receiver parts of face `f`'s key.
    fn key_parts(&self, f: usize) -> (r: (usize, usize))
        requires
            self.wf(),
            f < self.faces(),
        ensures
            r.0 == self.key(f as int).0,
            r.1 == self.key(f as int).1,
    {
        let g = match self.group[f] {
            Some(g) => g,
            None => NO_GROUP,
        };
        let r = match self.receiver[f] {
            Some(r) => r.wrapping_add(1),
            None => 0usize.wrapping_add(0),
        };
        (g, r)
    }
}


/// The keys of the faces `idx` lists rise strictly.
pub open spec fn ascending(t: FaceTags, idx: Seq<usize>) -> bool {
    forall|p: int, q: int| 0 <= p < q < idx.len() ==> key_lt(t.key(#[trigger] idx[p] as int), t.key(#[trigger] idx[q] as int))
}

/// One of the first `n` faces that `idx` lists has key `k`.
pub open spec fn has_key(t: FaceTags, idx: Seq<usize>, n: int, k: (usize, usize, Seq<usize>)) -> bool {
    exists|p: int| 0 <= p < n && #[trigger] t.key(idx[p] as int) == k
}

/// Every face `idx` lists is a face.
pub open spec fn all_faces(t: FaceTags, idx: Seq<usize>) -> bool {
    forall|p: int| 0 <= p < idx.len() ==> #[trigger] idx[p] < t.faces()
}

/// Pushing a face whose key is above every listed key keeps the list ascending.
proof fn lemma_push_ascending(t: FaceTags, out: Seq<usize>, x: usize)
    requires
        ascending(t, out),
        out.len() > 0 ==> key_lt(t.key(out.last() as int), t.key(x as int)),
    ensures
        ascending(t, out.push(x)),
{
    let o2 = out.push(x);
    assert forall|p: int, q: int| 0 <= p < q < o2.len() implies key_lt(t.key(#[trigger] o2[p] as int), t.key(#[trigger] o2[q] as int)) by {
        if q == out.len() {
            if p < out.len() - 1 {
                assert(key_lt(t.key(out[p] as int), t.key(out[out.len() - 1] as int)));
                lemma_key_order(t.key(out[p] as int), t.key(out.last() as int), t.key(x as int));
            }
        } else {
            assert(o2[p] == out[p] && o2[q] == out[q]);
        }
    }
}

/// The faces of two key-ascending lists, one per distinct key, key-ascending.
fn merge(t: &FaceTags, a: &Vec<usize>, b: &Vec<usize>) -> (r: Vec<usize>)
    requires
        t.wf(),
        ascending(*t, a@),
        ascending(*t, b@),
        all_faces(*t, a@),
        all_faces(*t, b@),
    ensures
        ascending(*t, r@),
        all_faces(*t, r@),
        forall|k: (usize, usize, Seq<usize>)|
            has_key(*t, r@, r@.len() as int, k) <==> (has_key(*t, a@, a@.len() as int, k) || has_key(
                *t,
                b@,
                b@.len() as int,
                k,
            )),
{
    let mut out: Vec<usize> = Vec::new();
    let mut i: usize = 0;
    let mut j: usize = 0;
    while i < a.len() || j < b.len()
        invariant
            t.wf(),
            ascending(*t, a@),
            ascending(*t, b@),
            all_faces(*t, a@),
            all_faces(*t, b@),
            i <= a@.len(),
            j <= b@.len(),
            ascending(*t, out@),
            all_faces(*t, out@),
            out@.len() > 0 && i < a@.len() ==> key_lt(t.key(out@.last() as int), t.key(a@[i as int] as int)),
            out@.len() > 0 && j < b@.len() ==> key_lt(t.key(out@.last() as int), t.key(b@[j as int] as int)),
            forall|k: (usize, usize, Seq<usize>)|
                has_key(*t, out@, out@.len() as int, k) <==> (has_key(*t, a@, i as int, k) || has_key(
                    *t,
                    b@,
                    j as int,
                    k,
                )),
        decreases a@.len() + b@.len() - i - j,
    {
        let ghost o0 = out@;
        let ghost (i0, j0) = (i as int, j as int);
        let take_a: bool;
        let take_b: bool;
        if i == a.len() {
            take_a = false;
            take_b = true;
        } else if j == b.len() {
            take_a = true;
            take_b = false;
        } else {
            let c = t.compare(a[i], b[j]);
            take_a = c <= 0;
            take_b = c >= 0;
        }
        let x = if take_a {
            a[i]
        } else {
            b[j]
        };
        proof {
            lemma_push_ascending(*t, o0, x);
            if take_a && take_b {
                assert(t.key(a@[i0] as int) == t.key(b@[j0] as int));
            }
        }
        out.push(x);
        if take_a {
            i = i + 1;
        }
        if take_b {
            j = j + 1;
        }
        proof {
            let kx = t.key(x as int);
            assert(out@ == o0.push(x));
            assert(out@.last() == x);
            if i < a@.len() {
                if take_a {
                    assert(key_lt(t.key(a@[i0] as int), t.key(a@[i as int] as int)));
                } else {
                    lemma_key_order(t.key(b@[j0] as int), t.key(a@[i0] as int), t.key(a@[i0] as int));
                    assert(key_lt(kx, t.key(a@[i as int] as int)));
                }
            }
            if j < b@.len() {
                if take_b {
                    assert(key_lt(t.key(b@[j0] as int), t.key(b@[j as int] as int)));
                } else {
                    lemma_key_order(t.key(a@[i0] as int), t.key(b@[j0] as int), t.key(b@[j0] as int));
                    assert(key_lt(kx, t.key(b@[j as int] as int)));
                }
            }
            assert forall|k: (usize, usize, Seq<usize>)|
                has_key(*t, out@, out@.len() as int, k) <==> (has_key(*t, a@, i as int, k) || has_key(
                    *t,
                    b@,
                    j as int,
                    k,
                )) by {
                if has_key(*t, out@, out@.len() as int, k) {
                    let p = choose|p: int| 0 <= p < out@.len() && #[trigger] t.key(out@[p] as int) == k;
                    if p < o0.len() {
                        assert(out@[p] == o0[p]);
                        assert(has_key(*t, o0, o0.len() as int, k));
                        if has_key(*t, a@, i0, k) {
                            let q = choose|q: int| 0 <= q < i0 && #[trigger] t.key(a@[q] as int) == k;
                            assert(0 <= q < i);
                        } else {
                            let q = choose|q: int| 0 <= q < j0 && #[trigger] t.key(b@[q] as int) == k;
                            assert(0 <= q < j);
                        }
                    } else if take_a {
                        assert(t.key(a@[i0] as int) == k);
                    } else {
                        assert(t.key(b@[j0] as int) == k);
                    }
                }
                if has_key(*t, a@, i as int, k) {
                    let q = choose|q: int| 0 <= q < i && #[trigger] t.key(a@[q] as int) == k;
                    if q < i0 {
                        assert(has_key(*t, a@, i0, k));
                        let p = choose|p: int| 0 <= p < o0.len() && #[trigger] t.key(o0[p] as int) == k;
                        assert(out@[p] == o0[p]);
                    } else {
                        assert(t.key(out@[o0.len() as int] as int) == k);
                    }
                }
                if has_key(*t, b@, j as int, k) {
                    let q = choose|q: int| 0 <= q < j && #[trigger] t.key(b@[q] as int) == k;
                    if q < j0 {
                        assert(has_key(*t, b@, j0, k));
                        let p = choose|p: int| 0 <= p < o0.len() && #[trigger] t.key(o0[p] as int) == k;
                        assert(out@[p] == o0[p]);
                    } else {
                        assert(t.key(out@[o0.len() as int] as int) == k);
                    }
                }
            }
        }
    }
    out
}

/// The faces `fs` lists, one per distinct key, key-ascending.
fn sort_faces(t: &FaceTags, fs: &[usize]) -> (r: Vec<usize>)
    requires
        t.wf(),
        all_faces(*t, fs@),
    ensures
        ascending(*t, r@),
        all_faces(*t, r@),
        forall|k: (usize, usize, Seq<usize>)|
            has_key(*t, r@, r@.len() as int, k) <==> has_key(*t, fs@, fs@.len() as int, k),
    decreases fs@.len(),
{
    if fs.len() <= 1 {
        let mut out: Vec<usize> = Vec::new();
        if fs.len() == 1 {
            out.push(fs[0]);
        }
        proof {
            assert forall|k: (usize, usize, Seq<usize>)|
                has_key(*t, out@, out@.len() as int, k) <==> has_key(*t, fs@, fs@.len() as int, k) by {
                if has_key(*t, out@, out@.len() as int, k) {
                    assert(t.key(fs@[0] as int) == k);
                }
                if has_key(*t, fs@, fs@.len() as int, k) {
                    assert(t.key(out@[0] as int) == k);
                }
            }
        }
        return out;
    }
    let mid = fs.len() / 2;
    let left = slice_subrange(fs, 0, mid);
    let right = slice_subrange(fs, mid, fs.len());
    let a = sort_faces(t, left);
    let b = sort_faces(t, right);
    let r = merge(t, &a, &b);
    proof {
        assert forall|k: (usize, usize, Seq<usize>)|
            has_key(*t, fs@, fs@.len() as int, k) <==> (has_key(*t, left@, left@.len() as int, k) || has_key(
                *t,
                right@,
                right@.len() as int,
                k,
            )) by {
            if has_key(*t, fs@, fs@.len() as int, k) {
                let p = choose|p: int| 0 <= p < fs@.len() && #[trigger] t.key(fs@[p] as int) == k;
                if p < mid {
                    assert(left@[p] == fs@[p]);
                } else {
                    assert(right@[p - mid] == fs@[p]);
                }
            }
            if has_key(*t, left@, left@.len() as int, k) {
                let p = choose|p: int| 0 <= p < left@.len() && #[trigger] t.key(left@[p] as int) == k;
                assert(left@[p] == fs@[p]);
            }
            if has_key(*t, right@, right@.len() as int, k) {
                let p = choose|p: int| 0 <= p < right@.len() && #[trigger] t.key(right@[p] as int) == k;
                assert(right@[p] == fs@[p + mid]);
            }
        }
    }
    r
}

/// The distinct keys of the faces, as one face of each, key-ascending: each becomes one surface
/// group, in this order.
pub fn distinct_keys(t: &FaceTags) -> (r: Vec<usize>)
    requires
        t.wf(),
    ensures
        ascending(*t, r@),
        all_faces(*t, r@),
        forall|f: int| 0 <= f < t.faces() ==> has_key(*t, r@, r@.len() as int, #[trigger] t.key(f)),
        forall|p: int| 0 <= p < r@.len() ==> #[trigger] r@[p] < t.faces(),
{
    let n = t.group.len();
    let mut all: Vec<usize> = Vec::new();
    let mut f: usize = 0;
    while f < n
        invariant
            f <= n == t.faces(),
            all@.len() == f,
            forall|p: int| 0 <= p < f ==> #[trigger] all@[p] == p,
        decreases n - f,
    {
        all.push(f);
        f = f + 1;
    }
    let r = sort_faces(t, all.as_slice());
    proof {
        assert forall|f: int| 0 <= f < t.faces() implies has_key(*t, r@, r@.len() as int, #[trigger] t.key(f)) by {
            assert(t.key(all@[f] as int) == t.key(f));
            assert(has_key(*t, all@, all@.len() as int, t.key(f)));
        }
    }
    r
}

/// Which of the distinct keys ([`distinct_keys`]) is face `f`'s: its surface group.
pub fn group_of(t: &FaceTags, keys: &Vec<usize>, f: usize) -> (r: usize)
    requires
        t.wf(),
        ascending(*t, keys@),
        all_faces(*t, keys@),
        f < t.faces(),
        has_key(*t, keys@, keys@.len() as int, t.key(f as int)),
    ensures
        r < keys@.len(),
        t.key(keys@[r as int] as int) == t.key(f as int),
{
    let ghost kf = t.key(f as int);
    let ghost p0 = choose|p: int| 0 <= p < keys@.len() && #[trigger] t.key(keys@[p] as int) == kf;
    let mut lo: usize = 0;
    let mut hi: usize = keys.len();
    while lo + 1 < hi
        invariant
            t.wf(),
            ascending(*t, keys@),
            all_faces(*t, keys@),
            f < t.faces(),
            kf == t.key(f as int),
            0 <= p0 < keys@.len(),
            t.key(keys@[p0] as int) == kf,
            lo <= p0 < hi <= keys@.len(),
        decreases hi - lo,
    {
        let mid = lo + (hi - lo) / 2;
        let c = t.compare(keys[mid], f);
        if c == 1 {
            proof {
                if p0 >= mid {
                    if p0 > mid {
                        assert(key_lt(t.key(keys@[mid as int] as int), t.key(keys@[p0] as int)));
                    }
                    lemma_key_order(kf, t.key(keys@[mid as int] as int), kf);
                }
            }
            hi = mid;
        } else {
            proof {
                if p0 < mid {
                    assert(key_lt(t.key(keys@[p0] as int), t.key(keys@[mid as int] as int)));
                    lemma_key_order(kf, t.key(keys@[mid as int] as int), kf);
                }
            }
            lo = mid;
        }
    }
    lo
}

/// Another distinct key has key `p`'s group and another receiver.
pub open spec fn split_by_receiver(t: FaceTags, keys: Seq<usize>, p: int) -> bool {
    exists|q: int|
        0 <= q < keys.len() && t.key(#[trigger] keys[q] as int).0 == t.key(keys[p] as int).0 && t.key(
            keys[q] as int,
        ).1 != t.key(keys[p] as int).1
}

/// Another distinct key has key `p`'s group and other zones.
pub open spec fn split_by_zone(t: FaceTags, keys: Seq<usize>, p: int) -> bool {
    exists|q: int|
        0 <= q < keys.len() && t.key(#[trigger] keys[q] as int).0 == t.key(keys[p] as int).0 && t.key(
            keys[q] as int,
        ).2 != t.key(keys[p] as int).2
}

/// The names of `zones`, joined by ` + `.
pub open spec fn joined(zones: Seq<usize>, names: Seq<String>) -> Seq<char>
    decreases zones.len(),
{
    if zones.len() == 0 {
        seq![]
    } else if zones.len() == 1 {
        names[zones[0] as int]@
    } else {
        joined(zones.drop_last(), names) + " + "@ + names[zones.last() as int]@
    }
}

/// The name of surface group `p`: its material group's name (`(no surface group)` for none);
/// then ` / ` and its scene receiver's name, when receivers split the material group; then
/// ` / ` and its zones' names joined by ` + `, when zones split it and it has zones.
pub open spec fn spec_group_name(
    t: FaceTags,
    keys: Seq<usize>,
    p: int,
    group_names: Seq<String>,
    receiver_names: Seq<Option<String>>,
    zone_names: Seq<String>,
) -> Seq<char> {
    let (g, r1, z) = t.key(keys[p] as int);
    let base = if g == NO_GROUP {
        "(no surface group)"@
    } else {
        group_names[g as int]@
    };
    let with_receiver = if split_by_receiver(t, keys, p) && 1 <= r1 && r1 - 1 < receiver_names.len()
        && receiver_names[r1 - 1] is Some {
        base + " / "@ + receiver_names[r1 - 1]->0@
    } else {
        base
    };
    if split_by_zone(t, keys, p) && z.len() > 0 {
        with_receiver + " / "@ + joined(z, zone_names)
    } else {
        with_receiver
    }
}

/// The name of surface group `p` ([`spec_group_name`]), from the names of the material groups,
/// of the receivers (`None` for a cutting plane) and of the zones.
pub fn group_name(
    t: &FaceTags,
    keys: &Vec<usize>,
    p: usize,
    group_names: &Vec<String>,
    receiver_names: &Vec<Option<String>>,
    zone_names: &Vec<String>,
) -> (r: String)
    requires
        t.wf(),
        all_faces(*t, keys@),
        p < keys@.len(),
        t.key(keys@[p as int] as int).0 != NO_GROUP ==> t.key(keys@[p as int] as int).0 < group_names@.len(),
        forall|q: int|
            0 <= q < t.key(keys@[p as int] as int).2.len() ==> #[trigger] t.key(keys@[p as int] as int).2[q]
                < zone_names@.len(),
    ensures
        r@ == spec_group_name(*t, keys@, p as int, group_names@, receiver_names@, zone_names@),
{
    let f = keys[p];
    let (g, r1) = t.key_parts(f);
    let z = &t.zones[f];
    let mut by_receiver = false;
    let mut by_zone = false;
    let mut q: usize = 0;
    while q < keys.len()
        invariant
            t.wf(),
            all_faces(*t, keys@),
            q <= keys@.len(),
            f == keys@[p as int],
            f < t.faces(),
            g == t.key(f as int).0,
            r1 == t.key(f as int).1,
            z@ == t.key(f as int).2,
            by_receiver <==> exists|q2: int|
                0 <= q2 < q && t.key(#[trigger] keys@[q2] as int).0 == g && t.key(keys@[q2] as int).1 != r1,
            by_zone <==> exists|q2: int|
                0 <= q2 < q && t.key(#[trigger] keys@[q2] as int).0 == g && t.key(keys@[q2] as int).2 != z@,
        decreases keys@.len() - q,
    {
        let (g2, r2) = t.key_parts(keys[q]);
        if g2 == g {
            if r2 != r1 {
                by_receiver = true;
            }
            if compare_lists(&t.zones[keys[q]], z) != 0 {
                by_zone = true;
            }
        }
        q = q + 1;
    }
    let mut name = String::new();
    if g == NO_GROUP {
        name.append("(no surface group)");
    } else {
        name.append(group_names[g].as_str());
    }
    if by_receiver && r1 >= 1 && r1 - 1 < receiver_names.len() {
        match &receiver_names[r1 - 1] {
            Some(rn) => {
                name.append(" / ");
                name.append(rn.as_str());
            },
            None => {},
        }
    }
    if by_zone && z.len() > 0 {
        name.append(" / ");
        let mut k: usize = 0;
        let ghost head = name@;
        while k < z.len()
            invariant
                k <= z@.len(),
                forall|q2: int| 0 <= q2 < z@.len() ==> #[trigger] z@[q2] < zone_names@.len(),
                name@ == head + joined(z@.subrange(0, k as int), zone_names@),
            decreases z@.len() - k,
        {
            if k > 0 {
                name.append(" + ");
            }
            name.append(zone_names[z[k]].as_str());
            proof {
                let s1 = z@.subrange(0, k + 1);
                assert(s1.drop_last() =~= z@.subrange(0, k as int));
                assert(s1.last() == z@[k as int]);
                if k == 0 {
                    assert(z@.subrange(0, 0).len() == 0);
                }
            }
            k = k + 1;
        }
        assert(z@.subrange(0, z@.len() as int) =~= z@);
    }
    name
}

/// Each face is in exactly one surface group: distinct keys in ascending order hold no key twice.
pub proof fn lemma_one_group(t: FaceTags, keys: Seq<usize>, p: int, q: int)
    requires
        ascending(t, keys),
        0 <= p < keys.len(),
        0 <= q < keys.len(),
        t.key(keys[p] as int) == t.key(keys[q] as int),
    ensures
        p == q,
{
    lemma_key_order(t.key(keys[p] as int), t.key(keys[p] as int), t.key(keys[p] as int));
    if p < q {
        assert(key_lt(t.key(keys[p] as int), t.key(keys[q] as int)));
    } else if q < p {
        assert(key_lt(t.key(keys[q] as int), t.key(keys[p] as int)));
    }
}

/// A surface receiver's shape: the groups of the scene it covers, or a cutting plane, which
/// covers none.
pub enum ReceiverShape {
    Scene(Vec<u128>),
    CuttingPlane,
}

/// The groups a receiver of this shape covers.
pub open spec fn cover_of(s: ReceiverShape) -> Seq<u128> {
    match s {
        ReceiverShape::Scene(gs) => gs@,
        ReceiverShape::CuttingPlane => seq![],
    }
}

/// Some enabled receiver covers group `g`: each receiver is whether it is enabled and its
/// shape.
pub open spec fn covered(receivers: Seq<(bool, ReceiverShape)>, g: u128) -> bool {
    exists|k: int| 0 <= k < receivers.len() && receivers[k].0 && #[trigger] cover_of(receivers[k].1).contains(g)
}

/// The faces among the first `n` whose group an enabled receiver covers, in face order.
pub open spec fn refined_upto(face_groups: Seq<u128>, receivers: Seq<(bool, ReceiverShape)>, n: int) -> Seq<u32>
    decreases n,
{
    if n <= 0 {
        seq![]
    } else if covered(receivers, face_groups[n - 1]) {
        refined_upto(face_groups, receivers, n - 1).push((n - 1) as u32)
    } else {
        refined_upto(face_groups, receivers, n - 1)
    }
}

/// The faces a facet-area constraint applies to: every face whose group an enabled scene surface
/// receiver covers, in face order ([`refined_upto`]), from each face's group and each receiver.
pub fn refined_faces(face_groups: &Vec<u128>, receivers: &Vec<(bool, ReceiverShape)>) -> (r: Vec<u32>)
    requires
        face_groups@.len() <= u32::MAX + 1,
    ensures
        r@ == refined_upto(face_groups@, receivers@, face_groups@.len() as int),
{
    let mut out: Vec<u32> = Vec::new();
    let mut f: usize = 0;
    while f < face_groups.len()
        invariant
            f <= face_groups@.len() <= u32::MAX + 1,
            out@ == refined_upto(face_groups@, receivers@, f as int),
        decreases face_groups@.len() - f,
    {
        let g = face_groups[f];
        let mut hit = false;
        let mut k: usize = 0;
        while k < receivers.len()
            invariant
                k <= receivers@.len(),
                hit == exists|k2: int| 0 <= k2 < k && receivers@[k2].0 && #[trigger] cover_of(receivers@[k2].1).contains(g),
            decreases receivers@.len() - k,
        {
            if receivers[k].0 {
                match &receivers[k].1 {
                    ReceiverShape::Scene(gs) => {
                        let mut j: usize = 0;
                        let mut found = false;
                        while j < gs.len()
                            invariant
                                j <= gs@.len(),
                                found == exists|q: int| 0 <= q < j && gs@[q] == g,
                            decreases gs@.len() - j,
                        {
                            if gs[j] == g {
                                found = true;
                            }
                            j = j + 1;
                        }
                        assert(found == gs@.contains(g));
                        assert(cover_of(receivers@[k as int].1) == gs@);
                        if found {
                            hit = true;
                        }
                    },
                    ReceiverShape::CuttingPlane => {
                        assert(cover_of(receivers@[k as int].1).len() == 0);
                    },
                }
            }
            proof {
                if hit != exists|k2: int| 0 <= k2 < k + 1 && receivers@[k2].0 && #[trigger] cover_of(receivers@[k2].1).contains(g) {
                    if hit {
                        if !(receivers@[k as int].0 && cover_of(receivers@[k as int].1).contains(g)) {
                            let k2 = choose|k2: int| 0 <= k2 < k && receivers@[k2].0 && #[trigger] cover_of(receivers@[k2].1).contains(g);
                            assert(k2 < k + 1);
                        }
                    } else {
                        let k2 = choose|k2: int| 0 <= k2 < k + 1 && receivers@[k2].0 && #[trigger] cover_of(receivers@[k2].1).contains(g);
                        if k2 < k {
                            assert(exists|k3: int| 0 <= k3 < k && receivers@[k3].0 && #[trigger] cover_of(receivers@[k3].1).contains(g));
                        }
                    }
                }
            }
            k = k + 1;
        }
        if hit {
            out.push(f as u32);
        }
        f = f + 1;
    }
    out
}
} // verus!
