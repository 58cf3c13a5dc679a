//! I-Simpa's load order for an element's children: `SortChildrensByProperty(node, "wxid")`,
//! quirks included.
//!
//! Each child comes with its `wxid` attribute, if it has one. A pass compares every child, in
//! turn, with the id the **first** child had when the pass began, never with its neighbour's, and
//! moves every child whose id is smaller one place towards the front. Passes repeat until one
//! moves nothing. Ids are read with `wxString::ToLong` ([`crate::proj::to_long`]) from one
//! buffer: a child without a `wxid` leaves the buffer as it was, so it counts with the last id
//! read, the previous pass's included. Nothing is sorted when the first child's id does not read.
use crate::proj::{spec_to_long, to_long};
use vstd::prelude::*;

verus! {

broadcast use {vstd::seq_lib::group_to_multiset_ensures, vstd::multiset::group_multiset_axioms};

/// The id a child's own `wxid` reads as: `None` without one or when it does not read.
pub open spec fn own<T>(it: (Option<String>, T)) -> Option<i64> {
    match it.0 {
        Some(s) => spec_to_long(vstd::utf8::encode_utf8(s@)),
        None => None,
    }
}

/// The buffer after reading child `it`: its own id's reading, or the buffer unchanged when it has
/// no `wxid`.
pub open spec fn read<T>(b: Option<i64>, it: (Option<String>, T)) -> Option<i64> {
    match it.0 {
        Some(s) => spec_to_long(vstd::utf8::encode_utf8(s@)),
        None => b,
    }
}

/// The buffer once a pass starting with buffer `b` has read children `0..=j`.
pub open spec fn buf_at<T>(s: Seq<(Option<String>, T)>, b: Option<i64>, j: int) -> Option<i64>
    decreases j,
{
    if j <= 0 {
        read(b, s[0])
    } else {
        read(buf_at(s, b, j - 1), s[j])
    }
}

/// The id a pass compares with: the first child's, read into the buffer.
pub open spec fn pivot<T>(s: Seq<(Option<String>, T)>, b: Option<i64>) -> Option<i64> {
    buf_at(s, b, 0)
}

/// Child `j` moves one place forward in the pass: what the buffer holds once it is read is
/// below the pivot.
pub open spec fn mv<T>(s: Seq<(Option<String>, T)>, b: Option<i64>, j: int) -> bool {
    &&& 1 <= j < s.len()
    &&& pivot(s, b) is Some
    &&& buf_at(s, b, j) is Some
    &&& buf_at(s, b, j).unwrap() < pivot(s, b).unwrap()
}

/// The child the pass holds at position `k` once it has examined `k`: the last one up to `k`
/// that did not move (the first one counts as not moving).
pub open spec fn held<T>(s: Seq<(Option<String>, T)>, b: Option<i64>, k: int) -> int
    decreases k,
{
    if k <= 0 || !mv(s, b, k) {
        k
    } else {
        held(s, b, k - 1)
    }
}

/// The children after one pass: position `k` gets child `k + 1` when that one moves, else the
/// child the pass held there.
pub open spec fn pass_out<T>(s: Seq<(Option<String>, T)>, b: Option<i64>) -> Seq<
    (Option<String>, T),
> {
    Seq::new(
        s.len(),
        |k: int|
            if mv(s, b, k + 1) {
                s[k + 1]
            } else {
                s[held(s, b, k)]
            },
    )
}

/// The buffer after one pass: the whole list was read, or only the first child when its id did
/// not read.
pub open spec fn pass_buf<T>(s: Seq<(Option<String>, T)>, b: Option<i64>) -> Option<i64> {
    if pivot(s, b) is Some {
        buf_at(s, b, s.len() - 1)
    } else {
        pivot(s, b)
    }
}

/// Whether a pass moves anything.
pub open spec fn moves<T>(s: Seq<(Option<String>, T)>, b: Option<i64>) -> bool {
    exists|j: int| #[trigger] mv(s, b, j)
}

/// The children and the buffer after `k` passes, from an empty buffer.
pub open spec fn run<T>(s: Seq<(Option<String>, T)>, k: nat) -> (Seq<(Option<String>, T)>, Option<i64>)
    decreases k,
{
    if k == 0 {
        (s, None)
    } else {
        let (t, b) = run(s, (k - 1) as nat);
        (pass_out(t, b), pass_buf(t, b))
    }
}

/// The sort ends after `k` passes: each of the first `k` moved something, the next one nothing.
pub open spec fn settles_after<T>(s: Seq<(Option<String>, T)>, k: nat) -> bool {
    &&& forall|j: nat| j < k ==> #[trigger] moves(run(s, j).0, run(s, j).1)
    &&& !moves(run(s, k).0, run(s, k).1)
}

/// Child `j` has an id that reads below `c`.
pub open spec fn small<T>(s: Seq<(Option<String>, T)>, c: i64, j: int) -> bool {
    own(s[j]) is Some && own(s[j]).unwrap() < c
}

/// The first position from `j` on holding a child whose id reads below `c`, or the length.
pub open spec fn first_small<T>(s: Seq<(Option<String>, T)>, c: i64, j: int) -> int
    decreases s.len() - j,
{
    if j >= s.len() || j < 0 {
        s.len() as int
    } else if small(s, c, j) {
        j
    } else {
        first_small(s, c, j + 1)
    }
}

/// What falls with every pass that moves something: the first child's id first, then how far
/// from the front the first child with a smaller id stands.
pub open spec fn measure<T>(s: Seq<(Option<String>, T)>) -> nat {
    if s.len() > 0 && own(s[0]) is Some {
        let c = own(s[0]).unwrap();
        ((c + 2147483648) * (s.len() + 1) + first_small(s, c, 1)) as nat
    } else {
        0
    }
}

proof fn lemma_own_range<T>(it: (Option<String>, T))
    ensures
        own(it) is Some ==> -2147483648 <= own(it).unwrap() <= 2147483647,
{
}

proof fn lemma_first_small<T>(s: Seq<(Option<String>, T)>, c: i64, j: int)
    requires
        0 <= j <= s.len(),
    ensures
        j <= first_small(s, c, j) <= s.len(),
        first_small(s, c, j) < s.len() ==> small(s, c, first_small(s, c, j)),
        forall|i: int| j <= i < first_small(s, c, j) ==> !#[trigger] small(s, c, i),
    decreases s.len() - j,
{
    if j < s.len() && !small(s, c, j) {
        lemma_first_small(s, c, j + 1);
    }
}

/// Before the first child with a small id, the buffer holds nothing below the pivot.
proof fn lemma_buf_not_below<T>(s: Seq<(Option<String>, T)>, b: Option<i64>, j: int)
    requires
        0 <= j < s.len(),
        pivot(s, b) is Some,
        forall|i: int| 1 <= i <= j ==> !#[trigger] small(s, pivot(s, b).unwrap(), i),
    ensures
        buf_at(s, b, j) is None || buf_at(s, b, j).unwrap() >= pivot(s, b).unwrap(),
    decreases j,
{
    if j > 0 {
        lemma_buf_not_below(s, b, j - 1);
        assert(!small(s, pivot(s, b).unwrap(), j));
    }
}

/// Before any move, the pass holds each child where it stands.
proof fn lemma_held_still<T>(s: Seq<(Option<String>, T)>, b: Option<i64>, k: int)
    requires
        0 <= k < s.len(),
        forall|i: int| 1 <= i <= k ==> !#[trigger] mv(s, b, i),
    ensures
        held(s, b, k) == k,
{
}

/// A pivot that is the first child's own id, and a pass that moves: the next pass's pivot is an
/// id of the first child too, and the measure falls.
proof fn lemma_moving_pass<T>(s: Seq<(Option<String>, T)>, b: Option<i64>)
    requires
        s.len() > 0,
        pivot(s, b) == own(s[0]),
        moves(s, b),
    ensures
        own(pass_out(s, b)[0]) is Some,
        measure(pass_out(s, b)) < measure(s),
{
    let n = s.len() as int;
    let j = choose|j: int| mv(s, b, j);
    assert(mv(s, b, j));
    let c = pivot(s, b).unwrap();
    lemma_first_small(s, c, 1);
    let p = first_small(s, c, 1);
    if p >= n {
        lemma_buf_not_below(s, b, j);
        assert(false);
    }
    assert(small(s, c, p));
    lemma_buf_not_below(s, b, p - 1);
    assert(mv(s, b, p));
    assert forall|i: int| 1 <= i < p implies !#[trigger] mv(s, b, i) by {
        lemma_buf_not_below(s, b, i);
    }
    let out = pass_out(s, b);
    lemma_own_range(s[0]);
    lemma_own_range(s[p]);
    assert(out[p - 1] == s[p]);
    if p == 1 {
        assert(out[0] == s[1]);
        lemma_own_range(out[0]);
        let c2 = own(out[0]).unwrap();
        lemma_first_small(out, c2, 1);
        assert(measure(out) == (c2 + 2147483648) * (n + 1) + first_small(out, c2, 1));
        assert((c2 + 2147483648) * (n + 1) + n < (c + 2147483648) * (n + 1)) by (nonlinear_arith)
            requires
                c2 < c,
                c2 + 2147483648 >= 0,
                n >= 0,
        ;
    } else {
        lemma_held_still(s, b, 0);
        assert(out[0] == s[0]);
        assert forall|i: int| 1 <= i < p - 1 implies !#[trigger] small(out, c, i) by {
            lemma_held_still(s, b, i);
            assert(!mv(s, b, i + 1));
            assert(out[i] == s[i]);
        }
        assert(small(out, c, p - 1));
        lemma_first_small(out, c, 1);
        assert(first_small(out, c, 1) <= p - 1) by {
            if first_small(out, c, 1) > p - 1 {
                assert(!small(out, c, p - 1));
            }
        }
    }
}

/// A pass that moves nothing, with a pivot: no child after the first has an id below it.
proof fn lemma_settled<T>(s: Seq<(Option<String>, T)>, b: Option<i64>)
    requires
        s.len() > 0,
        pivot(s, b) is Some,
        !moves(s, b),
    ensures
        forall|j: int| 1 <= j < s.len() ==> !#[trigger] small(s, pivot(s, b).unwrap(), j),
{
    let c = pivot(s, b).unwrap();
    assert forall|j: int| 1 <= j < s.len() implies !#[trigger] small(s, c, j) by {
        if small(s, c, j) {
            lemma_first_small(s, c, 1);
            let p = first_small(s, c, 1);
            lemma_buf_not_below(s, b, p - 1);
            assert(mv(s, b, p));
        }
    }
}

/// What reading child `it` into buffer `b` leaves there ([`read`]).
fn read_child<T>(it: &(Option<String>, T), b: Option<i64>) -> (r: Option<i64>)
    ensures
        r == read(b, *it),
{
    match &it.0 {
        Some(s) => to_long(s.as_str()),
        None => b,
    }
}

/// One pass over `nodes` ([`pass_out`]), the buffer carried in `buf`; whether it moved anything.
fn pass<T>(nodes: &mut Vec<(Option<String>, T)>, buf: &mut Option<i64>) -> (moved: bool)
    requires
        old(nodes).len() > 0,
    ensures
        final(nodes)@ == pass_out(old(nodes)@, *old(buf)),
        *final(buf) == pass_buf(old(nodes)@, *old(buf)),
        moved == moves(old(nodes)@, *old(buf)),
        !moved ==> final(nodes)@ == old(nodes)@,
        final(nodes)@.to_multiset() == old(nodes)@.to_multiset(),
{
    let ghost s = nodes@;
    let ghost b = *buf;
    let first = read_child(&nodes[0], *buf);
    *buf = first;
    let c = match first {
        Some(c) => c,
        None => {
            assert(pass_out(s, b) =~= s);
            return false;
        },
    };
    let n = nodes.len();
    let mut i: usize = 0;
    let mut moved = false;
    while i + 1 < n
        invariant
            s == old(nodes)@,
            b == *old(buf),
            nodes@.len() == n == s.len(),
            i < n,
            pivot(s, b) == Some(c),
            *buf == buf_at(s, b, i as int),
            moved == exists|j: int| 1 <= j <= i && #[trigger] mv(s, b, j),
            forall|k: int|
                0 <= k < i ==> #[trigger] nodes@[k] == (if mv(s, b, k + 1) {
                    s[k + 1]
                } else {
                    s[held(s, b, k)]
                }),
            nodes@[i as int] == s[held(s, b, i as int)],
            forall|k: int| i < k < n ==> #[trigger] nodes@[k] == s[k],
            !moved ==> nodes@ == s,
            nodes@.to_multiset() == s.to_multiset(),
        decreases n - i,
    {
        let nb = read_child(&nodes[i + 1], *buf);
        *buf = nb;
        let ghost before = nodes@;
        let below = match nb {
            Some(v) => v < c,
            None => false,
        };
        assert(below == mv(s, b, i + 1));
        if below {
            let x = nodes.remove(i + 1);
            nodes.insert(i, x);
            assert(nodes@ =~= before.update(i as int, before[i + 1]).update(i + 1, before[i as int]));
            proof {
                let mid = before.remove(i + 1);
                assert(mid.to_multiset() == before.to_multiset().remove(before[i + 1]));
                assert(nodes@ == mid.insert(i as int, before[i + 1]));
                assert(nodes@.to_multiset() == mid.to_multiset().insert(before[i + 1]));
                assert(nodes@.to_multiset() =~= before.to_multiset());
            }
            moved = true;
        } else {
            assert(held(s, b, i + 1) == i + 1);
        }
        assert(moved == exists|j: int| 1 <= j <= i + 1 && #[trigger] mv(s, b, j)) by {
            if mv(s, b, i + 1) {
                assert(1 <= i + 1 <= i + 1 && mv(s, b, i + 1));
            }
        }
        i = i + 1;
    }
    assert(!mv(s, b, n as int));
    assert(nodes@ =~= pass_out(s, b));
    assert(moved == moves(s, b)) by {
        if moves(s, b) {
            let j = choose|j: int| mv(s, b, j);
            assert(1 <= j <= i && mv(s, b, j));
        }
    }
    moved
}

/// Re-orders `nodes`, each given with its `wxid`, as upstream orders an element's children when
/// it loads them.
///
/// The result is a re-ordering of the children. It is what the passes give, up to the first that
/// moves nothing, and the loop ends on every list. When the first child's id does not read,
/// nothing moves; otherwise the first child ends up holding the smallest id that reads, while
/// the others need not be in order (`[2, 5, 4]` is left as it is).
pub fn upstream_sort<T>(nodes: &mut Vec<(Option<String>, T)>)
    ensures
        final(nodes)@.to_multiset() == old(nodes)@.to_multiset(),
        exists|k: nat| settles_after(old(nodes)@, k) && final(nodes)@ == #[trigger] run(old(nodes)@, k).0,
        old(nodes)@.len() == 0 || own(old(nodes)@[0]) is None ==> final(nodes)@ == old(nodes)@,
        old(nodes)@.len() > 0 && own(old(nodes)@[0]) is Some ==> {
            &&& own(final(nodes)@[0]) is Some
            &&& forall|j: int|
                0 <= j < old(nodes)@.len() && #[trigger] own(old(nodes)@[j]) is Some ==> own(
                    final(nodes)@[0],
                ).unwrap() <= own(old(nodes)@[j]).unwrap()
        },
{
    let ghost s0 = nodes@;
    if nodes.len() == 0 {
        assert(settles_after(s0, 0)) by {
            assert(!moves(s0, None)) by {
                if moves(s0, None) {
                    let j = choose|j: int| mv(s0, None, j);
                    assert(mv(s0, None, j));
                }
            }
        }
        assert(run(s0, 0).0 == nodes@);
        return;
    }
    let mut buf: Option<i64> = None;
    let ghost mut k: nat = 0;
    loop
        invariant
            s0 == old(nodes)@,
            s0.len() > 0,
            nodes@.len() == s0.len(),
            nodes@ == run(s0, k).0,
            buf == run(s0, k).1,
            forall|j: nat| j < k ==> #[trigger] moves(run(s0, j).0, run(s0, j).1),
            nodes@.to_multiset() == s0.to_multiset(),
            k == 0 ==> nodes@ == s0 && buf is None,
            k > 0 ==> own(nodes@[0]) is Some && own(s0[0]) is Some,
            pivot(nodes@, buf) == own(nodes@[0]),
        decreases measure(nodes@),
    {
        let ghost before = nodes@;
        let ghost bbuf = buf;
        let moved = pass(nodes, &mut buf);
        if !moved {
            proof {
                assert(settles_after(s0, k));
                if own(s0[0]) is Some {
                    lemma_settled(before, bbuf);
                    let c = own(before[0]).unwrap();
                    assert forall|j: int|
                        0 <= j < s0.len() && #[trigger] own(s0[j]) is Some implies c <= own(
                            s0[j],
                        ).unwrap() by {
                        assert(s0.to_multiset().count(s0[j]) > 0);
                        assert(before.contains(s0[j]));
                        let i = choose|i: int| 0 <= i < before.len() && before[i] == s0[j];
                        if i > 0 {
                            assert(!small(before, c, i));
                        }
                    }
                }
            }
            return;
        }
        proof {
            lemma_moving_pass(before, bbuf);
            assert(run(s0, k + 1) == (pass_out(before, bbuf), pass_buf(before, bbuf)));
            assert forall|j: nat| j < k + 1 implies #[trigger] moves(run(s0, j).0, run(s0, j).1) by {
                if j == k {
                }
            }
            lemma_first_pivot(nodes@, buf);
            k = k + 1;
        }
    }
}

/// With a first child whose own id reads, the pivot is that id, whatever the buffer held.
proof fn lemma_first_pivot<T>(s: Seq<(Option<String>, T)>, b: Option<i64>)
    requires
        s.len() > 0,
        own(s[0]) is Some,
    ensures
        pivot(s, b) == own(s[0]),
{
}

} // verus!
