//! Lines and words of a text file as `str::lines` and `str::split_ascii_whitespace` give them,
//! stated over the text's characters, and the number syntax `str::parse::<f64>` reads.
use crate::ply::{float_text, float_text_of};
use vstd::prelude::*;

verus! {

/// ASCII white space as `split_ascii_whitespace` takes it: space, tab, line feed, form feed,
/// carriage return.
pub open spec fn is_aws(c: char) -> bool {
    c == ' ' || c == '\t' || c == '\n' || c == '\x0C' || c == '\r'
}

/// The words of `l` from position `i` on, `cur` the word being read and `acc` those read.
pub open spec fn words_acc(l: Seq<char>, i: int, cur: Seq<char>, acc: Seq<Seq<char>>) -> Seq<Seq<char>>
    decreases l.len() - i,
{
    if i < 0 || i >= l.len() {
        if cur.len() > 0 {
            acc.push(cur)
        } else {
            acc
        }
    } else if is_aws(l[i]) {
        words_acc(
            l,
            i + 1,
            seq![],
            if cur.len() > 0 {
                acc.push(cur)
            } else {
                acc
            },
        )
    } else {
        words_acc(l, i + 1, cur.push(l[i]), acc)
    }
}

/// `str::split_ascii_whitespace`: the runs of `l` between ASCII white space.
pub open spec fn words(l: Seq<char>) -> Seq<Seq<char>> {
    words_acc(l, 0, seq![], seq![])
}

/// The lines of `c` from position `i` on, `cur` the line being read and `acc` those read: a line
/// ends at each `\n`; a last line without one counts when it is not empty.
pub open spec fn lines_acc(c: Seq<char>, i: int, cur: Seq<char>, acc: Seq<Seq<char>>) -> Seq<Seq<char>>
    decreases c.len() - i,
{
    if i < 0 || i >= c.len() {
        if cur.len() > 0 {
            acc.push(cur)
        } else {
            acc
        }
    } else if c[i] == '\n' {
        lines_acc(c, i + 1, seq![], acc.push(cur))
    } else {
        lines_acc(c, i + 1, cur.push(c[i]), acc)
    }
}

/// `str::lines`, except that a `\r` before a `\n` is kept: the callers look at a line's words or
/// trim it, which both drop it.
pub open spec fn lines(c: Seq<char>) -> Seq<Seq<char>> {
    lines_acc(c, 0, seq![], seq![])
}

/// `l`'s words start with `what`.
pub open spec fn starts_with_words(l: Seq<char>, what: Seq<Seq<char>>) -> bool {
    let w = words(l);
    w.len() >= what.len() && w.subrange(0, what.len() as int) == what
}

/// `l`'s first word, or nothing.
pub open spec fn first_word(l: Seq<char>) -> Seq<char> {
    let w = words(l);
    if w.len() > 0 {
        w[0]
    } else {
        seq![]
    }
}

/// A number `str::parse::<f64>` reads: ASCII in the float grammar ([`float_text`]).
pub open spec fn float_word(t: Seq<char>) -> bool {
    (forall|i: int| 0 <= i < t.len() ==> (t[i] as u32) < 128) && float_text(t.map_values(|c: char| (c as u32) as u8))
}

/// The words of `l` ([`words`]).
pub fn words_of(l: &[char]) -> (r: Vec<Vec<char>>)
    ensures
        r@.map_values(|w: Vec<char>| w@) == words(l@),
{
    let mut acc: Vec<Vec<char>> = Vec::new();
    let mut cur: Vec<char> = Vec::new();
    assert(acc@.map_values(|w: Vec<char>| w@) =~= Seq::<Seq<char>>::empty());
    assert(cur@ =~= Seq::<char>::empty());
    let mut i: usize = 0;
    while i < l.len()
        invariant
            i <= l@.len(),
            words_acc(l@, i as int, cur@, acc@.map_values(|w: Vec<char>| w@)) == words(l@),
        decreases l@.len() - i,
    {
        let c = l[i];
        if c == ' ' || c == '\t' || c == '\n' || c == '\x0C' || c == '\r' {
            if cur.len() > 0 {
                let ghost before = acc@.map_values(|w: Vec<char>| w@);
                acc.push(cur);
                assert(acc@.map_values(|w: Vec<char>| w@) =~= before.push(cur@));
                cur = Vec::new();
            } else {
                cur = Vec::new();
            }
            assert(cur@ =~= seq![]);
        } else {
            cur.push(c);
        }
        i = i + 1;
    }
    if cur.len() > 0 {
        let ghost before = acc@.map_values(|w: Vec<char>| w@);
        acc.push(cur);
        assert(acc@.map_values(|w: Vec<char>| w@) =~= before.push(cur@));
    }
    acc
}

/// The lines of `c` ([`lines`]).
pub fn lines_of(c: &[char]) -> (r: Vec<Vec<char>>)
    ensures
        r@.map_values(|w: Vec<char>| w@) == lines(c@),
{
    let mut acc: Vec<Vec<char>> = Vec::new();
    let mut cur: Vec<char> = Vec::new();
    assert(acc@.map_values(|w: Vec<char>| w@) =~= Seq::<Seq<char>>::empty());
    assert(cur@ =~= Seq::<char>::empty());
    let mut i: usize = 0;
    while i < c.len()
        invariant
            i <= c@.len(),
            lines_acc(c@, i as int, cur@, acc@.map_values(|w: Vec<char>| w@)) == lines(c@),
        decreases c@.len() - i,
    {
        let ch = c[i];
        if ch == '\n' {
            let ghost before = acc@.map_values(|w: Vec<char>| w@);
            acc.push(cur);
            assert(acc@.map_values(|w: Vec<char>| w@) =~= before.push(cur@));
            cur = Vec::new();
            assert(cur@ =~= seq![]);
        } else {
            cur.push(ch);
        }
        i = i + 1;
    }
    if cur.len() > 0 {
        let ghost before = acc@.map_values(|w: Vec<char>| w@);
        acc.push(cur);
        assert(acc@.map_values(|w: Vec<char>| w@) =~= before.push(cur@));
    }
    acc
}

/// Whether the words `w` start with the words of `what` ([`starts_with_words`], given `l`'s
/// words).
pub fn words_start(w: &Vec<Vec<char>>, what: &[&str]) -> (r: bool)
    ensures
        ({
            let ws = w@.map_values(|x: Vec<char>| x@);
            let ts = what@.map_values(|t: &str| t@);
            r == (ws.len() >= ts.len() && ws.subrange(0, ts.len() as int) == ts)
        }),
{
    let ghost ws = w@.map_values(|x: Vec<char>| x@);
    let ghost ts = what@.map_values(|t: &str| t@);
    if w.len() < what.len() {
        return false;
    }
    let mut k: usize = 0;
    while k < what.len()
        invariant
            k <= what@.len() <= w@.len(),
            ws == w@.map_values(|x: Vec<char>| x@),
            ts == what@.map_values(|t: &str| t@),
            forall|j: int| 0 <= j < k ==> ws[j] == ts[j],
        decreases what@.len() - k,
    {
        if !same_chars(w[k].as_slice(), what[k]) {
            assert(ws[k as int] != ts[k as int]);
            assert(ws.subrange(0, ts.len() as int)[k as int] != ts[k as int]);
            return false;
        }
        k = k + 1;
    }
    assert(ws.subrange(0, ts.len() as int) =~= ts);
    true
}

/// Whether `a` spells `b`.
pub fn same_chars(a: &[char], b: &str) -> (r: bool)
    ensures
        r == (a@ == b@),
{
    let bc = crate::chars::chars_of(b);
    if a.len() != bc.len() {
        return false;
    }
    let mut i: usize = 0;
    while i < a.len()
        invariant
            a@.len() == bc@.len(),
            bc@ == b@,
            i <= a@.len(),
            forall|j: int| 0 <= j < i ==> a@[j] == bc@[j],
        decreases a@.len() - i,
    {
        if a[i] != bc[i] {
            return false;
        }
        i = i + 1;
    }
    assert(a@ =~= bc@);
    true
}

/// Whether `t` is a number `str::parse::<f64>` reads ([`float_word`]).
pub fn is_float_word(t: &[char]) -> (r: bool)
    ensures
        r == float_word(t@),
{
    let mut b: Vec<u8> = Vec::new();
    let mut i: usize = 0;
    while i < t.len()
        invariant
            i <= t@.len(),
            forall|j: int| 0 <= j < i ==> (t@[j] as u32) < 128,
            b@ == t@.subrange(0, i as int).map_values(|c: char| (c as u32) as u8),
        decreases t@.len() - i,
    {
        let n = t[i] as u32;
        if n >= 128 {
            return false;
        }
        b.push(n as u8);
        assert(t@.subrange(0, i + 1).map_values(|c: char| (c as u32) as u8) =~= t@.subrange(0, i as int).map_values(
            |c: char| (c as u32) as u8,
        ).push((t@[i as int] as u32) as u8));
        i = i + 1;
    }
    assert(t@.subrange(0, t@.len() as int) =~= t@);
    float_text_of(b.as_slice())
}

} // verus!
