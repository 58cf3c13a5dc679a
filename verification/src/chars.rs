//! Text as a sequence of `char`s: the `str` operations the readers of tool output use (trimming,
//! finding, splitting, reading integers), each stated over the characters.
use crate::text::{parse_i64, parse_u64, spec_parse_i64, spec_parse_u64};
use vstd::prelude::*;
use vstd::slice::slice_subrange;
use vstd::std_specs::iter::IteratorSpec;

verus! {

/// Unicode's `White_Space` property, which `str::trim` removes.
pub open spec fn is_white(c: char) -> bool {
    let n = c as u32;
    ||| n == 32
    ||| 9 <= n <= 13
    ||| n == 0x85
    ||| n == 0xa0
    ||| n == 0x1680
    ||| 0x2000 <= n <= 0x200a
    ||| n == 0x2028
    ||| n == 0x2029
    ||| n == 0x202f
    ||| n == 0x205f
    ||| n == 0x3000
}

/// The first position from `i` on that holds no white space.
pub open spec fn lead(s: Seq<char>, i: int) -> int
    decreases s.len() - i,
{
    if 0 <= i < s.len() && is_white(s[i]) {
        lead(s, i + 1)
    } else {
        i
    }
}

/// The end of `s[..j]` once trailing white space is dropped.
pub open spec fn tail(s: Seq<char>, j: int) -> int
    decreases j,
{
    if 0 < j <= s.len() && is_white(s[j - 1]) {
        tail(s, j - 1)
    } else {
        j
    }
}

/// `str::trim_start`.
pub open spec fn trim_start(s: Seq<char>) -> Seq<char> {
    s.subrange(lead(s, 0), s.len() as int)
}

/// `str::trim_end`.
pub open spec fn trim_end(s: Seq<char>) -> Seq<char> {
    s.subrange(0, tail(s, s.len() as int))
}

/// `str::trim`.
pub open spec fn trim(s: Seq<char>) -> Seq<char> {
    trim_end(trim_start(s))
}

/// `p` occurs in `s` at position `i`.
pub open spec fn occurs_at(s: Seq<char>, p: Seq<char>, i: int) -> bool {
    0 <= i && i + p.len() <= s.len() && s.subrange(i, i + p.len()) == p
}

/// The first position from `i` on where `p` occurs.
pub open spec fn find_from(s: Seq<char>, p: Seq<char>, i: int) -> Option<int>
    decreases s.len() + 1 - i,
{
    if i < 0 || i + p.len() > s.len() {
        None
    } else if occurs_at(s, p, i) {
        Some(i)
    } else {
        find_from(s, p, i + 1)
    }
}

/// `str::find`: where `p` first occurs in `s`.
pub open spec fn find(s: Seq<char>, p: Seq<char>) -> Option<int> {
    find_from(s, p, 0)
}

/// `str::find` with a `char`.
pub open spec fn find_char(s: Seq<char>, c: char) -> Option<int> {
    find(s, seq![c])
}

/// `str::starts_with`.
pub open spec fn starts_with(s: Seq<char>, p: Seq<char>) -> bool {
    p.len() <= s.len() && s.subrange(0, p.len() as int) == p
}

/// `str::ends_with`.
pub open spec fn ends_with(s: Seq<char>, p: Seq<char>) -> bool {
    p.len() <= s.len() && s.subrange(s.len() - p.len(), s.len() as int) == p
}

/// `str::contains`.
pub open spec fn contains(s: Seq<char>, p: Seq<char>) -> bool {
    find(s, p) is Some
}

/// `str::split_once`: the text before the first `p` and the text after it.
pub open spec fn split_once(s: Seq<char>, p: Seq<char>) -> Option<(Seq<char>, Seq<char>)> {
    match find(s, p) {
        Some(i) => Some((s.subrange(0, i), s.subrange(i + p.len(), s.len() as int))),
        None => None,
    }
}

/// `s` without every leading `c` (`str::trim_start_matches` with a `char`).
pub open spec fn strip_start(s: Seq<char>, c: char) -> Seq<char>
    decreases s.len(),
{
    if s.len() > 0 && s[0] == c {
        strip_start(s.drop_first(), c)
    } else {
        s
    }
}

/// `s` without every trailing `c` (`str::trim_end_matches` with a `char`).
pub open spec fn strip_end(s: Seq<char>, c: char) -> Seq<char>
    decreases s.len(),
{
    if s.len() > 0 && s.last() == c {
        strip_end(s.drop_last(), c)
    } else {
        s
    }
}

/// Every character is ASCII.
pub open spec fn all_ascii(s: Seq<char>) -> bool {
    forall|i: int| 0 <= i < s.len() ==> (s[i] as u32) < 128
}

/// `str::parse::<i64>`: ASCII only ([`spec_parse_i64`] on its bytes).
pub open spec fn parse_int(s: Seq<char>) -> Option<i64> {
    if all_ascii(s) {
        spec_parse_i64(s.map_values(|c: char| (c as u32) as u8))
    } else {
        None
    }
}

/// `str::parse::<u64>`: ASCII only ([`spec_parse_u64`] on its bytes).
pub open spec fn parse_uint(s: Seq<char>) -> Option<u64> {
    if all_ascii(s) {
        spec_parse_u64(s.map_values(|c: char| (c as u32) as u8))
    } else {
        None
    }
}

/// The integers of `s` split at every `,`, each trimmed and parsed: `None` when one does not
/// parse (`split(',').map(|t| t.trim().parse().ok()).collect()`).
pub open spec fn int_list(s: Seq<char>) -> Option<Seq<i64>>
    decreases s.len(),
{
    match find_char(s, ',') {
        None => match parse_int(trim(s)) {
            Some(v) => Some(seq![v]),
            None => None,
        },
        Some(i) => {
            if 0 <= i < s.len() {
                match (parse_int(trim(s.subrange(0, i))), int_list(s.subrange(i + 1, s.len() as int))) {
                    (Some(v), Some(rest)) => Some(seq![v] + rest),
                    _ => None,
                }
            } else {
                None
            }
        },
    }
}

/// What [`find_from`] finds is an occurrence, and no earlier one exists from `i` on.
pub proof fn lemma_find_from(s: Seq<char>, p: Seq<char>, i: int)
    requires
        0 <= i,
    ensures
        find_from(s, p, i) matches Some(k) ==> i <= k && occurs_at(s, p, k),
        forall|k: int| i <= k && #[trigger] occurs_at(s, p, k) ==> (find_from(s, p, i) matches Some(m) && m <= k),
    decreases s.len() + 1 - i,
{
    if !(i + p.len() > s.len()) && !occurs_at(s, p, i) {
        lemma_find_from(s, p, i + 1);
    }
}

/// `s` as its characters.
pub fn chars_of(s: &str) -> (r: Vec<char>)
    ensures
        r@ == s@,
{
    let mut out: Vec<char> = Vec::new();
    let mut it = s.chars();
    let ghost all = it.remaining();
    proof {
        vstd::string::axiom_spec_iter(s);
    }
    loop
        invariant
            all == s@,
            out@ + it.remaining() == all,
            it.obeys_prophetic_iter_laws(),
            it.decrease() is Some,
        decreases it.decrease()->0,
    {
        let ghost before = it;
        match it.next() {
            Some(c) => {
                proof {
                    vstd::string::next_postcondition(&before, &it, Some(c));
                }
                assert(before.remaining().len() > 0);
                out.push(c);
                assert(out@ + it.remaining() =~= all);
            },
            None => {
                proof {
                    vstd::string::next_postcondition(&before, &it, None);
                }
                assert(out@ =~= all);
                return out;
            },
        }
    }
}

/// Appends `c` to `s`.
#[verifier::external_body]
fn push_char(s: &mut String, c: char)
    ensures
        final(s)@ == old(s)@.push(c),
{
    s.push(c);
}

/// The text of `cs`.
pub fn string_of(cs: &[char]) -> (r: String)
    ensures
        r@ == cs@,
{
    let mut out = String::new();
    let mut i: usize = 0;
    while i < cs.len()
        invariant
            i <= cs@.len(),
            out@ == cs@.subrange(0, i as int),
        decreases cs@.len() - i,
    {
        push_char(&mut out, cs[i]);
        assert(cs@.subrange(0, i + 1) =~= cs@.subrange(0, i as int).push(cs@[i as int]));
        i = i + 1;
    }
    assert(cs@.subrange(0, cs@.len() as int) =~= cs@);
    out
}

/// Whether `c` is white space ([`is_white`]).
pub fn white(c: char) -> (r: bool)
    ensures
        r == is_white(c),
{
    let n = c as u32;
    n == 32 || (9 <= n && n <= 13) || n == 0x85 || n == 0xa0 || n == 0x1680 || (0x2000 <= n && n
        <= 0x200a) || n == 0x2028 || n == 0x2029 || n == 0x202f || n == 0x205f || n == 0x3000
}

/// [`trim_start`].
pub fn trim_start_of(s: &[char]) -> (r: &[char])
    ensures
        r@ == trim_start(s@),
{
    let mut i: usize = 0;
    while i < s.len() && white(s[i])
        invariant
            0 <= i <= s@.len(),
            lead(s@, 0) == lead(s@, i as int),
        decreases s@.len() - i,
    {
        i = i + 1;
    }
    slice_subrange(s, i, s.len())
}

/// [`trim_end`].
pub fn trim_end_of(s: &[char]) -> (r: &[char])
    ensures
        r@ == trim_end(s@),
{
    let mut j: usize = s.len();
    while j > 0 && white(s[j - 1])
        invariant
            0 <= j <= s@.len(),
            tail(s@, s@.len() as int) == tail(s@, j as int),
        decreases j,
    {
        j = j - 1;
    }
    slice_subrange(s, 0, j)
}

/// [`trim`].
pub fn trim_of(s: &[char]) -> (r: &[char])
    ensures
        r@ == trim(s@),
{
    trim_end_of(trim_start_of(s))
}

/// Whether `p` occurs in `s` at `i` ([`occurs_at`]).
fn occurs(s: &[char], p: &[char], i: usize) -> (r: bool)
    ensures
        r == occurs_at(s@, p@, i as int),
{
    if i > s.len() || p.len() > s.len() - i {
        return false;
    }
    let ls = s.len();
    let mut k: usize = 0;
    while k < p.len()
        invariant
            ls == s@.len(),
            i + p@.len() <= s@.len(),
            i <= s@.len(),
            k <= p@.len(),
            forall|m: int| 0 <= m < k ==> s@[i + m] == p@[m],
        decreases p@.len() - k,
    {
        if s[i + k] != p[k] {
            assert(s@.subrange(i as int, i + p@.len())[k as int] != p@[k as int]);
            return false;
        }
        k = k + 1;
    }
    assert(s@.subrange(i as int, i + p@.len()) =~= p@);
    true
}

/// [`find`].
pub fn find_in(s: &[char], p: &[char]) -> (r: Option<usize>)
    ensures
        r matches Some(i) ==> (find(s@, p@) == Some(i as int) && i + p@.len() <= s@.len()),
        r is None ==> find(s@, p@) is None,
{
    proof {
        lemma_find_from(s@, p@, 0);
    }
    if p.len() > s.len() {
        return None;
    }
    let last = s.len() - p.len();
    let mut i: usize = 0;
    while i <= last
        invariant
            p@.len() <= s@.len(),
            last == s@.len() - p@.len(),
            i <= last + 1,
            find(s@, p@) == find_from(s@, p@, i as int),
        decreases last + 1 - i,
    {
        if occurs(s, p, i) {
            return Some(i);
        }
        if i == last {
            assert(find_from(s@, p@, i + 1) is None);
            return None;
        }
        i = i + 1;
    }
    None
}

/// [`find`] with the characters of `p`.
pub fn find_str(s: &[char], p: &str) -> (r: Option<usize>)
    ensures
        r matches Some(i) ==> (find(s@, p@) == Some(i as int) && i + p@.len() <= s@.len()),
        r is None ==> find(s@, p@) is None,
{
    let q = chars_of(p);
    find_in(s, q.as_slice())
}

/// [`find_char`].
pub fn find_c(s: &[char], c: char) -> (r: Option<usize>)
    ensures
        r matches Some(i) ==> (find_char(s@, c) == Some(i as int) && i < s@.len() && s@[i as int] == c),
        r is None ==> find_char(s@, c) is None,
{
    let q = vec![c];
    assert(q@ =~= seq![c]);
    let r = find_in(s, q.as_slice());
    proof {
        if let Some(i) = r {
            lemma_find_from(s@, seq![c], 0);
            assert(occurs_at(s@, seq![c], i as int));
            assert(s@.subrange(i as int, i + 1)[0] == s@[i as int]);
        }
    }
    r
}

/// [`starts_with`] with the characters of `p`.
pub fn starts(s: &[char], p: &str) -> (r: bool)
    ensures
        r == starts_with(s@, p@),
{
    let q = chars_of(p);
    let r = occurs(s, q.as_slice(), 0);
    r
}

/// [`ends_with`] with the characters of `p`.
pub fn ends(s: &[char], p: &str) -> (r: bool)
    ensures
        r == ends_with(s@, p@),
{
    let q = chars_of(p);
    if q.len() > s.len() {
        return false;
    }
    occurs(s, q.as_slice(), s.len() - q.len())
}

/// Whether `s` is the text `p`.
pub fn equals(s: &[char], p: &str) -> (r: bool)
    ensures
        r == (s@ == p@),
{
    let q = chars_of(p);
    if q.len() != s.len() {
        return false;
    }
    let r = occurs(s, q.as_slice(), 0);
    proof {
        if r {
            assert(s@ =~= s@.subrange(0, q@.len() as int));
        } else {
            if s@ == p@ {
                assert(s@.subrange(0, q@.len() as int) =~= s@);
            }
        }
    }
    r
}

/// [`contains`] with the characters of `p`.
pub fn has(s: &[char], p: &str) -> (r: bool)
    ensures
        r == contains(s@, p@),
{
    find_str(s, p).is_some()
}

/// `s` without every leading `c` ([`strip_start`]).
pub fn strip_start_of(s: &[char], c: char) -> (r: &[char])
    ensures
        r@ == strip_start(s@, c),
{
    let mut i: usize = 0;
    assert(s@.subrange(0, s@.len() as int) =~= s@);
    while i < s.len() && s[i] == c
        invariant
            0 <= i <= s@.len(),
            strip_start(s@, c) == strip_start(s@.subrange(i as int, s@.len() as int), c),
        decreases s@.len() - i,
    {
        assert(s@.subrange(i as int, s@.len() as int).drop_first() =~= s@.subrange(i + 1, s@.len() as int));
        i = i + 1;
    }
    assert(s@.subrange(0, s@.len() as int) =~= s@);
    slice_subrange(s, i, s.len())
}

/// `s` without every trailing `c` ([`strip_end`]).
pub fn strip_end_of(s: &[char], c: char) -> (r: &[char])
    ensures
        r@ == strip_end(s@, c),
{
    let mut j: usize = s.len();
    assert(s@.subrange(0, s@.len() as int) =~= s@);
    while j > 0 && s[j - 1] == c
        invariant
            0 <= j <= s@.len(),
            strip_end(s@, c) == strip_end(s@.subrange(0, j as int), c),
        decreases j,
    {
        assert(s@.subrange(0, j as int).drop_last() =~= s@.subrange(0, j - 1));
        j = j - 1;
    }
    slice_subrange(s, 0, j)
}

/// [`parse_int`].
pub fn parse_int_of(s: &[char]) -> (r: Option<i64>)
    ensures
        r == parse_int(s@),
{
    let mut bytes: Vec<u8> = Vec::new();
    let mut i: usize = 0;
    while i < s.len()
        invariant
            i <= s@.len(),
            bytes@ == s@.subrange(0, i as int).map_values(|c: char| (c as u32) as u8),
            forall|k: int| 0 <= k < i ==> (s@[k] as u32) < 128,
        decreases s@.len() - i,
    {
        let n = s[i] as u32;
        if n >= 128 {
            return None;
        }
        bytes.push(n as u8);
        assert(s@.subrange(0, i + 1).map_values(|c: char| (c as u32) as u8) =~= s@.subrange(0, i as int).map_values(
            |c: char| (c as u32) as u8,
        ).push(n as u8));
        i = i + 1;
    }
    assert(s@.subrange(0, s@.len() as int) =~= s@);
    parse_i64(bytes.as_slice())
}

/// [`int_list`].
pub fn int_list_of(s: &[char]) -> (r: Option<Vec<i64>>)
    ensures
        r matches Some(v) ==> int_list(s@) == Some(v@),
        r is None ==> int_list(s@) is None,
    decreases s@.len(),
{
    let n = s.len();
    match find_c(s, ',') {
        None => match parse_int_of(trim_of(s)) {
            Some(v) => {
                let out = vec![v];
                assert(out@ =~= seq![v]);
                Some(out)
            },
            None => None,
        },
        Some(i) => {
            let head = parse_int_of(trim_of(slice_subrange(s, 0, i)));
            match head {
                None => None,
                Some(v) => match int_list_of(slice_subrange(s, i + 1, s.len())) {
                    None => None,
                    Some(mut rest) => {
                        let ghost r0 = rest@;
                        rest.insert(0, v);
                        assert(rest@ =~= seq![v] + r0);
                        Some(rest)
                    },
                },
            }
        },
    }
}

/// [`split_once`] at the characters of `p`.
pub fn split_once_of<'a>(s: &'a [char], p: &str) -> (r: Option<(&'a [char], &'a [char])>)
    ensures
        r matches Some((a, b)) ==> split_once(s@, p@) == Some((a@, b@)),
        r is None ==> split_once(s@, p@) is None,
{
    let q = chars_of(p);
    let n = s.len();
    match find_in(s, q.as_slice()) {
        None => None,
        Some(i) => Some((slice_subrange(s, 0, i), slice_subrange(s, i + q.len(), s.len()))),
    }
}

/// `s` after the characters of `p`, when it starts with them (`str::strip_prefix`).
pub fn strip_prefix_of<'a>(s: &'a [char], p: &str) -> (r: Option<&'a [char]>)
    ensures
        r matches Some(t) ==> (starts_with(s@, p@) && t@ == s@.subrange(p@.len() as int, s@.len() as int)),
        r is None ==> !starts_with(s@, p@),
{
    let q = chars_of(p);
    if occurs(s, q.as_slice(), 0) {
        Some(slice_subrange(s, q.len(), s.len()))
    } else {
        None
    }
}

/// The bytes of `s` when every character is ASCII.
fn ascii_bytes(s: &[char]) -> (r: Option<Vec<u8>>)
    ensures
        r matches Some(b) ==> (all_ascii(s@) && b@ == s@.map_values(|c: char| (c as u32) as u8)),
        r is None ==> !all_ascii(s@),
{
    let mut bytes: Vec<u8> = Vec::new();
    let mut i: usize = 0;
    while i < s.len()
        invariant
            i <= s@.len(),
            bytes@ == s@.subrange(0, i as int).map_values(|c: char| (c as u32) as u8),
            forall|k: int| 0 <= k < i ==> (s@[k] as u32) < 128,
        decreases s@.len() - i,
    {
        let n = s[i] as u32;
        if n >= 128 {
            return None;
        }
        bytes.push(n as u8);
        assert(s@.subrange(0, i + 1).map_values(|c: char| (c as u32) as u8) =~= s@.subrange(0, i as int).map_values(
            |c: char| (c as u32) as u8,
        ).push(n as u8));
        i = i + 1;
    }
    assert(s@.subrange(0, s@.len() as int) =~= s@);
    Some(bytes)
}

/// [`parse_uint`].
pub fn parse_uint_of(s: &[char]) -> (r: Option<u64>)
    ensures
        r == parse_uint(s@),
{
    match ascii_bytes(s) {
        Some(b) => parse_u64(b.as_slice()),
        None => None,
    }
}

} // verus!
