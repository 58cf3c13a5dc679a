//! Which TetGen output sets a folder holds, from its file names: the basenames `<base>` with a
//! `<base>.1.ele`, or, failing any, those with a `<base>.1.node`, `<base>.1.face` or
//! `<base>_skipped.face` (suffixes compared ignoring ASCII case), distinct and in ascending order.
use crate::chars::{chars_of, string_of};
use vstd::prelude::*;

verus! {

/// Text order: the order of `String`'s `Ord`, by code point (UTF-8 bytes compare the same way).
pub open spec fn lex_lt(a: Seq<char>, b: Seq<char>) -> bool
    decreases a.len(),
{
    if a.len() == 0 {
        b.len() > 0
    } else if b.len() == 0 {
        false
    } else if a[0] != b[0] {
        (a[0] as int) < (b[0] as int)
    } else {
        lex_lt(a.drop_first(), b.drop_first())
    }
}

/// Text order is a strict total order.
pub proof fn lemma_lex_order(a: Seq<char>, b: Seq<char>, c: Seq<char>)
    ensures
        !lex_lt(a, a),
        lex_lt(a, b) ==> !lex_lt(b, a),
        a != b ==> lex_lt(a, b) || lex_lt(b, a),
        lex_lt(a, b) && lex_lt(b, c) ==> lex_lt(a, c),
    decreases a.len(),
{
    if a.len() > 0 {
        lemma_lex_order(a.drop_first(), a.drop_first(), a.drop_first());
        if b.len() > 0 {
            if c.len() > 0 {
                lemma_lex_order(a.drop_first(), b.drop_first(), c.drop_first());
            } else {
                lemma_lex_order(a.drop_first(), b.drop_first(), b.drop_first());
            }
            if a != b && a[0] == b[0] {
                assert(a.drop_first() != b.drop_first()) by {
                    if a.drop_first() == b.drop_first() {
                        assert(a =~= seq![a[0]] + a.drop_first());
                        assert(b =~= seq![b[0]] + b.drop_first());
                    }
                }
            }
        }
    } else {
        if b.len() == 0 {
            assert(a =~= b);
        }
    }
}

/// `c` is `s` (a lower-case ASCII text) ignoring ASCII case.
pub open spec fn eq_ci(c: char, s: char) -> bool {
    c == s || ('a' <= s <= 'z' && (c as int) + 32 == (s as int))
}

/// `n` ends with `s`, ignoring ASCII case.
pub open spec fn ends_ci(n: Seq<char>, s: Seq<char>) -> bool {
    n.len() >= s.len() && forall|i: int| 0 <= i < s.len() ==> eq_ci(#[trigger] n[n.len() - s.len() + i], s[i])
}

/// The base `n` has: `n` without the first of the suffixes from `k` on that it ends with.
pub open spec fn base_for(n: Seq<char>, suffixes: Seq<Seq<char>>, k: int) -> Option<Seq<char>>
    decreases suffixes.len() - k,
{
    if k < 0 || k >= suffixes.len() {
        None
    } else if ends_ci(n, suffixes[k]) {
        Some(n.subrange(0, n.len() - suffixes[k].len()))
    } else {
        base_for(n, suffixes, k + 1)
    }
}

/// `b` is the base of one of the names.
pub open spec fn is_base(names: Seq<Seq<char>>, suffixes: Seq<Seq<char>>, b: Seq<char>) -> bool {
    exists|i: int| 0 <= i < names.len() && base_for(#[trigger] names[i], suffixes, 0) == Some(b)
}

/// Some name has a base.
pub open spec fn has_base(names: Seq<Seq<char>>, suffixes: Seq<Seq<char>>) -> bool {
    exists|i: int| 0 <= i < names.len() && base_for(#[trigger] names[i], suffixes, 0) is Some
}

/// The suffix of a complete output set.
pub open spec fn ele_suffixes() -> Seq<Seq<char>> {
    seq![".1.ele"@]
}

/// The suffixes of an incomplete one.
pub open spec fn part_suffixes() -> Seq<Seq<char>> {
    seq![".1.node"@, ".1.face"@, "_skipped.face"@]
}

/// The suffixes the bases are taken from: a complete set's if any name has one, else the others.
pub open spec fn chosen_suffixes(names: Seq<Seq<char>>) -> Seq<Seq<char>> {
    if has_base(names, ele_suffixes()) {
        ele_suffixes()
    } else {
        part_suffixes()
    }
}

/// The texts as values.
pub open spec fn chars_view(v: Seq<Vec<char>>) -> Seq<Seq<char>> {
    v.map_values(|x: Vec<char>| x@)
}

/// Strictly ascending.
pub open spec fn ascending(s: Seq<Seq<char>>) -> bool {
    forall|i: int, j: int| 0 <= i < j < s.len() ==> lex_lt(s[i], s[j])
}

/// Whether `a` comes before `b` ([`lex_lt`]).
fn lex_less(a: &[char], b: &[char]) -> (r: bool)
    ensures
        r == lex_lt(a@, b@),
{
    let mut i: usize = 0;
    assert(a@.subrange(0, a@.len() as int) =~= a@);
    assert(b@.subrange(0, b@.len() as int) =~= b@);
    while i < a.len() && i < b.len() && a[i] == b[i]
        invariant
            i <= a@.len(),
            i <= b@.len(),
            lex_lt(a@, b@) == lex_lt(a@.subrange(i as int, a@.len() as int), b@.subrange(i as int, b@.len() as int)),
        decreases a@.len() - i,
    {
        assert(a@.subrange(i as int, a@.len() as int).drop_first() =~= a@.subrange(i + 1, a@.len() as int));
        assert(b@.subrange(i as int, b@.len() as int).drop_first() =~= b@.subrange(i + 1, b@.len() as int));
        i = i + 1;
    }
    if i == a.len() {
        i < b.len()
    } else if i == b.len() {
        false
    } else {
        assert(a@.subrange(i as int, a@.len() as int)[0] == a@[i as int]);
        assert(b@.subrange(i as int, b@.len() as int)[0] == b@[i as int]);
        a[i] < b[i]
    }
}

/// [`ends_ci`].
fn ends_with_ci(n: &[char], s: &[char]) -> (r: bool)
    ensures
        r == ends_ci(n@, s@),
{
    if n.len() < s.len() {
        return false;
    }
    let nl = n.len();
    let off = n.len() - s.len();
    let mut i: usize = 0;
    while i < s.len()
        invariant
            nl == n@.len(),
            off == n@.len() - s@.len(),
            i <= s@.len(),
            forall|j: int| 0 <= j < i ==> eq_ci(#[trigger] n@[n@.len() - s@.len() + j], s@[j]),
        decreases s@.len() - i,
    {
        let c = n[off + i];
        let t = s[i];
        if !(c == t || ('a' <= t && t <= 'z' && 'A' <= c && c <= 'Z' && (c as u32) + 32 == (t as u32))) {
            assert(!eq_ci(n@[n@.len() - s@.len() + i], s@[i as int]));
            return false;
        }
        i = i + 1;
    }
    true
}

/// The base `n` has with the suffixes `suffixes` ([`base_for`]).
fn base_of(n: &[char], suffixes: &Vec<Vec<char>>) -> (r: Option<Vec<char>>)
    ensures
        match r {
            Some(b) => base_for(n@, chars_view(suffixes@), 0) == Some(b@),
            None => base_for(n@, chars_view(suffixes@), 0) is None,
        },
{
    let ghost sv = chars_view(suffixes@);
    let mut k: usize = 0;
    while k < suffixes.len()
        invariant
            k <= suffixes@.len(),
            sv == chars_view(suffixes@),
            base_for(n@, sv, 0) == base_for(n@, sv, k as int),
        decreases suffixes@.len() - k,
    {
        assert(sv[k as int] == suffixes@[k as int]@);
        if ends_with_ci(n, suffixes[k].as_slice()) {
            let b = vstd::slice::slice_subrange(n, 0, n.len() - suffixes[k].len());
            return Some(vstd::slice::slice_to_vec(b));
        }
        k = k + 1;
    }
    None
}

/// `out` with `b` put in its place, unless it is there already.
fn insert_sorted(out: &mut Vec<Vec<char>>, b: Vec<char>)
    requires
        ascending(chars_view(old(out)@)),
    ensures
        ascending(chars_view(final(out)@)),
        forall|x: Seq<char>|
            #[trigger] chars_view(final(out)@).contains(x) <==> (chars_view(old(out)@).contains(x) || x == b@),
{
    let ghost ov = chars_view(out@);
    let mut p: usize = 0;
    while p < out.len() && lex_less(out[p].as_slice(), b.as_slice())
        invariant
            p <= out@.len(),
            out@ == old(out)@,
            ov == chars_view(out@),
            forall|j: int| 0 <= j < p ==> lex_lt(ov[j], b@),
        decreases out@.len() - p,
    {
        assert(ov[p as int] == out@[p as int]@);
        p = p + 1;
    }
    proof {
        if p < out@.len() {
            assert(ov[p as int] == out@[p as int]@);
            assert(!lex_lt(ov[p as int], b@));
        }
    }
    if p < out.len() && same(out[p].as_slice(), b.as_slice()) {
        assert(ov[p as int] == out@[p as int]@);
        assert(ov.contains(b@));
        return;
    }
    let ghost bv = b@;
    out.insert(p, b);
    let ghost nv = chars_view(out@);
    assert(nv =~= ov.insert(p as int, bv));
    proof {
        if p < ov.len() {
            assert(ov[p as int] == old(out)@[p as int]@);
            lemma_lex_order(ov[p as int], bv, bv);
            assert(ov[p as int] != bv);
            assert(lex_lt(bv, ov[p as int]));
        }
        assert forall|i: int, j: int| 0 <= i < j < nv.len() implies lex_lt(nv[i], nv[j]) by {
            if j < p {
            } else if i < p && j == p {
            } else if i < p && j > p {
                lemma_lex_order(ov[i], bv, ov[j - 1]);
                assert(lex_lt(ov[i], bv));
                if j - 1 > p {
                    assert(lex_lt(ov[p as int], ov[j - 1]));
                    lemma_lex_order(bv, ov[p as int], ov[j - 1]);
                }
            } else if i == p {
                if j - 1 > p {
                    assert(lex_lt(ov[p as int], ov[j - 1]));
                    lemma_lex_order(bv, ov[p as int], ov[j - 1]);
                }
            } else {
                assert(nv[i] == ov[i - 1] && nv[j] == ov[j - 1]);
            }
        }
        assert forall|x: Seq<char>| #[trigger] nv.contains(x) <==> (ov.contains(x) || x == bv) by {
            if nv.contains(x) {
                let k = choose|k: int| 0 <= k < nv.len() && nv[k] == x;
                if k < p {
                    assert(ov[k] == x);
                } else if k > p {
                    assert(ov[k - 1] == x);
                }
            }
            if ov.contains(x) {
                let k = choose|k: int| 0 <= k < ov.len() && ov[k] == x;
                if k < p {
                    assert(nv[k] == x);
                } else {
                    assert(nv[k + 1] == x);
                }
            }
            if x == bv {
                assert(nv[p as int] == x);
            }
        }
    }
}

/// Whether `a` and `b` hold the same characters.
fn same(a: &[char], b: &[char]) -> (r: bool)
    ensures
        r == (a@ == b@),
{
    if a.len() != b.len() {
        return false;
    }
    let mut i: usize = 0;
    while i < a.len()
        invariant
            a@.len() == b@.len(),
            i <= a@.len(),
            forall|j: int| 0 <= j < i ==> a@[j] == b@[j],
        decreases a@.len() - i,
    {
        if a[i] != b[i] {
            return false;
        }
        i = i + 1;
    }
    assert(a@ =~= b@);
    true
}

/// The texts of `names`, as values.
pub open spec fn strings_view(names: Seq<String>) -> Seq<Seq<char>> {
    names.map_values(|s: String| s@)
}

/// The suffixes as characters.
fn suffix_list(parts: bool) -> (r: Vec<Vec<char>>)
    ensures
        chars_view(r@) == if parts {
            part_suffixes()
        } else {
            ele_suffixes()
        },
{
    let mut v: Vec<Vec<char>> = Vec::new();
    if parts {
        v.push(chars_of(".1.node"));
        v.push(chars_of(".1.face"));
        v.push(chars_of("_skipped.face"));
    } else {
        v.push(chars_of(".1.ele"));
    }
    assert(chars_view(v@) =~= if parts {
        part_suffixes()
    } else {
        ele_suffixes()
    });
    v
}

/// The distinct TetGen basenames the file names `names` show, ascending: those with a
/// `.1.ele` if any name has one, else those with a `.1.node`, `.1.face` or `_skipped.face`
/// (suffixes compared ignoring ASCII case; the first that fits is cut off).
pub fn basenames(names: &Vec<String>) -> (r: Vec<String>)
    ensures
        ascending(strings_view(r@)),
        forall|x: Seq<char>|
            #[trigger] strings_view(r@).contains(x) <==> is_base(
                strings_view(names@),
                chosen_suffixes(strings_view(names@)),
                x,
            ),
{
    let ghost nv = strings_view(names@);
    let mut cs: Vec<Vec<char>> = Vec::new();
    let mut k: usize = 0;
    while k < names.len()
        invariant
            k <= names@.len(),
            nv == strings_view(names@),
            chars_view(cs@) =~= nv.subrange(0, k as int),
        decreases names@.len() - k,
    {
        let ghost cb = chars_view(cs@);
        cs.push(chars_of(names[k].as_str()));
        assert(chars_view(cs@) =~= cb.push(nv[k as int]));
        assert(nv.subrange(0, k + 1) =~= nv.subrange(0, k as int).push(nv[k as int]));
        k = k + 1;
    }
    assert(nv.subrange(0, nv.len() as int) =~= nv);
    let ele = suffix_list(false);
    let mut any = false;
    let mut i: usize = 0;
    while i < cs.len()
        invariant
            i <= cs@.len(),
            chars_view(cs@) == nv,
            chars_view(ele@) == ele_suffixes(),
            any == exists|j: int| 0 <= j < i && base_for(#[trigger] nv[j], ele_suffixes(), 0) is Some,
        decreases cs@.len() - i,
    {
        assert(nv[i as int] == cs@[i as int]@);
        if base_of(cs[i].as_slice(), &ele).is_some() {
            any = true;
        }
        i = i + 1;
    }
    assert(any == has_base(nv, ele_suffixes()));
    let suffixes = if any {
        ele
    } else {
        suffix_list(true)
    };
    let ghost sv = chars_view(suffixes@);
    assert(sv == chosen_suffixes(nv));
    let mut out: Vec<Vec<char>> = Vec::new();
    let mut i: usize = 0;
    assert(ascending(chars_view(out@)));
    while i < cs.len()
        invariant
            i <= cs@.len(),
            chars_view(cs@) == nv,
            sv == chars_view(suffixes@),
            ascending(chars_view(out@)),
            forall|x: Seq<char>|
                #[trigger] chars_view(out@).contains(x) <==> exists|j: int| 0 <= j < i && base_for(#[trigger] nv[j], sv, 0) == Some(x),
        decreases cs@.len() - i,
    {
        assert(nv[i as int] == cs@[i as int]@);
        let ghost before = chars_view(out@);
        match base_of(cs[i].as_slice(), &suffixes) {
            Some(b) => {
                let ghost bv = b@;
                insert_sorted(&mut out, b);
                assert forall|x: Seq<char>| #[trigger] chars_view(out@).contains(x) <==> exists|j: int|
                    0 <= j < i + 1 && base_for(#[trigger] nv[j], sv, 0) == Some(x) by {
                    if x == bv {
                        assert(base_for(nv[i as int], sv, 0) == Some(x));
                    }
                    if before.contains(x) {
                    }
                    if exists|j: int| 0 <= j < i + 1 && base_for(#[trigger] nv[j], sv, 0) == Some(x) {
                        let j = choose|j: int| 0 <= j < i + 1 && base_for(#[trigger] nv[j], sv, 0) == Some(x);
                        if j < i {
                            assert(before.contains(x));
                        }
                    }
                }
            },
            None => {
                assert forall|x: Seq<char>| #[trigger] chars_view(out@).contains(x) <==> exists|j: int|
                    0 <= j < i + 1 && base_for(#[trigger] nv[j], sv, 0) == Some(x) by {
                    if exists|j: int| 0 <= j < i + 1 && base_for(#[trigger] nv[j], sv, 0) == Some(x) {
                        let j = choose|j: int| 0 <= j < i + 1 && base_for(#[trigger] nv[j], sv, 0) == Some(x);
                        if j < i {
                            assert(before.contains(x));
                        }
                    }
                }
            },
        }
        i = i + 1;
    }
    let mut r: Vec<String> = Vec::new();
    let mut q: usize = 0;
    while q < out.len()
        invariant
            q <= out@.len(),
            strings_view(r@) =~= chars_view(out@).subrange(0, q as int),
        decreases out@.len() - q,
    {
        let ghost rb = strings_view(r@);
        r.push(string_of(out[q].as_slice()));
        assert(strings_view(r@) =~= rb.push(out@[q as int]@));
        assert(chars_view(out@).subrange(0, q + 1) =~= chars_view(out@).subrange(0, q as int).push(out@[q as int]@));
        q = q + 1;
    }
    assert(chars_view(out@).subrange(0, out@.len() as int) =~= chars_view(out@));
    r
}


/// The one TetGen basename among a folder's file names ([`basenames`]), or, when there is none
/// or more than one, all of them.
pub fn single_basename(names: &Vec<String>) -> (r: Result<String, Vec<String>>)
    ensures
        match r {
            Ok(b) => forall|x: Seq<char>|
                is_base(strings_view(names@), chosen_suffixes(strings_view(names@)), x) <==> x == b@,
            Err(bs) => {
                &&& bs@.len() != 1
                &&& ascending(strings_view(bs@))
                &&& forall|x: Seq<char>|
                    #[trigger] strings_view(bs@).contains(x) <==> is_base(
                        strings_view(names@),
                        chosen_suffixes(strings_view(names@)),
                        x,
                    )
            },
        },
{
    let bases = basenames(names);
    if bases.len() == 1 {
        let b = bases[0].clone();
        proof {
            assert forall|x: Seq<char>|
                is_base(strings_view(names@), chosen_suffixes(strings_view(names@)), x) <==> x == b@ by {
                assert(strings_view(bases@)[0] == b@);
                if x == b@ {
                    assert(strings_view(bases@).contains(x));
                }
                if strings_view(bases@).contains(x) {
                    let i = choose|i: int| 0 <= i < strings_view(bases@).len() && strings_view(bases@)[i] == x;
                    assert(i == 0);
                }
            }
        }
        Ok(b)
    } else {
        Err(bases)
    }
}
} // verus!
