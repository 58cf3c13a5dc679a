//! Byte-level reading of text: white space, decimal integers and the trimming that the
//! readers of this crate share. Everything is stated over the bytes (`Seq<u8>`) of the text.
use vstd::prelude::*;

verus! {

/// An ASCII decimal digit.
pub open spec fn is_digit(b: u8) -> bool {
    48 <= b && b <= 57
}

/// Every byte of `s` is a decimal digit.
pub open spec fn all_digits(s: Seq<u8>) -> bool {
    forall|i: int| 0 <= i < s.len() ==> is_digit(#[trigger] s[i])
}

/// The value of a string of decimal digits.
pub open spec fn digits_value(s: Seq<u8>) -> nat
    decreases s.len(),
{
    if s.len() == 0 {
        0
    } else {
        digits_value(s.drop_last()) * 10 + (s.last() - 48) as nat
    }
}

/// What `str::parse::<u64>` gives: an optional `+`, then one digit or more, nothing else, the
/// value in range.
pub open spec fn spec_parse_u64(s: Seq<u8>) -> Option<u64> {
    let d = if s.len() > 0 && s[0] == 43u8 {
        s.drop_first()
    } else {
        s
    };
    if d.len() == 0 || !all_digits(d) || digits_value(d) > u64::MAX {
        None
    } else {
        Some(digits_value(d) as u64)
    }
}

/// What `str::parse::<i64>` gives: an optional `+` or `-`, then one digit or more, nothing
/// else, the value in range.
pub open spec fn spec_parse_i64(s: Seq<u8>) -> Option<i64> {
    let signed = s.len() > 0 && (s[0] == 43u8 || s[0] == 45u8);
    let negative = s.len() > 0 && s[0] == 45u8;
    let d = if signed {
        s.drop_first()
    } else {
        s
    };
    let v: int = if negative {
        -(digits_value(d) as int)
    } else {
        digits_value(d) as int
    };
    if d.len() == 0 || !all_digits(d) || v < i64::MIN || v > i64::MAX {
        None
    } else {
        Some(v as i64)
    }
}

/// A longer string of digits is worth at least as much as any prefix of it.
pub proof fn lemma_digits_prefix(d: Seq<u8>, k: int)
    requires
        0 <= k <= d.len(),
    ensures
        digits_value(d) >= digits_value(d.subrange(0, k)),
    decreases d.len(),
{
    if k == d.len() {
        assert(d.subrange(0, k) =~= d);
    } else {
        lemma_digits_prefix(d.drop_last(), k);
        assert(d.drop_last().subrange(0, k) =~= d.subrange(0, k));
    }
}

/// One more digit: the value of `s[a..i + 1]` from that of `s[a..i]`.
pub proof fn lemma_digits_step(s: Seq<u8>, a: int, i: int)
    requires
        0 <= a <= i < s.len(),
    ensures
        digits_value(s.subrange(a, i + 1)) == digits_value(s.subrange(a, i)) * 10 + (s[i] - 48) as nat,
{
    assert(s.subrange(a, i + 1).drop_last() =~= s.subrange(a, i));
}

/// The value of the digits `s[start..]`, if they are all digits and the value is at most
/// `cap`; `None` otherwise.
pub fn digits_upto(s: &[u8], start: usize, cap: u64) -> (r: Option<u64>)
    requires
        start <= s@.len(),
    ensures
        ({
            let d = s@.subrange(start as int, s@.len() as int);
            match r {
                Some(v) => all_digits(d) && v == digits_value(d) && v <= cap,
                None => !all_digits(d) || digits_value(d) > cap,
            }
        }),
{
    let mut acc: u64 = 0;
    let mut i = start;
    assert(s@.subrange(start as int, start as int) =~= Seq::<u8>::empty());
    while i < s.len()
        invariant
            start <= i <= s@.len(),
            acc <= cap,
            acc == digits_value(s@.subrange(start as int, i as int)),
            all_digits(s@.subrange(start as int, i as int)),
        decreases s@.len() - i,
    {
        let b = s[i];
        proof {
            lemma_digits_step(s@, start as int, i as int);
        }
        if b < 48 || b > 57 {
            assert(s@.subrange(start as int, s@.len() as int)[i - start] == b);
            return None;
        }
        let dg = (b - 48) as u64;
        assert(s@.subrange(start as int, (i + 1) as int) =~= s@.subrange(start as int, i as int).push(b));
        if dg > cap || acc > (cap - dg) / 10 {
            proof {
                let d = s@.subrange(start as int, s@.len() as int);
                assert(d.subrange(0, (i + 1 - start) as int) =~= s@.subrange(start as int, (i + 1) as int));
                lemma_digits_prefix(d, (i + 1 - start) as int);
                assert(acc * 10 + dg > cap) by (nonlinear_arith)
                    requires
                        dg > cap || acc > (cap - dg) / 10,
                ;
            }
            return None;
        }
        acc = acc * 10 + dg;
        i = i + 1;
    }
    assert(s@.subrange(start as int, s@.len() as int) =~= s@.subrange(start as int, i as int));
    Some(acc)
}

/// `str::parse::<u64>` on bytes.
pub fn parse_u64(s: &[u8]) -> (r: Option<u64>)
    ensures
        r == spec_parse_u64(s@),
{
    let start: usize = if s.len() > 0 && s[0] == 43u8 {
        1
    } else {
        0
    };
    if start == s.len() {
        return None;
    }
    assert(s@.subrange(start as int, s@.len() as int) =~= (if s@.len() > 0 && s@[0] == 43u8 {
        s@.drop_first()
    } else {
        s@
    }));
    digits_upto(s, start, u64::MAX)
}

/// `str::parse::<i64>` on bytes.
pub fn parse_i64(s: &[u8]) -> (r: Option<i64>)
    ensures
        r == spec_parse_i64(s@),
{
    let signed = s.len() > 0 && (s[0] == 43u8 || s[0] == 45u8);
    let negative = s.len() > 0 && s[0] == 45u8;
    let start: usize = if signed {
        1
    } else {
        0
    };
    if start == s.len() {
        return None;
    }
    let ghost d = s@.subrange(start as int, s@.len() as int);
    assert(d =~= (if signed {
        s@.drop_first()
    } else {
        s@
    }));
    match digits_upto(s, start, 9223372036854775808u64) {
        None => None,
        Some(m) => {
            if negative {
                if m == 9223372036854775808u64 {
                    Some(i64::MIN)
                } else {
                    Some(-(m as i64))
                }
            } else if m <= 9223372036854775807u64 {
                Some(m as i64)
            } else {
                None
            }
        },
    }
}

} // verus!

verus! {

/// The character of a decimal digit.
pub open spec fn digit_char(d: nat) -> char {
    if d == 0 {
        '0'
    } else if d == 1 {
        '1'
    } else if d == 2 {
        '2'
    } else if d == 3 {
        '3'
    } else if d == 4 {
        '4'
    } else if d == 5 {
        '5'
    } else if d == 6 {
        '6'
    } else if d == 7 {
        '7'
    } else if d == 8 {
        '8'
    } else {
        '9'
    }
}

/// `n` in decimal, without leading zeros.
pub open spec fn dec(n: nat) -> Seq<char>
    decreases n,
{
    if n < 10 {
        seq![digit_char(n)]
    } else {
        dec(n / 10).push(digit_char(n % 10))
    }
}

/// `n` in decimal, with a `-` when it is negative.
pub open spec fn dec_signed(n: int) -> Seq<char> {
    if n < 0 {
        seq!['-'] + dec((-n) as nat)
    } else {
        dec(n as nat)
    }
}

/// The text of one decimal digit.
fn digit_text(d: u64) -> (r: &'static str)
    requires
        d < 10,
    ensures
        r@ == seq![digit_char(d as nat)],
{
    proof {
        reveal_strlit("0");
        reveal_strlit("1");
        reveal_strlit("2");
        reveal_strlit("3");
        reveal_strlit("4");
        reveal_strlit("5");
        reveal_strlit("6");
        reveal_strlit("7");
        reveal_strlit("8");
        reveal_strlit("9");
    }
    match d {
        0 => "0",
        1 => "1",
        2 => "2",
        3 => "3",
        4 => "4",
        5 => "5",
        6 => "6",
        7 => "7",
        8 => "8",
        _ => "9",
    }
}

/// Appends `n` in decimal to `out` ([`dec`]).
pub fn push_u64(out: &mut String, n: u64)
    ensures
        final(out)@ == old(out)@ + dec(n as nat),
    decreases n,
{
    if n >= 10 {
        push_u64(out, n / 10);
    }
    let ghost mid = out@;
    out.append(digit_text(n % 10));
    proof {
        if n >= 10 {
            assert(out@ =~= old(out)@ + dec(n as nat));
        } else {
            assert(out@ =~= old(out)@ + dec(n as nat));
        }
    }
}

/// Appends `n` in decimal to `out`, with a `-` when it is negative ([`dec_signed`]).
pub fn push_i64(out: &mut String, n: i64)
    ensures
        final(out)@ == old(out)@ + dec_signed(n as int),
{
    if n < 0 {
        proof {
            reveal_strlit("-");
        }
        out.append("-");
        let m: u64 = if n == i64::MIN {
            9223372036854775808u64
        } else {
            (-n) as u64
        };
        let ghost mid = out@;
        push_u64(out, m);
        assert(out@ =~= old(out)@ + dec_signed(n as int));
    } else {
        push_u64(out, n as u64);
    }
}

/// `a`, `n` in decimal, then `b`: a message.
pub fn message_u64(a: &str, n: u64, b: &str) -> (r: String)
    ensures
        r@ == a@ + dec(n as nat) + b@,
{
    let mut out = String::new();
    out.append(a);
    push_u64(&mut out, n);
    out.append(b);
    assert(out@ =~= a@ + dec(n as nat) + b@);
    out
}

/// `a`, `n` in decimal, then `b`: a message.
pub fn message_i64(a: &str, n: i64, b: &str) -> (r: String)
    ensures
        r@ == a@ + dec_signed(n as int) + b@,
{
    let mut out = String::new();
    out.append(a);
    push_i64(&mut out, n);
    out.append(b);
    assert(out@ =~= a@ + dec_signed(n as int) + b@);
    out
}

/// `a`, `s`, then `b`: a message.
pub fn message_str(a: &str, s: &str, b: &str) -> (r: String)
    ensures
        r@ == a@ + s@ + b@,
{
    let mut out = String::new();
    out.append(a);
    out.append(s);
    out.append(b);
    assert(out@ =~= a@ + s@ + b@);
    out
}

} // verus!

verus! {

/// `std::str::from_utf8`, as a test: its documentation says it fails exactly when the bytes are
/// not valid UTF-8.
#[verifier::external_body]
pub(crate) fn is_utf8(b: &[u8]) -> (r: bool)
    ensures
        r == vstd::utf8::valid_utf8(b@),
{
    std::str::from_utf8(b).is_ok()
}

/// The text `String::from_utf8_lossy` makes of the bytes `b`.
pub uninterp spec fn lossy_text(b: Seq<u8>) -> Seq<char>;

/// `String::from_utf8_lossy`, owned: the text of `b` ([`lossy_text`], a function of the bytes
/// alone). The documentation of std says that bytes which are valid UTF-8 give the text they
/// encode; what invalid sequences become (U+FFFD) is left to the name.
#[verifier::external_body]
pub(crate) fn string_from_utf8_lossy(b: &[u8]) -> (r: String)
    ensures
        r@ == lossy_text(b@),
        vstd::utf8::valid_utf8(b@) ==> r@ == vstd::utf8::decode_utf8(b@),
{
    String::from_utf8_lossy(b).into_owned()
}

} // verus!
