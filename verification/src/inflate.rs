//! Inflate, the deflate format's decoder: canonical Huffman codes decoded bit by bit.
use vstd::prelude::*;
use vstd::slice::slice_subrange;

verus! {

/// A reader of the bits of `data`, least significant bit of each byte first.
pub struct Bits<'a> {
    pub data: &'a [u8],
    pub pos: usize,
    pub buf: u64,
    pub count: u32,
}

impl<'a> Bits<'a> {
    /// The reader's state is consistent: it holds the bits from [`Bits::at`] up to the next
    /// byte to read, fewer than eight of them.
    pub open spec fn wf(&self) -> bool {
        &&& self.pos <= self.data@.len()
        &&& self.count < 8
        &&& self.count <= 8 * self.pos
        &&& self.buf < pow2_64(self.count as nat)
        &&& self.buf == lsb(self.data@, self.at(), self.count as nat)
    }

    /// The position, in bits from the start of the data, of the next bit to read.
    pub open spec fn at(&self) -> int {
        8 * self.pos - self.count
    }

    /// How many bits are left to read.
    pub open spec fn remaining(&self) -> int {
        8 * (self.data@.len() - self.pos) + self.count
    }

    /// The next `n` bits, as a number whose bit `k` is the `k`-th bit read ([`lsb`]); an error
    /// when the data ends before them.
    pub fn bits(&mut self, n: u32) -> (r: Result<u32, String>)
        requires
            old(self).wf(),
            n <= 32,
        ensures
            final(self).wf(),
            final(self).data == old(self).data,
            match r {
                Ok(v) => {
                    &&& v == lsb(old(self).data@, old(self).at(), n as nat)
                    &&& v < pow2_64(n as nat)
                    &&& final(self).at() == old(self).at() + n
                    &&& final(self).remaining() == old(self).remaining() - n
                },
                Err(_) => old(self).remaining() < n && *final(self) == *old(self),
            },
    {
        let ghost at0 = self.at();
        let ghost d = self.data@;
        let (pos0, buf0, count0) = (self.pos, self.buf, self.count);
        while self.count < n
            invariant
                self.data == old(self).data,
                d == self.data@,
                self.pos <= d.len(),
                self.count < n + 8,
                self.count <= 8 * self.pos,
                self.at() == at0,
                self.buf < pow2_64(self.count as nat),
                self.buf == lsb(d, at0, self.count as nat),
                self.remaining() == old(self).remaining(),
                n <= 32,
                pos0 == old(self).pos,
                buf0 == old(self).buf,
                count0 == old(self).count,
                old(self).wf(),
            decreases self.data@.len() - self.pos,
        {
            if self.pos >= self.data.len() {
                self.pos = pos0;
                self.buf = buf0;
                self.count = count0;
                return Err("the compressed data ends early".to_string());
            }
            let b = self.data[self.pos];
            let c = self.count;
            let old_buf = self.buf;
            proof {
                lemma_or_shift(old_buf, b, c);
                lemma_or_is_add(old_buf, b, c);
                lemma_lsb_split(d, at0, c as nat, 8);
                lemma_byte(d, self.pos as int);
                assert(at0 + c == 8 * self.pos);
                assert(lsb(d, at0 + c, 8) == b);
                assert(lsb(d, at0, (c + 8) as nat) == old_buf + pow2_64(c as nat) * b);
                assert(pow2_64(c as nat) * b == (b as int) * pow2_64(c as nat)) by (nonlinear_arith);
            }
            self.pos = self.pos + 1;
            self.buf = old_buf | ((b as u64) << (c as u64));
            self.count = c + 8;
        }
        let c = self.count;
        let buf = self.buf;
        let one: u64 = 1;
        assert(n <= 32 ==> (1u64 << (n as u64)) >= 1) by (bit_vector);
        let m: u64 = (one << (n as u64)) - 1;
        proof {
            lemma_low_bits(buf, n, c, m);
            lemma_take_bits(d, at0, buf, n, c, m);
        }
        let v = (buf & m) as u32;
        self.buf = buf >> (n as u64);
        self.count = c - n;
        Ok(v)
    }
}

/// Bit `i` of the data, counting from the least significant bit of its first byte.
pub open spec fn bit_at(d: Seq<u8>, i: int) -> int {
    (d[i / 8] as int / pow2_64((i % 8) as nat)) % 2
}

/// The `n` bits from bit `p` on, as a number whose bit `k` is bit `p + k` of the data.
pub open spec fn lsb(d: Seq<u8>, p: int, n: nat) -> int
    decreases n,
{
    if n == 0 {
        0
    } else {
        lsb(d, p, (n - 1) as nat) + bit_at(d, p + n - 1) * pow2_64((n - 1) as nat)
    }
}

/// `2^(a + b) = 2^a 2^b`.
proof fn lemma_pow2_add(a: nat, b: nat)
    ensures
        pow2_64(a + b) == pow2_64(a) * pow2_64(b),
    decreases b,
{
    if b > 0 {
        lemma_pow2_add(a, (b - 1) as nat);
        let x = pow2_64(a);
        let y = pow2_64((b - 1) as nat);
        assert(2 * (x * y) == x * (2 * y)) by (nonlinear_arith);
    }
}

/// A bit is 0 or 1, and `n` bits are below `2^n`.
proof fn lemma_lsb_bound(d: Seq<u8>, p: int, n: nat)
    ensures
        0 <= lsb(d, p, n) < pow2_64(n),
    decreases n,
{
    lemma_pow2_pos(n);
    if n > 0 {
        lemma_lsb_bound(d, p, (n - 1) as nat);
        lemma_pow2_pos((n - 1) as nat);
        let q = pow2_64(((p + n - 1) % 8) as nat);
        lemma_pow2_pos(((p + n - 1) % 8) as nat);
        assert(0 <= bit_at(d, p + n - 1) <= 1);
        let e = bit_at(d, p + n - 1);
        let w = pow2_64((n - 1) as nat);
        assert(0 <= e * w <= w) by (nonlinear_arith)
            requires
                0 <= e <= 1,
                w > 0,
        ;
    }
}

/// `a + b` bits are the first `a` and, above them, the next `b`.
proof fn lemma_lsb_split(d: Seq<u8>, p: int, a: nat, b: nat)
    ensures
        lsb(d, p, a + b) == lsb(d, p, a) + pow2_64(a) * lsb(d, p + a, b),
    decreases b,
{
    if b > 0 {
        lemma_lsb_split(d, p, a, (b - 1) as nat);
        lemma_pow2_add(a, (b - 1) as nat);
        let x = pow2_64(a);
        let y = pow2_64((b - 1) as nat);
        let e = bit_at(d, p + a + b - 1);
        let l = lsb(d, p + a, (b - 1) as nat);
        assert(x * (l + e * y) == x * l + e * (x * y)) by (nonlinear_arith);
    }
}

/// The 8 bits of byte `q` are the byte.
#[verifier::spinoff_prover]
proof fn lemma_byte(d: Seq<u8>, q: int)
    requires
        0 <= q < d.len(),
    ensures
        lsb(d, 8 * q, 8) == d[q],
{
    assert(pow2_64(0) == 1 && pow2_64(1) == 2 && pow2_64(2) == 4 && pow2_64(3) == 8 && pow2_64(4) == 16 && pow2_64(5)
        == 32 && pow2_64(6) == 64 && pow2_64(7) == 128) by {
        reveal_with_fuel(pow2_64, 8);
    }
    reveal_with_fuel(lsb, 2);
    let b = d[q] as int;
    assert(bit_at(d, 8 * q) == b % 2);
    assert(bit_at(d, 8 * q + 1) == (b / 2) % 2);
    assert(bit_at(d, 8 * q + 2) == (b / 4) % 2);
    assert(bit_at(d, 8 * q + 3) == (b / 8) % 2);
    assert(bit_at(d, 8 * q + 4) == (b / 16) % 2);
    assert(bit_at(d, 8 * q + 5) == (b / 32) % 2);
    assert(bit_at(d, 8 * q + 6) == (b / 64) % 2);
    assert(bit_at(d, 8 * q + 7) == (b / 128) % 2);
    let p = 8 * q;
    assert(lsb(d, p, 1) == b % 2);
    assert(lsb(d, p, 2) == lsb(d, p, 1) + 2 * ((b / 2) % 2));
    assert(lsb(d, p, 3) == lsb(d, p, 2) + 4 * ((b / 4) % 2));
    assert(lsb(d, p, 4) == lsb(d, p, 3) + 8 * ((b / 8) % 2));
    assert(lsb(d, p, 5) == lsb(d, p, 4) + 16 * ((b / 16) % 2));
    assert(lsb(d, p, 6) == lsb(d, p, 5) + 32 * ((b / 32) % 2));
    assert(lsb(d, p, 7) == lsb(d, p, 6) + 64 * ((b / 64) % 2));
    assert(lsb(d, p, 8) == lsb(d, p, 7) + bit_at(d, p + 7) * pow2_64(7));
    assert(lsb(d, p, 8) == lsb(d, p, 7) + 128 * ((b / 128) % 2));
    assert(b == b % 2 + 2 * ((b / 2) % 2) + 4 * ((b / 4) % 2) + 8 * ((b / 8) % 2) + 16 * ((b / 16) % 2) + 32 * ((b
        / 32) % 2) + 64 * ((b / 64) % 2) + 128 * ((b / 128) % 2)) by (nonlinear_arith)
        requires
            0 <= b < 256,
    ;
}

/// A byte or'ed in above `c` bits adds it times `2^c`.
proof fn lemma_or_is_add(buf: u64, b: u8, c: u32)
    requires
        c < 32,
        buf < pow2_64(c as nat),
    ensures
        (buf | ((b as u64) << (c as u64))) == buf + (b as int) * pow2_64(c as nat),
{
    lemma_pow2_shift(c as nat);
    assert(buf < (1u64 << (c as u64)) ==> (buf | ((b as u64) << (c as u64))) == buf + (b as u64) * (1u64 << (c
        as u64))) by (bit_vector)
        requires
            c < 32,
    ;
}

/// `pow2_64` is vstd's `pow2`.
proof fn lemma_pow2_same(k: nat)
    ensures
        pow2_64(k) == vstd::arithmetic::power2::pow2(k),
    decreases k,
{
    if k == 0 {
        vstd::arithmetic::power2::lemma2_to64();
    } else {
        lemma_pow2_same((k - 1) as nat);
        vstd::arithmetic::power2::lemma_pow2_unfold(k);
    }
}

/// The low `n` of the `c` bits held are the next `n` bits, and the rest the ones after.
proof fn lemma_take_bits(d: Seq<u8>, at0: int, buf: u64, n: u32, c: u32, m: u64)
    requires
        n <= 32,
        n <= c,
        c <= 40,
        buf == lsb(d, at0, c as nat),
        m == ((1u64 << (n as u64)) - 1) as u64,
    ensures
        (buf & m) == lsb(d, at0, n as nat),
        (buf >> (n as u64)) == lsb(d, at0 + n, (c - n) as nat),
{
    lemma_pow2_shift(n as nat);
    lemma_pow2_same(n as nat);
    lemma_lsb_split(d, at0, n as nat, (c - n) as nat);
    lemma_lsb_bound(d, at0, n as nat);
    lemma_lsb_bound(d, at0 + n, (c - n) as nat);
    let p = pow2_64(n as nat);
    assert(vstd::bits::low_bits_mask(n as nat) == m);
    vstd::bits::lemma_u64_low_bits_mask_is_mod(buf, n as nat);
    vstd::bits::lemma_u64_shr_is_div(buf, n as u64);
    vstd::arithmetic::div_mod::lemma_fundamental_div_mod_converse(
        buf as int,
        p,
        lsb(d, at0 + n, (c - n) as nat),
        lsb(d, at0, n as nat),
    );
}

/// `2^k`, for `k` below 64.
pub open spec fn pow2_64(k: nat) -> int
    decreases k,
{
    if k == 0 {
        1
    } else {
        2 * pow2_64((k - 1) as nat)
    }
}

/// The powers of two up to `2^16`.
proof fn lemma_pow2_small()
    ensures
        pow2_64(1) == 2,
        pow2_64(2) == 4,
        pow2_64(3) == 8,
        pow2_64(4) == 16,
        pow2_64(5) == 32,
        pow2_64(7) == 128,
        pow2_64(13) == 8192,
        pow2_64(15) == 32768,
        forall|k: nat| k < 15 ==> pow2_64(k) <= 16384,
        forall|k: nat| k <= 16 ==> pow2_64(k) <= 65536,
{
    reveal_with_fuel(pow2_64, 17);
    assert forall|k: nat| k <= 16 implies pow2_64(k) <= 65536 by {
        lemma_pow2_mono(k, 16);
    }
    assert forall|k: nat| k < 15 implies pow2_64(k) <= 16384 by {
        lemma_pow2_mono(k, 14);
    }
}

/// Powers of two grow.
proof fn lemma_pow2_mono(a: nat, b: nat)
    requires
        a <= b,
    ensures
        pow2_64(a) <= pow2_64(b),
    decreases b,
{
    lemma_pow2_pos(b);
    if a < b {
        lemma_pow2_mono(a, (b - 1) as nat);
    }
}

/// Powers of two are positive.
proof fn lemma_pow2_pos(k: nat)
    ensures
        pow2_64(k) > 0,
    decreases k,
{
    if k > 0 {
        lemma_pow2_pos((k - 1) as nat);
    }
}

/// A byte or'ed in above `c` bits keeps the buffer below `2^(c + 8)`.
proof fn lemma_or_shift(buf: u64, b: u8, c: u32)
    requires
        c < 32,
        buf < pow2_64(c as nat),
    ensures
        (buf | ((b as u64) << (c as u64))) < pow2_64((c + 8) as nat),
        (buf | ((b as u64) << (c as u64))) >= 0,
{
    lemma_pow2_shift(c as nat);
    lemma_pow2_shift((c + 8) as nat);
    let p = pow2_64(c as nat) as u64;
    let q = pow2_64((c + 8) as nat) as u64;
    assert(p == (1u64 << (c as u64)));
    assert(q == (1u64 << ((c + 8) as u64)));
    assert(buf < (1u64 << (c as u64)) ==> (buf | ((b as u64) << (c as u64))) < (1u64 << ((c + 8)
        as u64))) by (bit_vector)
        requires
            c < 32,
    ;
}

/// `2^k` is `1 << k`.
proof fn lemma_pow2_shift(k: nat)
    requires
        k < 64,
    ensures
        pow2_64(k) == (1u64 << (k as u64)),
    decreases k,
{
    if k == 0 {
        assert((1u64 << 0u64) == 1) by (bit_vector);
    } else {
        lemma_pow2_shift((k - 1) as nat);
        let j = (k - 1) as u64;
        assert(j < 63 ==> (1u64 << (j + 1)) == 2 * (1u64 << j)) by (bit_vector);
    }
}

/// Taking the low `n` of `c` bits, and shifting them out.
proof fn lemma_low_bits(buf: u64, n: u32, c: u32, m: u64)
    requires
        n <= 32,
        n <= c,
        c <= 40,
        buf < pow2_64(c as nat),
        m == ((1u64 << (n as u64)) - 1) as u64,
    ensures
        (buf & m) < pow2_64(n as nat),
        (buf & m) <= u32::MAX,
        (buf >> (n as u64)) < pow2_64((c - n) as nat),
{
    lemma_pow2_shift(n as nat);
    lemma_pow2_shift(c as nat);
    lemma_pow2_shift((c - n) as nat);
    assert((buf & m) < (1u64 << (n as u64))) by (bit_vector)
        requires
            n <= 32,
            m == ((1u64 << (n as u64)) - 1) as u64,
    ;
    assert(n <= 32 ==> (1u64 << (n as u64)) <= 4294967296u64) by (bit_vector);
    assert(buf < (1u64 << (c as u64)) ==> (buf >> (n as u64)) < (1u64 << ((c - n) as u64))) by (
    bit_vector)
        requires
            n <= c,
            c <= 40,
    ;
}

// ---------------------------------------------------------------------------------------------
// Canonical Huffman codes
// ---------------------------------------------------------------------------------------------
/// How many of the first `n` symbols have code length `l`.
pub open spec fn count_upto(lengths: Seq<u8>, l: int, n: int) -> nat
    decreases n,
{
    if n <= 0 {
        0
    } else {
        count_upto(lengths, l, n - 1) + if lengths[n - 1] == l {
            1nat
        } else {
            0nat
        }
    }
}

/// How many symbols have code length `l`.
pub open spec fn count_len(lengths: Seq<u8>, l: int) -> nat {
    count_upto(lengths, l, lengths.len() as int)
}

/// The first code of length `l`: the codes of each length follow those of the length before,
/// shifted one bit left.
pub open spec fn first_code(lengths: Seq<u8>, l: int) -> int
    decreases l,
{
    if l <= 1 {
        0
    } else {
        (first_code(lengths, l - 1) + count_len(lengths, l - 1)) * 2
    }
}

/// How many codes are shorter than `l` (and at least 1 bit long).
pub open spec fn offset(lengths: Seq<u8>, l: int) -> nat
    decreases l,
{
    if l <= 1 {
        0
    } else {
        offset(lengths, l - 1) + count_len(lengths, l - 1)
    }
}

/// Symbol `s`'s place among the symbols of its length: codes of one length go to the symbols in
/// their order.
pub open spec fn rank(lengths: Seq<u8>, s: int) -> nat {
    count_upto(lengths, lengths[s] as int, s)
}

/// The codes left unused at length `l` (Kraft's sum, scaled): an over-subscribed set of lengths
/// drives it below 0.
pub open spec fn kraft(lengths: Seq<u8>, l: int) -> int
    decreases l,
{
    if l <= 0 {
        1
    } else {
        2 * kraft(lengths, l - 1) - count_len(lengths, l)
    }
}

/// The lengths make a prefix code: no length's codes are over-subscribed.
pub open spec fn complete_enough(lengths: Seq<u8>) -> bool {
    forall|l: int| 1 <= l < 16 ==> kraft(lengths, l) >= 0
}

/// The symbol of length `l` whose place among them is `v`.
pub open spec fn sym_at(lengths: Seq<u8>, l: int, v: int) -> int {
    choose|s: int| 0 <= s < lengths.len() && lengths[s] == l && rank(lengths, s) == v
}

/// The `n` bits from bit `p` on read as a code, the first bit the most significant.
pub open spec fn msb(d: Seq<u8>, p: int, n: nat) -> int
    decreases n,
{
    if n == 0 {
        0
    } else {
        2 * msb(d, p, (n - 1) as nat) + bit_at(d, p + n - 1)
    }
}

/// The symbol whose code starts at bit `p`, trying lengths from `l` on, with the bits it takes;
/// none when the data ends first or no code of 15 bits or fewer matches.
pub open spec fn huff_decode(lengths: Seq<u8>, d: Seq<u8>, p: int, l: int) -> Option<(int, int)>
    decreases 16 - l,
{
    if l < 1 || l >= 16 || p + l > 8 * d.len() {
        None
    } else {
        let v = msb(d, p, l as nat) - first_code(lengths, l);
        if 0 <= v < count_len(lengths, l) {
            Some((sym_at(lengths, l, v), l))
        } else {
            huff_decode(lengths, d, p, l + 1)
        }
    }
}

proof fn lemma_count_upto_mono(lengths: Seq<u8>, l: int, a: int, b: int)
    requires
        0 <= a <= b <= lengths.len(),
    ensures
        count_upto(lengths, l, a) <= count_upto(lengths, l, b),
        count_upto(lengths, l, b) <= count_upto(lengths, l, a) + (b - a),
    decreases b - a,
{
    if a < b {
        lemma_count_upto_mono(lengths, l, a, b - 1);
    }
}

/// Every place below a length's count is some symbol's.
proof fn lemma_rank_onto(lengths: Seq<u8>, l: int, v: int, n: int)
    requires
        0 <= n <= lengths.len(),
        0 <= v < count_upto(lengths, l, n),
    ensures
        exists|s: int| 0 <= s < n && lengths[s] == l && rank(lengths, s) == v,
    decreases n,
{
    if v < count_upto(lengths, l, n - 1) {
        lemma_rank_onto(lengths, l, v, n - 1);
        let s = choose|s: int| 0 <= s < n - 1 && lengths[s] == l && rank(lengths, s) == v;
        assert(0 <= s < n && lengths[s] == l && rank(lengths, s) == v);
    } else {
        assert(lengths[n - 1] == l && rank(lengths, n - 1) == v);
    }
}

/// The symbols of one length have distinct places.
proof fn lemma_rank_distinct(lengths: Seq<u8>, s: int, t: int)
    requires
        0 <= s < t < lengths.len(),
        lengths[s] == lengths[t],
    ensures
        rank(lengths, s) < rank(lengths, t),
        rank(lengths, t) < count_len(lengths, lengths[t] as int),
{
    lemma_count_upto_mono(lengths, lengths[s] as int, s + 1, t);
    lemma_count_upto_mono(lengths, lengths[t] as int, t + 1, lengths.len() as int);
}

/// A symbol's place is below its length's count.
proof fn lemma_rank_bound(lengths: Seq<u8>, s: int)
    requires
        0 <= s < lengths.len(),
    ensures
        rank(lengths, s) < count_len(lengths, lengths[s] as int),
{
    lemma_count_upto_mono(lengths, lengths[s] as int, s + 1, lengths.len() as int);
}

/// Offsets grow with the length.
proof fn lemma_offset_mono(lengths: Seq<u8>, a: int, b: int)
    requires
        1 <= a <= b,
    ensures
        offset(lengths, a) + (if a < b {
            count_len(lengths, a)
        } else {
            0
        }) <= offset(lengths, b),
    decreases b - a,
{
    if a < b {
        lemma_offset_mono(lengths, a, b - 1);
        if a < b - 1 {
            assert(offset(lengths, b) == offset(lengths, b - 1) + count_len(lengths, b - 1));
        }
    }
}

/// The counts of the lengths below 16 add up to the number of symbols, when every length is
/// below 16.
proof fn lemma_counts_total(lengths: Seq<u8>, n: int)
    requires
        0 <= n <= lengths.len(),
        forall|i: int| 0 <= i < lengths.len() ==> #[trigger] lengths[i] < 16,
    ensures
        sum_upto(lengths, n, 16) == n,
    decreases n,
{
    if n > 0 {
        lemma_counts_total(lengths, n - 1);
        lemma_sum_step(lengths, n, 16);
        assert(lengths[n - 1] < 16);
    } else {
        lemma_sum_zero(lengths, 16);
    }
}

/// The counts at length below `k` of the first `n` symbols.
pub open spec fn sum_upto(lengths: Seq<u8>, n: int, k: int) -> int
    decreases k,
{
    if k <= 0 {
        0
    } else {
        sum_upto(lengths, n, k - 1) + count_upto(lengths, k - 1, n)
    }
}

proof fn lemma_sum_step(lengths: Seq<u8>, n: int, k: int)
    requires
        0 < n <= lengths.len(),
        0 <= k,
    ensures
        sum_upto(lengths, n, k) == sum_upto(lengths, n - 1, k) + (if lengths[n - 1] < k {
            1int
        } else {
            0int
        }),
    decreases k,
{
    if k > 0 {
        lemma_sum_step(lengths, n, k - 1);
    }
}

/// No symbol is among the first 0.
proof fn lemma_sum_zero(lengths: Seq<u8>, k: int)
    requires
        0 <= k,
    ensures
        sum_upto(lengths, 0, k) == 0,
    decreases k,
{
    if k > 0 {
        lemma_sum_zero(lengths, k - 1);
    }
}

/// The offset of length `l` counts the symbols of lengths 1 to `l - 1`.
proof fn lemma_offset_sum(lengths: Seq<u8>, l: int)
    requires
        1 <= l,
    ensures
        offset(lengths, l) + count_len(lengths, 0) == sum_upto(lengths, lengths.len() as int, l),
    decreases l,
{
    if l > 1 {
        lemma_offset_sum(lengths, l - 1);
    } else {
        assert(sum_upto(lengths, lengths.len() as int, 0) == 0);
    }
}

/// Where symbol `s` goes in the decoder's table: its length's offset plus its place.
pub open spec fn slot(lengths: Seq<u8>, s: int) -> int {
    (offset(lengths, lengths[s] as int) + rank(lengths, s)) as int
}

/// A canonical Huffman code, as the decoder uses it: how many codes of each length, and the
/// symbols in code order (by length, then by symbol).
pub struct Huffman {
    pub counts: Vec<u16>,
    pub symbols: Vec<u16>,
    /// The code lengths it was made from.
    pub lengths: Ghost<Seq<u8>>,
}

impl Huffman {
    /// The tables are those of the code the lengths define: the counts of each length, and each
    /// symbol with a code at its length's offset plus its place.
    pub open spec fn wf(&self) -> bool {
        let ls = self.lengths@;
        &&& ls.len() <= 320
        &&& forall|i: int| 0 <= i < ls.len() ==> #[trigger] ls[i] < 16
        &&& self.symbols@.len() == ls.len()
        &&& self.counts@.len() == 16
        &&& forall|k: int| 0 <= k < 16 ==> #[trigger] self.counts@[k] == count_len(ls, k)
        &&& forall|k: int| 0 <= k < 16 ==> #[trigger] self.counts@[k] <= 320
        &&& forall|s: int|
            0 <= s < ls.len() && ls[s] != 0 ==> #[trigger] self.symbols@[slot(ls, s)]
                == s
    }

    /// Builds the code of the symbol lengths `lengths` (0: no code). An over-subscribed set is an
    /// error; an incomplete one is allowed (a missing code is an error only if it is read).
    pub fn new(lengths: &[u8]) -> (r: Result<Huffman, String>)
        requires
            lengths@.len() <= 320,
            forall|i: int| 0 <= i < lengths@.len() ==> #[trigger] lengths@[i] < 16,
        ensures
            match r {
                Ok(h) => h.wf() && h.lengths@ == lengths@ && complete_enough(lengths@),
                Err(_) => !complete_enough(lengths@),
            },
    {
        let ghost ls = lengths@;
        let mut counts: Vec<u16> = vec![0u16; 16];
        let mut i: usize = 0;
        while i < lengths.len()
            invariant
                ls == lengths@,
                counts@.len() == 16,
                i <= lengths@.len(),
                lengths@.len() <= 320,
                forall|k: int| 0 <= k < lengths@.len() ==> #[trigger] lengths@[k] < 16,
                forall|k: int| 0 <= k < 16 ==> #[trigger] counts@[k] == count_upto(ls, k, i as int),
            decreases lengths@.len() - i,
        {
            let l = lengths[i] as usize;
            let c = counts[l];
            proof {
                lemma_count_upto_mono(ls, l as int, 0, i as int);
            }
            counts.set(l, c + 1);
            i = i + 1;
        }
        let mut left: i32 = 1;
        let mut len: usize = 1;
        proof {
            lemma_pow2_small();
            assert forall|k: int| 0 <= k < 16 implies #[trigger] count_len(ls, k) <= 320 by {
                lemma_count_upto_mono(ls, k, 0, ls.len() as int);
            }
        }
        while len < 16
            invariant
                ls == lengths@,
                counts@.len() == 16,
                1 <= len <= 16,
                left == kraft(ls, len - 1),
                0 <= left <= pow2_64((len - 1) as nat),
                pow2_64(15) == 32768,
                forall|k: nat| k < 15 ==> pow2_64(k) <= 16384,
                forall|k: int| 0 <= k < 16 ==> #[trigger] counts@[k] == count_len(ls, k),
                forall|k: int| 0 <= k < 16 ==> #[trigger] count_len(ls, k) <= 320,
                forall|k: int| 1 <= k < len ==> kraft(ls, k) >= 0,
            decreases 16 - len,
        {
            left = left * 2;
            left = left - counts[len] as i32;
            if left < 0 {
                assert(kraft(ls, len as int) < 0);
                return Err("an over-subscribed Huffman code".to_string());
            }
            len = len + 1;
        }
        let mut offs: Vec<u16> = vec![0u16; 16];
        let mut len: usize = 1;
        while len < 15
            invariant
                ls == lengths@,
                counts@.len() == 16,
                offs@.len() == 16,
                1 <= len <= 15,
                forall|k: int| 0 <= k < 16 ==> #[trigger] counts@[k] == count_len(ls, k),
                forall|k: int| 0 <= k < 16 ==> #[trigger] count_len(ls, k) <= 320,
                forall|k: int| 1 <= k <= len ==> #[trigger] offs@[k] == offset(ls, k),
                forall|k: int| 1 <= k <= len ==> #[trigger] offset(ls, k) <= 320 * k,
            decreases 15 - len,
        {
            let o = offs[len] + counts[len];
            offs.set(len + 1, o);
            len = len + 1;
        }
        let ghost init_offs = offs@;
        let mut symbols: Vec<u16> = vec![0u16; lengths.len()];
        let mut sym: usize = 0;
        proof {
            lemma_counts_total(ls, ls.len() as int);
            lemma_offset_sum(ls, 16);
        }
        while sym < lengths.len()
            invariant
                ls == lengths@,
                counts@.len() == 16,
                forall|k: int| 0 <= k < 16 ==> #[trigger] counts@[k] == count_len(ls, k),
                sym <= lengths@.len(),
                lengths@.len() <= 320,
                symbols@.len() == lengths@.len(),
                offs@.len() == 16,
                forall|k: int| 0 <= k < lengths@.len() ==> #[trigger] lengths@[k] < 16,
                forall|k: int| 1 <= k < 16 ==> #[trigger] offs@[k] == offset(ls, k) + count_upto(ls, k, sym as int),
                offset(ls, 16) + count_len(ls, 0) == ls.len(),
                forall|s: int|
                    0 <= s < sym && ls[s] != 0 ==> #[trigger] symbols@[slot(ls, s)] == s,
            decreases lengths@.len() - sym,
        {
            let l = lengths[sym] as usize;
            if l != 0 {
                proof {
                    lemma_rank_bound(ls, sym as int);
                    lemma_offset_mono(ls, l as int, 16);
                    lemma_count_upto_mono(ls, 0, 0, ls.len() as int);
                }
                let o = offs[l] as usize;
                assert(o == offset(ls, l as int) + rank(ls, sym as int));
                if o >= symbols.len() {
                    return Err("an over-subscribed Huffman code".to_string());
                }
                let ghost before = symbols@;
                symbols.set(o, sym as u16);
                offs.set(l, (o + 1) as u16);
                proof {
                    assert forall|s: int|
                        0 <= s < sym + 1 && ls[s] != 0 implies #[trigger] symbols@[slot(ls, s)]
                        == s by {
                        if s < sym {
                            let ps = slot(ls, s);
                            lemma_rank_bound(ls, s);
                            lemma_offset_mono(ls, ls[s] as int, 16);
                            if ps == o {
                                if ls[s] == l {
                                    lemma_rank_distinct(ls, s, sym as int);
                                } else if (ls[s] as int) < l {
                                    lemma_rank_bound(ls, s);
                                    lemma_offset_mono(ls, ls[s] as int, l as int);
                                } else {
                                    lemma_rank_bound(ls, sym as int);
                                    lemma_offset_mono(ls, l as int, ls[s] as int);
                                }
                            }
                            assert(symbols@[ps] == before[ps]);
                        }
                    }
                }
            }
            sym = sym + 1;
        }
        assert forall|k: int| 0 <= k < 16 implies #[trigger] counts@[k] == count_len(ls, k) by {}
        Ok(Huffman { counts, symbols, lengths: Ghost(ls) })
    }

    /// The next symbol of `bits` in this code ([`huff_decode`]), the bits it takes read.
    pub fn decode(&self, bits: &mut Bits<'_>) -> (r: Result<u16, String>)
        requires
            self.wf(),
            old(bits).wf(),
        ensures
            final(bits).wf(),
            final(bits).data == old(bits).data,
            final(bits).remaining() <= old(bits).remaining(),
            match r {
                Ok(sym) => {
                    &&& huff_decode(self.lengths@, old(bits).data@, old(bits).at(), 1) == Some(
                        (sym as int, final(bits).at() - old(bits).at()),
                    )
                    &&& final(bits).remaining() < old(bits).remaining()
                },
                Err(_) => huff_decode(self.lengths@, old(bits).data@, old(bits).at(), 1) is None,
            },
    {
        let ghost ls = self.lengths@;
        let ghost d = bits.data@;
        let ghost p = bits.at();
        let mut code: i64 = 0;
        let mut first: i64 = 0;
        let mut index: i64 = 0;
        let mut len: usize = 1;
        proof {
            lemma_pow2_small();
            lemma_counts_total(ls, ls.len() as int);
            lemma_offset_sum(ls, 16);
            lemma_count_upto_mono(ls, 0, 0, ls.len() as int);
        }
        while len < 16
            invariant
                self.wf(),
                ls == self.lengths@,
                bits.wf(),
                bits.data == old(bits).data,
                d == bits.data@,
                p == old(bits).at(),
                1 <= len <= 16,
                bits.at() == p + len - 1,
                len > 1 ==> bits.remaining() < old(bits).remaining(),
                len == 1 ==> bits.remaining() == old(bits).remaining(),
                code == 2 * msb(d, p, (len - 1) as nat),
                first == first_code(ls, len as int),
                index == offset(ls, len as int),
                code >= first,
                huff_decode(ls, d, p, 1) == huff_decode(ls, d, p, len as int),
                offset(ls, 16) + count_len(ls, 0) == ls.len(),
                0 <= code <= 2 * pow2_64(len as nat) - 2,
                0 <= first <= 640 * pow2_64(len as nat) - 640,
                0 <= index <= 320 * len,
                pow2_64(1) == 2,
                forall|k: nat| k <= 16 ==> pow2_64(k) <= 65536,
            decreases 16 - len,
        {
            let b = bits.bits(1)?;
            proof {
                reveal_with_fuel(lsb, 2);
                assert(b == bit_at(d, p + len - 1));
            }
            assert(pow2_64((len + 1) as nat) == 2 * pow2_64(len as nat));
            // `code` is even here, so adding the bit is or'ing it in.
            code = code + (b as i64);
            assert(code == msb(d, p, len as nat));
            let count = self.counts[len] as i64;
            if code - first < count {
                let at = index + code - first;
                proof {
                    let v = code - first;
                    lemma_rank_onto(ls, len as int, v as int, ls.len() as int);
                    let s = sym_at(ls, len as int, v as int);
                    assert(0 <= s < ls.len() && ls[s] == len && rank(ls, s) == v);
                    assert(slot(ls, s) == at);
                    lemma_rank_bound(ls, s);
                    lemma_offset_mono(ls, len as int, 16);
                }
                if at < 0 || at as u64 >= self.symbols.len() as u64 {
                    return Err("an undefined Huffman code".to_string());
                }
                return Ok(self.symbols[at as usize]);
            }
            index = index + count;
            first = first + count;
            first = first * 2;
            code = code * 2;
            len = len + 1;
        }
        Err("an undefined Huffman code".to_string())
    }
}

} // verus!

verus! {

/// Base lengths of the length symbols 257 to 285.
pub const LEN_BASE: [u16; 29] = [
    3, 4, 5, 6, 7, 8, 9, 10, 11, 13, 15, 17, 19, 23, 27, 31, 35, 43, 51, 59, 67, 83, 99, 115, 131,
    163, 195, 227, 258,
];

/// Extra bits of the length symbols.
pub const LEN_EXTRA: [u8; 29] = [
    0, 0, 0, 0, 0, 0, 0, 0, 1, 1, 1, 1, 2, 2, 2, 2, 3, 3, 3, 3, 4, 4, 4, 4, 5, 5, 5, 5, 0,
];

/// Base distances of the distance symbols 0 to 29.
pub const DIST_BASE: [u16; 30] = [
    1, 2, 3, 4, 5, 7, 9, 13, 17, 25, 33, 49, 65, 97, 129, 193, 257, 385, 513, 769, 1025, 1537,
    2049, 3073, 4097, 6145, 8193, 12289, 16385, 24577,
];

/// Extra bits of the distance symbols.
pub const DIST_EXTRA: [u8; 30] = [
    0, 0, 0, 0, 1, 1, 2, 2, 3, 3, 4, 4, 5, 5, 6, 6, 7, 7, 8, 8, 9, 9, 10, 10, 11, 11, 12, 12, 13,
    13,
];

/// The order in which a dynamic block lists its code-length code lengths.
pub const ORDER: [usize; 19] = [16, 17, 18, 0, 8, 7, 9, 6, 10, 5, 11, 4, 12, 3, 13, 2, 14, 1, 15];

// ---------------------------------------------------------------------------------------------
// The stream: stored, fixed and dynamic blocks
// ---------------------------------------------------------------------------------------------
/// What a decoded code gives: the symbol, at most 15 bits taken, within the data.
pub proof fn lemma_decode_bounds(lengths: Seq<u8>, d: Seq<u8>, p: int, l: int)
    ensures
        huff_decode(lengths, d, p, l) matches Some((s, k)) ==> {
            &&& 1 <= k <= 15
            &&& p + k <= 8 * d.len()
            &&& 0 <= s < lengths.len()
            &&& lengths[s] == k
        },
    decreases 16 - l,
{
    if 1 <= l < 16 && p + l <= 8 * d.len() {
        let v = msb(d, p, l as nat) - first_code(lengths, l);
        if 0 <= v < count_len(lengths, l) {
            lemma_rank_onto(lengths, l, v, lengths.len() as int);
        } else {
            lemma_decode_bounds(lengths, d, p, l + 1);
        }
    }
}

/// `o` with `len` bytes appended, each the byte `back` before it.
pub open spec fn copy_back(o: Seq<u8>, back: int, len: nat) -> Seq<u8>
    decreases len,
{
    if len == 0 {
        o
    } else {
        copy_back(o.push(o[o.len() - back]), back, (len - 1) as nat)
    }
}

/// The copy a length symbol `sym` (above 256) starts at bit `p`, appended to `o` within `limit`
/// bytes: its length's extra bits, its distance code and extra bits; the output and the bit
/// after the copy.
pub open spec fn copy_step(
    d: Seq<u8>,
    p: int,
    o: Seq<u8>,
    sym: int,
    dist: Seq<u8>,
    limit: int,
) -> Result<(Seq<u8>, int), ()> {
    if sym - 257 >= 29 {
        Err(())
    } else {
        let ls = sym - 257;
        let le = LEN_EXTRA[ls] as int;
        if p + le > 8 * d.len() {
            Err(())
        } else {
            let len = LEN_BASE[ls] + lsb(d, p, le as nat);
            let p2 = p + le;
            match huff_decode(dist, d, p2, 1) {
                None => Err(()),
                Some((ds, k2)) => {
                    let p3 = p2 + k2;
                    if ds >= 30 {
                        Err(())
                    } else {
                        let de = DIST_EXTRA[ds] as int;
                        if p3 + de > 8 * d.len() {
                            Err(())
                        } else {
                            let back = DIST_BASE[ds] + lsb(d, p3, de as nat);
                            if back > o.len() {
                                Err(())
                            } else if limit - o.len() < len {
                                Err(())
                            } else {
                                Ok((copy_back(o, back, len as nat), p3 + de))
                            }
                        }
                    }
                },
            }
        }
    }
}

/// A copy read ends at or past its start, within the data.
pub proof fn lemma_copy_step_advances(d: Seq<u8>, p: int, o: Seq<u8>, sym: int, dist: Seq<u8>, limit: int)
    requires
        p <= 8 * d.len(),
    ensures
        copy_step(d, p, o, sym, dist, limit) matches Ok((o2, p2)) ==> p <= p2 <= 8 * d.len(),
{
    if sym - 257 < 29 {
        let ls = sym - 257;
        let le = LEN_EXTRA[ls] as int;
        if p + le <= 8 * d.len() {
            lemma_decode_bounds(dist, d, p + le, 1);
        }
    }
}

/// The literals and copies of a block from bit `p` on, appended to `o` within `limit` bytes, up
/// to its end-of-block code: the output and the bit after the block, or an error.
pub open spec fn codes_from(
    d: Seq<u8>,
    p: int,
    o: Seq<u8>,
    lit: Seq<u8>,
    dist: Seq<u8>,
    limit: int,
) -> Result<(Seq<u8>, int), ()>
    decreases 8 * d.len() - p,
{
    match huff_decode(lit, d, p, 1) {
        None => Err(()),
        Some((sym, k)) => {
            proof {
                lemma_decode_bounds(lit, d, p, 1);
            }
            let p1 = p + k;
            if sym < 256 {
                if o.len() >= limit {
                    Err(())
                } else {
                    codes_from(d, p1, o.push(sym as u8), lit, dist, limit)
                }
            } else if sym == 256 {
                Ok((o, p1))
            } else {
                match copy_step(d, p1, o, sym, dist, limit) {
                    Err(_) => Err(()),
                    Ok((o2, p2)) => {
                        proof {
                            lemma_copy_step_advances(d, p1, o, sym, dist, limit);
                        }
                        codes_from(d, p2, o2, lit, dist, limit)
                    },
                }
            }
        },
    }
}

/// The fixed literal/length code's lengths.
pub open spec fn fixed_lit() -> Seq<u8> {
    Seq::new(
        288,
        |i: int|
            if i < 144 {
                8u8
            } else if i < 256 {
                9u8
            } else if i < 280 {
                7u8
            } else {
                8u8
            },
    )
}

/// The fixed distance code's lengths.
pub open spec fn fixed_dist() -> Seq<u8> {
    Seq::new(30, |i: int| 5u8)
}

/// Where code-length code length `i` comes in a dynamic block's list: the inverse of
/// [`ORDER`].
pub open spec fn order_at(i: int) -> int {
    if i == 16 {
        0
    } else if i == 17 {
        1
    } else if i == 18 {
        2
    } else if i == 0 {
        3
    } else if i == 8 {
        4
    } else if i == 7 {
        5
    } else if i == 9 {
        6
    } else if i == 6 {
        7
    } else if i == 10 {
        8
    } else if i == 5 {
        9
    } else if i == 11 {
        10
    } else if i == 4 {
        11
    } else if i == 12 {
        12
    } else if i == 3 {
        13
    } else if i == 13 {
        14
    } else if i == 2 {
        15
    } else if i == 14 {
        16
    } else if i == 1 {
        17
    } else if i == 15 {
        18
    } else {
        19
    }
}

/// [`order_at`] undoes [`ORDER`].
proof fn lemma_order()
    ensures
        forall|k: int| 0 <= k < 19 ==> ORDER[k] < 19 && #[trigger] order_at(ORDER[k] as int) == k,
        forall|i: int| 0 <= i < 19 ==> 0 <= #[trigger] order_at(i) < 19,
{
}

/// The code-length code's lengths: `ncode` of them, 3 bits each from bit `p`, in [`ORDER`].
pub open spec fn cl_lengths(d: Seq<u8>, p: int, ncode: int) -> Seq<u8> {
    Seq::new(19, |i: int| if order_at(i) < ncode { lsb(d, p + 3 * order_at(i), 3) as u8 } else { 0u8 })
}

/// The code lengths from bit `p` on, `lens` read so far, until `total` of them.
pub open spec fn lengths_from(d: Seq<u8>, p: int, cl: Seq<u8>, lens: Seq<u8>, total: int) -> Result<(Seq<u8>, int), ()>
    decreases 8 * d.len() - p,
{
    if lens.len() >= total {
        Ok((lens, p))
    } else {
        match huff_decode(cl, d, p, 1) {
            None => Err(()),
            Some((sym, k)) => {
                proof {
                    lemma_decode_bounds(cl, d, p, 1);
                }
                let p1 = p + k;
                if sym < 16 {
                    lengths_from(d, p1, cl, lens.push(sym as u8), total)
                } else {
                    let nb: int = if sym == 16 {
                        2
                    } else if sym == 17 {
                        3
                    } else {
                        7
                    };
                    if sym == 16 && lens.len() == 0 {
                        Err(())
                    } else if p1 + nb > 8 * d.len() {
                        Err(())
                    } else {
                        let value: u8 = if sym == 16 {
                            lens.last()
                        } else {
                            0
                        };
                        let rep = (if sym == 18 {
                            11int
                        } else {
                            3int
                        }) + lsb(d, p1, nb as nat);
                        if lens.len() + rep > total {
                            Err(())
                        } else {
                            lengths_from(d, p1 + nb, cl, lens + Seq::new(rep as nat, |q: int| value), total)
                        }
                    }
                }
            },
        }
    }
}

/// A dynamic block's header from bit `p` on: its literal/length and distance code lengths, and
/// the bit after the header.
pub open spec fn dynamic_from(d: Seq<u8>, p: int) -> Result<(Seq<u8>, Seq<u8>, int), ()> {
    if p + 14 > 8 * d.len() {
        Err(())
    } else {
        let nlen = lsb(d, p, 5) + 257;
        let ndist = lsb(d, p + 5, 5) + 1;
        let ncode = lsb(d, p + 10, 4) + 4;
        let q = p + 14;
        if nlen > 286 || ndist > 30 {
            Err(())
        } else if q + 3 * ncode > 8 * d.len() {
            Err(())
        } else {
            let cl = cl_lengths(d, q, ncode);
            if !complete_enough(cl) {
                Err(())
            } else {
                match lengths_from(d, q + 3 * ncode, cl, seq![], nlen + ndist) {
                    Err(_) => Err(()),
                    Ok((lens, q2)) => {
                        let lit = lens.subrange(0, nlen);
                        let dist = lens.subrange(nlen, nlen + ndist);
                        if lens[256] == 0 {
                            Err(())
                        } else if !complete_enough(lit) || !complete_enough(dist) {
                            Err(())
                        } else {
                            Ok((lit, dist, q2))
                        }
                    },
                }
            }
        }
    }
}

/// One block from bit `p` on, appended to `o`: the output and the bit after the block.
pub open spec fn block(d: Seq<u8>, p: int, o: Seq<u8>, limit: int) -> Result<(Seq<u8>, int), ()> {
    let kind = lsb(d, p + 1, 2);
    let p1 = p + 3;
    if kind == 0 {
        stored_from(d, p1, o, limit)
    } else if kind == 1 {
        codes_from(d, p1, o, fixed_lit(), fixed_dist(), limit)
    } else if kind == 2 {
        match dynamic_from(d, p1) {
            Err(_) => Err(()),
            Ok((lit, dist, p2)) => codes_from(d, p2, o, lit, dist, limit),
        }
    } else {
        Err(())
    }
}

/// The blocks from bit `p` on, appended to `o`, up to the last: the inflated data, or an error.
pub open spec fn blocks_from(d: Seq<u8>, p: int, o: Seq<u8>, limit: int) -> Result<Seq<u8>, ()>
    decreases 8 * d.len() - p,
{
    if p < 0 || p + 3 > 8 * d.len() {
        Err(())
    } else {
        match block(d, p, o, limit) {
            Err(_) => Err(()),
            Ok((o2, p2)) => {
                proof {
                    lemma_block_advances(d, p, o, limit);
                }
                if lsb(d, p, 1) == 1 {
                    Ok(o2)
                } else {
                    blocks_from(d, p2, o2, limit)
                }
            },
        }
    }
}

/// A block read ends past its start, within the data.
pub proof fn lemma_block_advances(d: Seq<u8>, p: int, o: Seq<u8>, limit: int)
    requires
        0 <= p,
        p + 3 <= 8 * d.len(),
    ensures
        block(d, p, o, limit) matches Ok((o2, p2)) ==> p < p2 <= 8 * d.len(),
{
    let p1 = p + 3;
    let kind = lsb(d, p + 1, 2);
    if kind == 1 {
        lemma_codes_advance(d, p1, o, fixed_lit(), fixed_dist(), limit);
    } else if kind == 2 {
        lemma_dynamic_advances(d, p1);
        if let Ok((lit, dist, p2)) = dynamic_from(d, p1) {
            lemma_codes_advance(d, p2, o, lit, dist, limit);
        }
    }
}

/// Decoding codes ends past its start, within the data.
pub proof fn lemma_codes_advance(d: Seq<u8>, p: int, o: Seq<u8>, lit: Seq<u8>, dist: Seq<u8>, limit: int)
    ensures
        codes_from(d, p, o, lit, dist, limit) matches Ok((o2, p2)) ==> p < p2 <= 8 * d.len(),
    decreases 8 * d.len() - p,
{
    lemma_decode_bounds(lit, d, p, 1);
    if let Some((sym, k)) = huff_decode(lit, d, p, 1) {
        let p1 = p + k;
        if sym < 256 {
            if o.len() < limit {
                lemma_codes_advance(d, p1, o.push(sym as u8), lit, dist, limit);
            }
        } else if sym > 256 {
            lemma_copy_step_advances(d, p1, o, sym, dist, limit);
            if let Ok((o2, p2)) = copy_step(d, p1, o, sym, dist, limit) {
                lemma_codes_advance(d, p2, o2, lit, dist, limit);
            }
        }
    }
}

/// Reading code lengths ends at or past its start, within the data.
pub proof fn lemma_lengths_advance(d: Seq<u8>, p: int, cl: Seq<u8>, lens: Seq<u8>, total: int)
    requires
        p <= 8 * d.len(),
    ensures
        lengths_from(d, p, cl, lens, total) matches Ok((l2, p2)) ==> p <= p2 <= 8 * d.len(),
    decreases 8 * d.len() - p,
{
    if lens.len() < total {
        lemma_decode_bounds(cl, d, p, 1);
        if let Some((sym, k)) = huff_decode(cl, d, p, 1) {
            let p1 = p + k;
            if sym < 16 {
                lemma_lengths_advance(d, p1, cl, lens.push(sym as u8), total);
            } else {
                let nb: int = if sym == 16 {
                    2
                } else if sym == 17 {
                    3
                } else {
                    7
                };
                if !(sym == 16 && lens.len() == 0) && p1 + nb <= 8 * d.len() {
                    let value: u8 = if sym == 16 {
                        lens.last()
                    } else {
                        0
                    };
                    let rep = (if sym == 18 {
                        11int
                    } else {
                        3int
                    }) + lsb(d, p1, nb as nat);
                    if lens.len() + rep <= total {
                        lemma_lengths_advance(d, p1 + nb, cl, lens + Seq::new(rep as nat, |q: int| value), total);
                    }
                }
            }
        }
    }
}

/// A dynamic header ends past its start, within the data.
pub proof fn lemma_dynamic_advances(d: Seq<u8>, p: int)
    ensures
        dynamic_from(d, p) matches Ok((lit, dist, p2)) ==> p < p2 <= 8 * d.len(),
{
    if p + 14 <= 8 * d.len() {
        let ncode = lsb(d, p + 10, 4) + 4;
        let q = p + 14;
        if q + 3 * ncode <= 8 * d.len() {
            lemma_lsb_bound(d, p + 10, 4);
            lemma_lengths_advance(d, q + 3 * ncode, cl_lengths(d, q, ncode), seq![], lsb(d, p, 5) + 257 + lsb(d, p + 5, 5) + 1);
        }
    }
}

/// The code-length code's lengths ([`cl_lengths`]): `ncode` of them, 3 bits each.
fn read_cl_lengths(bits: &mut Bits<'_>, ncode: usize) -> (r: Result<Vec<u8>, String>)
    requires
        old(bits).wf(),
        ncode <= 19,
    ensures
        final(bits).wf(),
        final(bits).data == old(bits).data,
        final(bits).remaining() <= old(bits).remaining(),
        match r {
            Ok(cl) => {
                &&& cl@ == cl_lengths(old(bits).data@, old(bits).at(), ncode as int)
                &&& final(bits).at() == old(bits).at() + 3 * ncode
                &&& forall|j: int| 0 <= j < cl@.len() ==> #[trigger] cl@[j] < 16
            },
            Err(_) => old(bits).at() + 3 * ncode > 8 * old(bits).data@.len(),
        },
{
    proof {
        lemma_pow2_small();
        lemma_order();
    }
    let ghost d = old(bits).data@;
    let ghost q = old(bits).at();
    let mut cl: Vec<u8> = vec![0u8; 19];
    let mut k: usize = 0;
    assert(cl@ =~= Seq::new(
        19,
        |i: int| if order_at(i) < k { lsb(d, q + 3 * order_at(i), 3) as u8 } else { 0u8 },
    ));
    while k < ncode
        invariant
            bits.wf(),
            bits.data == old(bits).data,
            d == bits.data@,
            bits.remaining() <= old(bits).remaining(),
            q == old(bits).at(),
            ncode <= 19,
            k <= ncode,
            bits.at() == q + 3 * k,
            cl@ == Seq::new(
                19,
                |i: int| if order_at(i) < k { lsb(d, q + 3 * order_at(i), 3) as u8 } else { 0u8 },
            ),
            forall|j: int| 0 <= j < 19 ==> #[trigger] cl@[j] < 16,
            pow2_64(3) == 8,
            forall|k: int| 0 <= k < 19 ==> ORDER[k] < 19 && #[trigger] order_at(ORDER[k] as int) == k,
        decreases ncode - k,
    {
        let v = bits.bits(3)?;
        let at = ORDER[k];
        cl.set(at, v as u8);
        k = k + 1;
        assert(cl@ =~= Seq::new(
            19,
            |i: int| if order_at(i) < k { lsb(d, q + 3 * order_at(i), 3) as u8 } else { 0u8 },
        ));
    }
    assert(cl@ =~= cl_lengths(d, q, ncode as int));
    Ok(cl)
}

/// `total` code lengths in the code-length code `clcode` ([`lengths_from`]).
fn read_lengths(bits: &mut Bits<'_>, clcode: &Huffman, total: usize) -> (r: Result<Vec<u8>, String>)
    requires
        old(bits).wf(),
        clcode.wf(),
        clcode.lengths@.len() == 19,
        total <= 316,
    ensures
        final(bits).wf(),
        final(bits).data == old(bits).data,
        final(bits).remaining() <= old(bits).remaining(),
        r matches Ok(v) ==> v@.len() == total && forall|j: int| 0 <= j < v@.len() ==> #[trigger] v@[j] < 16,
        match (r, lengths_from(old(bits).data@, old(bits).at(), clcode.lengths@, seq![], total as int)) {
            (Ok(v), Ok((lens, p))) => v@ == lens && final(bits).at() == p,
            (Err(_), Err(_)) => true,
            _ => false,
        },
{
    proof {
        lemma_pow2_small();
    }
    let ghost d = old(bits).data@;
    let ghost cls = clcode.lengths@;
    let mut lengths: Vec<u8> = vec![0u8; 316];
    let mut i: usize = 0;
    let ghost target = lengths_from(d, old(bits).at(), cls, seq![], total as int);
    assert(lengths@.subrange(0, 0) =~= seq![]);
    while i < total
        invariant
            bits.wf(),
            bits.data == old(bits).data,
            d == bits.data@,
            bits.remaining() <= old(bits).remaining(),
            clcode.wf(),
            clcode.lengths@ == cls,
            cls.len() == 19,
            total <= 316,
            i <= total,
            lengths@.len() == 316,
            forall|j: int| 0 <= j < 316 ==> #[trigger] lengths@[j] < 16,
            target == lengths_from(d, old(bits).at(), cls, seq![], total as int),
            target == lengths_from(d, bits.at(), cls, lengths@.subrange(0, i as int), total as int),
            pow2_64(2) == 4 && pow2_64(3) == 8 && pow2_64(7) == 128,
        decreases total - i,
    {
        let ghost at0 = bits.at();
        let ghost lens = lengths@.subrange(0, i as int);
        let sym = clcode.decode(bits)?;
        proof {
            lemma_decode_bounds(cls, d, at0, 1);
        }
        if sym < 16 {
            lengths.set(i, sym as u8);
            i = i + 1;
            assert(lengths@.subrange(0, i as int) =~= lens.push(sym as u8));
            continue;
        }
        let (value, repeat): (u8, usize) = if sym == 16 {
            if i == 0 {
                return Err("a length repeat with no previous length".to_string());
            }
            (lengths[i - 1], 3 + bits.bits(2)? as usize)
        } else if sym == 17 {
            (0, 3 + bits.bits(3)? as usize)
        } else {
            (0, 11 + bits.bits(7)? as usize)
        };
        if i + repeat > total {
            return Err("code lengths overrun their table".to_string());
        }
        let mut j: usize = 0;
        assert(lengths@.subrange(0, i + j) =~= lens + Seq::new(j as nat, |_x: int| value));
        while j < repeat
            invariant
                j <= repeat,
                i + repeat <= total <= 316,
                lengths@.len() == 316,
                value < 16,
                forall|x: int| 0 <= x < 316 ==> #[trigger] lengths@[x] < 16,
                lens.len() == i,
                lengths@.subrange(0, i + j) == lens + Seq::new(j as nat, |_x: int| value),
            decreases repeat - j,
        {
            let ghost l0 = lengths@;
            lengths.set(i + j, value);
            assert(lengths@.subrange(0, i + j + 1) =~= l0.subrange(0, i + j).push(value));
            assert(Seq::new((j + 1) as nat, |_x: int| value) =~= Seq::new(j as nat, |_x: int| value).push(value));
            assert(lens + Seq::new((j + 1) as nat, |_x: int| value) =~= (lens + Seq::new(j as nat, |_x: int| value)).push(value));
            j = j + 1;
        }
        i = i + repeat;
    }
    lengths.truncate(total);
    assert(lengths@ =~= lengths@.subrange(0, total as int));
    Ok(lengths)
}

/// The literal/length and distance codes of a dynamic block ([`dynamic_from`]).
pub fn dynamic_tables(bits: &mut Bits<'_>) -> (r: Result<(Huffman, Huffman), String>)
    requires
        old(bits).wf(),
    ensures
        final(bits).wf(),
        final(bits).data == old(bits).data,
        final(bits).remaining() <= old(bits).remaining(),
        r matches Ok((a, b)) ==> a.wf() && b.wf(),
        match (r, dynamic_from(old(bits).data@, old(bits).at())) {
            (Ok((a, b)), Ok((lit, dist, p))) => a.lengths@ == lit && b.lengths@ == dist
                && final(bits).at() == p,
            (Err(_), Err(_)) => true,
            _ => false,
        },
{
    proof {
        lemma_pow2_small();
    }
    let nlen = bits.bits(5)? as usize + 257;
    let ndist = bits.bits(5)? as usize + 1;
    let ncode = bits.bits(4)? as usize + 4;
    if nlen > 286 || ndist > 30 {
        return Err("a dynamic block declares too many codes".to_string());
    }
    let cl = read_cl_lengths(bits, ncode)?;
    let clcode = Huffman::new(cl.as_slice())?;
    let lengths = read_lengths(bits, &clcode, nlen + ndist)?;
    if lengths[256] == 0 {
        return Err("a dynamic block has no end-of-block code".to_string());
    }
    let lit = Huffman::new(slice_subrange(lengths.as_slice(), 0, nlen))?;
    let dist = Huffman::new(slice_subrange(lengths.as_slice(), nlen, nlen + ndist))?;
    Ok((lit, dist))
}

/// `len` bytes appended to `out`, each the byte `back` before it ([`copy_back`]).
fn copy_within(out: &mut Vec<u8>, back: usize, len: usize)
    requires
        1 <= back <= old(out)@.len(),
    ensures
        final(out)@ == copy_back(old(out)@, back as int, len as nat),
{
    let mut k: usize = 0;
    while k < len
        invariant
            k <= len,
            1 <= back <= out@.len(),
            copy_back(old(out)@, back as int, len as nat) == copy_back(out@, back as int, (len - k) as nat),
        decreases len - k,
    {
        let at = out.len() - back;
        let b = out[at];
        out.push(b);
        k = k + 1;
    }
}

/// Decodes the literals and copies of one block into `out` ([`codes_from`]), which it keeps
/// within `limit`.
pub fn codes(
    bits: &mut Bits<'_>,
    out: &mut Vec<u8>,
    lit: &Huffman,
    dist: &Huffman,
    limit: usize,
) -> (r: Result<(), String>)
    requires
        old(bits).wf(),
        lit.wf(),
        dist.wf(),
        old(out)@.len() <= limit,
    ensures
        final(bits).wf(),
        final(bits).data == old(bits).data,
        final(bits).remaining() <= old(bits).remaining(),
        final(out)@.len() <= limit,
        match (r, codes_from(old(bits).data@, old(bits).at(), old(out)@, lit.lengths@, dist.lengths@, limit as int)) {
            (Ok(_), Ok((o, p))) => final(out)@ == o && final(bits).at() == p,
            (Err(_), Err(_)) => true,
            _ => false,
        },
{
    let ghost start = old(bits).remaining();
    let ghost d = old(bits).data@;
    let ghost result = codes_from(d, old(bits).at(), old(out)@, lit.lengths@, dist.lengths@, limit as int);
    loop
        invariant
            bits.wf(),
            bits.data == old(bits).data,
            d == bits.data@,
            bits.remaining() <= start,
            start == old(bits).remaining(),
            lit.wf(),
            dist.wf(),
            out@.len() <= limit,
            result == codes_from(old(bits).data@, old(bits).at(), old(out)@, lit.lengths@, dist.lengths@, limit as int),
            result == codes_from(d, bits.at(), out@, lit.lengths@, dist.lengths@, limit as int),
        decreases bits.remaining(),
    {
        let ghost at0 = bits.at();
        let sym16 = lit.decode(bits)?;
        let sym = sym16 as usize;
        proof {
            lemma_decode_bounds(lit.lengths@, d, at0, 1);
        }
        if sym < 256 {
            if out.len() >= limit {
                return Err("the data inflates past its declared size".to_string());
            }
            out.push(sym as u8);
        } else if sym == 256 {
            return Ok(());
        } else {
            copy_pair(bits, out, dist, limit, sym)?;
        }
    }
}

/// The copy that length symbol `sym` starts ([`copy_step`]), appended to `out`.
fn copy_pair(bits: &mut Bits<'_>, out: &mut Vec<u8>, dist: &Huffman, limit: usize, sym: usize) -> (r: Result<
    (),
    String,
>)
    requires
        old(bits).wf(),
        dist.wf(),
        old(out)@.len() <= limit,
        sym > 256,
    ensures
        final(bits).wf(),
        final(bits).data == old(bits).data,
        final(bits).remaining() <= old(bits).remaining(),
        final(out)@.len() <= limit,
        match (r, copy_step(old(bits).data@, old(bits).at(), old(out)@, sym as int, dist.lengths@, limit as int)) {
            (Ok(_), Ok((o, p))) => final(out)@ == o && final(bits).at() == p,
            (Err(_), Err(_)) => true,
            _ => false,
        },
{
    let ghost d = old(bits).data@;
    let s = sym - 257;
    if s >= 29 {
        return Err("an invalid length symbol".to_string());
    }
    assert(LEN_EXTRA[s as int] <= 5);
    let extra = bits.bits(LEN_EXTRA[s] as u32)?;
    proof {
        lemma_pow2_mono(LEN_EXTRA[s as int] as nat, 5);
        lemma_pow2_small();
    }
    let len = LEN_BASE[s] as usize + extra as usize;
    let ghost at2 = bits.at();
    let dsym = dist.decode(bits)? as usize;
    proof {
        lemma_decode_bounds(dist.lengths@, d, at2, 1);
    }
    if dsym >= 30 {
        return Err("an invalid distance symbol".to_string());
    }
    assert(DIST_EXTRA[dsym as int] <= 13);
    let dextra = bits.bits(DIST_EXTRA[dsym] as u32)?;
    proof {
        lemma_pow2_mono(DIST_EXTRA[dsym as int] as nat, 13);
        lemma_pow2_small();
    }
    let back = DIST_BASE[dsym] as usize + dextra as usize;
    assert(DIST_BASE[dsym as int] >= 1);
    if back > out.len() {
        return Err("a distance reaches before the start of the data".to_string());
    }
    if limit - out.len() < len {
        return Err("the data inflates past its declared size".to_string());
    }
    copy_within(out, back, len);
    proof {
        lemma_copy_back_len(old(out)@, back as int, len as nat);
    }
    Ok(())
}

/// Copying appends `len` bytes.
proof fn lemma_copy_back_len(o: Seq<u8>, back: int, len: nat)
    ensures
        copy_back(o, back, len).len() == o.len() + len,
    decreases len,
{
    if len > 0 {
        lemma_copy_back_len(o.push(o[o.len() - back]), back, (len - 1) as nat);
    }
}

/// The bytes of a stored block whose header ends at bit `p`, appended to `o` within `limit`
/// bytes, and the bit after them.
pub open spec fn stored_from(d: Seq<u8>, p: int, o: Seq<u8>, limit: int) -> Result<(Seq<u8>, int), ()> {
    let q = (p + 7) / 8;
    if q + 4 > d.len() {
        Err(())
    } else {
        let len = d[q] + 256 * d[q + 1];
        let nlen = d[q + 2] + 256 * d[q + 3];
        if len + nlen != 65535 {
            Err(())
        } else if q + 4 + len > d.len() {
            Err(())
        } else if limit - o.len() < len {
            Err(())
        } else {
            Ok((o + d.subrange(q + 4, q + 4 + len), 8 * (q + 4 + len)))
        }
    }
}

/// A stored block's bytes, from the byte after its header ([`stored_from`]), appended to `out`.
fn stored(bits: &mut Bits<'_>, out: &mut Vec<u8>, limit: usize) -> (r: Result<(), String>)
    requires
        old(bits).wf(),
        old(out)@.len() <= limit,
    ensures
        final(bits).wf(),
        final(bits).data == old(bits).data,
        final(bits).remaining() <= old(bits).remaining(),
        final(out)@.len() <= limit,
        match (r, stored_from(old(bits).data@, old(bits).at(), old(out)@, limit as int)) {
            (Ok(_), Ok((o, p))) => final(out)@ == o && final(bits).at() == p,
            (Err(_), Err(_)) => true,
            _ => false,
        },
{
    let ghost d = old(bits).data@;
    let ghost out0 = out@;
    let data = bits.data;
    assert(bits.pos == (bits.at() + 7) / 8);
    let p = bits.pos;
    if data.len() - p < 4 {
        return Err("a stored block header ends early".to_string());
    }
    let len = data[p] as usize + 256 * (data[p + 1] as usize);
    let nlen = data[p + 2] as usize + 256 * (data[p + 3] as usize);
    if len + nlen != 65535 {
        return Err("a stored block's length check fails".to_string());
    }
    if data.len() - (p + 4) < len {
        return Err("a stored block ends early".to_string());
    }
    if limit - out.len() < len {
        return Err("the data inflates past its declared size".to_string());
    }
    let dl = data.len();
    let mut k: usize = 0;
    while k < len
        invariant
            k <= len,
            d == data@,
            dl == data@.len(),
            p + 4 + len <= data@.len(),
            out@.len() + len - k <= limit,
            out@ == out0 + d.subrange(p + 4, p + 4 + k),
        decreases len - k,
    {
        out.push(data[p + 4 + k]);
        k = k + 1;
        assert(out@ =~= out0 + d.subrange(p + 4, p + 4 + k));
    }
    // The rest of the byte the header ended in is dropped.
    bits.buf = 0;
    bits.count = 0;
    bits.pos = p + 4 + len;
    Ok(())
}

/// The fixed literal/length and distance codes.
fn fixed_tables() -> (r: (Huffman, Huffman))
    ensures
        r.0.wf() && r.0.lengths@ == fixed_lit(),
        r.1.wf() && r.1.lengths@ == fixed_dist(),
{
    proof {
        lemma_fixed_complete();
    }
    let mut lengths: Vec<u8> = vec![8u8; 288];
    let mut k: usize = 144;
    while k < 288
        invariant
            144 <= k <= 288,
            lengths@.len() == 288,
            forall|j: int| 0 <= j < k ==> #[trigger] lengths@[j] == fixed_lit()[j],
            forall|j: int| k <= j < 288 ==> #[trigger] lengths@[j] == 8,
        decreases 288 - k,
    {
        let l: u8 = if k < 256 {
            9
        } else if k < 280 {
            7
        } else {
            8
        };
        lengths.set(k, l);
        k = k + 1;
    }
    assert(lengths@ =~= fixed_lit());
    let five: Vec<u8> = vec![5u8; 30];
    assert(five@ =~= fixed_dist());
    match (Huffman::new(lengths.as_slice()), Huffman::new(five.as_slice())) {
        (Ok(lit), Ok(dist)) => (lit, dist),
        _ => vstd::pervasive::unreached(),
    }
}

/// What [`inflate`] makes of `d` within `limit` bytes ([`blocks_from`]); `None` when it refuses.
pub open spec fn inflated(d: Seq<u8>, limit: int) -> Option<Seq<u8>> {
    match blocks_from(d, 0, seq![], limit) {
        Ok(o) => Some(o),
        Err(_) => None,
    }
}

/// Inflates a raw deflate stream into at most `limit` bytes ([`blocks_from`]): the blocks up to
/// the one marked last, each stored, in the fixed codes or in codes of its own. The limit only
/// bounds the output, it never changes it ([`lemma_inflate_limit`]).
pub fn inflate(data: &[u8], limit: usize) -> (r: Result<Vec<u8>, String>)
    ensures
        match r {
            Ok(v) => inflated(data@, limit as int) == Some(v@),
            Err(_) => inflated(data@, limit as int) is None,
        },
        r matches Ok(v) ==> v@.len() <= limit,
        match (r, blocks_from(data@, 0, seq![], limit as int)) {
            (Ok(v), Ok(o)) => v@ == o,
            (Err(_), Err(_)) => true,
            _ => false,
        },
{
    let ghost d = data@;
    let ghost result = blocks_from(d, 0, seq![], limit as int);
    let mut out: Vec<u8> = Vec::new();
    let mut bits = Bits { data, pos: 0, buf: 0, count: 0 };
    assert(pow2_64(0) == 1);
    assert(pow2_64(2) == 4) by {
        reveal_with_fuel(pow2_64, 3);
    }
    loop
        invariant
            bits.wf(),
            bits.data == data,
            d == data@,
            out@.len() <= limit,
            pow2_64(2) == 4,
            0 <= bits.at(),
            result == blocks_from(d, 0, seq![], limit as int),
            result == blocks_from(d, bits.at(), out@, limit as int),
        decreases bits.remaining(),
    {
        let ghost at0 = bits.at();
        let ghost out0 = out@;
        let last = bits.bits(1)?;
        let kind = bits.bits(2)?;
        if kind == 0 {
            stored(&mut bits, &mut out, limit)?;
        } else if kind == 1 {
            let (lit, dist) = fixed_tables();
            codes(&mut bits, &mut out, &lit, &dist, limit)?;
        } else if kind == 2 {
            let (lit, dist) = dynamic_tables(&mut bits)?;
            codes(&mut bits, &mut out, &lit, &dist, limit)?;
        } else {
            return Err("an invalid block type".to_string());
        }
        proof {
            lemma_block_advances(d, at0, out0, limit as int);
        }
        if last == 1 {
            return Ok(out);
        }
    }
}

} // verus!

verus! {

/// Counting over a run of one length adds the run's size, or nothing.
proof fn lemma_count_run(lengths: Seq<u8>, l: int, a: int, b: int, v: u8)
    requires
        0 <= a <= b <= lengths.len(),
        forall|i: int| a <= i < b ==> lengths[i] == v,
    ensures
        count_upto(lengths, l, b) == count_upto(lengths, l, a) + if v == l {
            b - a
        } else {
            0
        },
    decreases b - a,
{
    if b > a {
        lemma_count_run(lengths, l, a, b - 1, v);
    }
}

/// The fixed codes are prefix codes.
proof fn lemma_fixed_complete()
    ensures
        complete_enough(fixed_lit()),
        complete_enough(fixed_dist()),
{
    let f = fixed_lit();
    assert forall|l: int| #[trigger] count_len(f, l) == if l == 7 {
        24int
    } else if l == 8 {
        152int
    } else if l == 9 {
        112int
    } else {
        0int
    } by {
        lemma_count_run(f, l, 0, 0, 8);
        lemma_count_run(f, l, 0, 144, 8);
        lemma_count_run(f, l, 144, 256, 9);
        lemma_count_run(f, l, 256, 280, 7);
        lemma_count_run(f, l, 280, 288, 8);
    }
    let g = fixed_dist();
    assert forall|l: int| #[trigger] count_len(g, l) == if l == 5 {
        30int
    } else {
        0int
    } by {
        lemma_count_run(g, l, 0, 0, 5);
        lemma_count_run(g, l, 0, 30, 5);
    }
    assert(kraft(f, 0) == 1 && kraft(g, 0) == 1);
    assert(kraft(f, 1) == 2 && kraft(g, 1) == 2);
    assert(kraft(f, 2) == 4 && kraft(g, 2) == 4);
    assert(kraft(f, 3) == 8 && kraft(g, 3) == 8);
    assert(kraft(f, 4) == 16 && kraft(g, 4) == 16);
    assert(kraft(f, 5) == 32 && kraft(g, 5) == 2);
    assert(kraft(f, 6) == 64 && kraft(g, 6) == 4);
    assert(kraft(f, 7) == 104 && kraft(g, 7) == 8);
    assert(kraft(f, 8) == 56 && kraft(g, 8) == 16);
    assert(kraft(f, 9) == 0 && kraft(g, 9) == 32);
    assert(kraft(f, 10) == 0 && kraft(g, 10) == 64);
    assert(kraft(f, 11) == 0 && kraft(g, 11) == 128);
    assert(kraft(f, 12) == 0 && kraft(g, 12) == 256);
    assert(kraft(f, 13) == 0 && kraft(g, 13) == 512);
    assert(kraft(f, 14) == 0 && kraft(g, 14) == 1024);
    assert(kraft(f, 15) == 0 && kraft(g, 15) == 2048);
}


/// A stream of one stored block, marked last, holding `b`: its header byte, its length and the
/// length's complement, then the bytes.
pub open spec fn stored_stream(b: Seq<u8>) -> Seq<u8> {
    let n = b.len() as int;
    seq![1u8, (n % 256) as u8, (n / 256) as u8, ((65535 - n) % 256) as u8, ((65535 - n) / 256) as u8] + b
}

/// A stored block gives back its bytes unchanged: a stream of one such block holding at most
/// 65535 bytes inflates, within a limit that admits them, to exactly those bytes.
pub proof fn lemma_stored_block(b: Seq<u8>, limit: int)
    requires
        b.len() <= 65535,
        b.len() <= limit,
    ensures
        blocks_from(stored_stream(b), 0, seq![], limit) == Ok::<Seq<u8>, ()>(b),
{
    let d = stored_stream(b);
    let n = b.len() as int;
    lemma_pow2_small();
    assert(d[0] == 1u8);
    assert(bit_at(d, 0) == 1);
    assert(bit_at(d, 1) == 0) by {
        assert(1int / 8 == 0 && 1int % 8 == 1);
        assert(d[0] as int / pow2_64(1) == 0);
    }
    assert(bit_at(d, 2) == 0) by {
        assert(2int / 8 == 0 && 2int % 8 == 2);
        assert(d[0] as int / pow2_64(2) == 0);
    }
    reveal_with_fuel(lsb, 3);
    assert(lsb(d, 1, 2) == 0);
    assert(lsb(d, 0, 1) == 1);
    assert(d[1] + 256 * d[2] == n);
    assert(d[3] + 256 * d[4] == 65535 - n);
    assert(d.subrange(5, 5 + n) =~= b);
    assert(stored_from(d, 3, seq![], limit) == Ok::<(Seq<u8>, int), ()>((b, 8 * (5 + n)))) by {
        assert(seq![] + d.subrange(5, 5 + n) =~= b);
    }
}
} // verus!

verus! {

/// The output a block step made, or nothing when it failed.
pub open spec fn out_of(r: Result<(Seq<u8>, int), ()>) -> Seq<u8> {
    match r {
        Ok((o, _)) => o,
        Err(_) => seq![],
    }
}

/// A copy grows the output by its length; a larger limit keeps it, a limit below what it makes
/// refuses it.
proof fn lemma_copy_limit(d: Seq<u8>, p: int, o: Seq<u8>, sym: int, dist: Seq<u8>, l1: int, l2: int)
    requires
        copy_step(d, p, o, sym, dist, l1) is Ok,
        sym > 256,
        o.len() <= l2,
    ensures
        out_of(copy_step(d, p, o, sym, dist, l1)).len() >= o.len(),
        l2 >= out_of(copy_step(d, p, o, sym, dist, l1)).len() ==> copy_step(d, p, o, sym, dist, l2) == copy_step(
            d,
            p,
            o,
            sym,
            dist,
            l1,
        ),
        l2 < out_of(copy_step(d, p, o, sym, dist, l1)).len() ==> copy_step(d, p, o, sym, dist, l2) is Err,
{
    let ls = sym - 257;
    let le = LEN_EXTRA[ls] as int;
    lemma_lsb_bound(d, p, le as nat);
    let len = LEN_BASE[ls] + lsb(d, p, le as nat);
    let p2 = p + le;
    let (ds, k2) = huff_decode(dist, d, p2, 1)->0;
    let p3 = p2 + k2;
    let de = DIST_EXTRA[ds] as int;
    let back = DIST_BASE[ds] + lsb(d, p3, de as nat);
    lemma_copy_back_len(o, back, len as nat);
}

/// Decoding a block's codes: a larger limit keeps what it makes, a limit below refuses it.
proof fn lemma_codes_limit(d: Seq<u8>, p: int, o: Seq<u8>, lit: Seq<u8>, dist: Seq<u8>, l1: int, l2: int)
    requires
        codes_from(d, p, o, lit, dist, l1) is Ok,
        o.len() <= l2,
    ensures
        out_of(codes_from(d, p, o, lit, dist, l1)).len() >= o.len(),
        l2 >= out_of(codes_from(d, p, o, lit, dist, l1)).len() ==> codes_from(d, p, o, lit, dist, l2) == codes_from(
            d,
            p,
            o,
            lit,
            dist,
            l1,
        ),
        l2 < out_of(codes_from(d, p, o, lit, dist, l1)).len() ==> codes_from(d, p, o, lit, dist, l2) is Err,
    decreases 8 * d.len() - p,
{
    lemma_decode_bounds(lit, d, p, 1);
    let (sym, k) = huff_decode(lit, d, p, 1)->0;
    let p1 = p + k;
    if sym < 256 {
        if o.len() < l2 {
            lemma_codes_limit(d, p1, o.push(sym as u8), lit, dist, l1, l2);
        } else {
            lemma_codes_limit(d, p1, o.push(sym as u8), lit, dist, l1, l1);
        }
    } else if sym > 256 {
        lemma_copy_limit(d, p1, o, sym, dist, l1, l2);
        lemma_copy_limit(d, p1, o, sym, dist, l1, o.len() as int);
        lemma_copy_step_advances(d, p1, o, sym, dist, l1);
        let (o2, p2) = copy_step(d, p1, o, sym, dist, l1)->Ok_0;
        if o2.len() <= l2 {
            lemma_codes_limit(d, p2, o2, lit, dist, l1, l2);
        } else {
            lemma_codes_limit(d, p2, o2, lit, dist, l1, o2.len() as int);
        }
    }
}

/// A stored block: a larger limit keeps what it makes, a limit below refuses it.
proof fn lemma_stored_limit(d: Seq<u8>, p: int, o: Seq<u8>, l1: int, l2: int)
    requires
        stored_from(d, p, o, l1) is Ok,
        0 <= p,
        o.len() <= l2,
    ensures
        out_of(stored_from(d, p, o, l1)).len() >= o.len(),
        l2 >= out_of(stored_from(d, p, o, l1)).len() ==> stored_from(d, p, o, l2) == stored_from(d, p, o, l1),
        l2 < out_of(stored_from(d, p, o, l1)).len() ==> stored_from(d, p, o, l2) is Err,
{
    let q = (p + 7) / 8;
    let len = d[q] + 256 * d[q + 1];
    assert(out_of(stored_from(d, p, o, l1)).len() == o.len() + len);
}

/// A block: a larger limit keeps what it makes, a limit below refuses it.
#[verifier::rlimit(40)]
proof fn lemma_block_limit(d: Seq<u8>, p: int, o: Seq<u8>, l1: int, l2: int)
    requires
        block(d, p, o, l1) is Ok,
        0 <= p,
        o.len() <= l2,
    ensures
        out_of(block(d, p, o, l1)).len() >= o.len(),
        l2 >= out_of(block(d, p, o, l1)).len() ==> block(d, p, o, l2) == block(d, p, o, l1),
        l2 < out_of(block(d, p, o, l1)).len() ==> block(d, p, o, l2) is Err,
{
    let kind = lsb(d, p + 1, 2);
    let p1 = p + 3;
    if kind == 0 {
        lemma_stored_limit(d, p1, o, l1, l2);
    } else if kind == 1 {
        lemma_codes_limit(d, p1, o, fixed_lit(), fixed_dist(), l1, l2);
    } else if kind == 2 {
        let (lit, dist, p2) = dynamic_from(d, p1)->Ok_0;
        lemma_codes_limit(d, p2, o, lit, dist, l1, l2);
    }
}

/// The blocks: a larger limit keeps what they make, a limit below refuses it.
proof fn lemma_blocks_limit(d: Seq<u8>, p: int, o: Seq<u8>, l1: int, l2: int)
    requires
        blocks_from(d, p, o, l1) is Ok,
        o.len() <= l2,
    ensures
        blocks_from(d, p, o, l1)->Ok_0.len() >= o.len(),
        l2 >= blocks_from(d, p, o, l1)->Ok_0.len() ==> blocks_from(d, p, o, l2) == blocks_from(d, p, o, l1),
        l2 < blocks_from(d, p, o, l1)->Ok_0.len() ==> blocks_from(d, p, o, l2) is Err,
    decreases 8 * d.len() - p,
{
    lemma_block_advances(d, p, o, l1);
    let (o2, p2) = block(d, p, o, l1)->Ok_0;
    lemma_block_limit(d, p, o, l1, l2);
    lemma_block_limit(d, p, o, l1, o2.len() as int);
    if lsb(d, p, 1) != 1 {
        if o2.len() <= l2 {
            lemma_blocks_limit(d, p2, o2, l1, l2);
        } else {
            lemma_blocks_limit(d, p2, o2, l1, o2.len() as int);
        }
    }
}

/// The limit bounds the output and never changes it: when the data inflates to `out` within
/// `l1` bytes, it inflates to the same `out` within any limit that admits `out`, and fails
/// within any smaller limit.
pub proof fn lemma_limit_keeps_output(d: Seq<u8>, l1: int, l2: int)
    requires
        blocks_from(d, 0, seq![], l1) is Ok,
        l2 >= 0,
    ensures
        l2 >= blocks_from(d, 0, seq![], l1)->Ok_0.len() ==> blocks_from(d, 0, seq![], l2) == blocks_from(d, 0, seq![], l1),
        l2 < blocks_from(d, 0, seq![], l1)->Ok_0.len() ==> blocks_from(d, 0, seq![], l2) is Err,
{
    lemma_blocks_limit(d, 0, seq![], l1, l2);
}

/// The limit of [`inflate`] bounds its output and never changes it: when `d` inflates to `out`
/// within `l1` bytes, `out` is at most `l1` bytes long, `d` inflates to the same `out` within any
/// limit `l2` that admits it, and is refused within any limit below its length.
pub proof fn lemma_inflate_limit(d: Seq<u8>, l1: int, l2: int)
    requires
        inflated(d, l1) is Some,
        0 <= l1,
        0 <= l2,
    ensures
        inflated(d, l1).unwrap().len() <= l1,
        l2 >= inflated(d, l1).unwrap().len() ==> inflated(d, l2) == inflated(d, l1),
        l2 < inflated(d, l1).unwrap().len() ==> inflated(d, l2) is None,
{
    lemma_limit_keeps_output(d, l1, l2);
    lemma_limit_keeps_output(d, l1, l1);
}

} // verus!
