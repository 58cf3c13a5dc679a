//! Deterministic UUIDs: a 128-bit FNV-1a digest of the input, then of each entity's kind and
//! position, shaped as version-4 UUIDs, so that the same input always gives the same ids.
use vstd::prelude::*;
use vstd::string::StringSliceAdditionalSpecFns;

verus! {

/// A UUID, as the `uuid` crate holds it.
#[verifier::external_type_specification]
#[verifier::external_body]
pub struct ExUuid(uuid::Uuid);

/// The FNV-1a prime.
pub const FNV_PRIME: u64 = 0x0000_0100_0000_01b3;

/// The two FNV-1a offsets the digest starts from (64-bit, and a second one).
pub const FNV_OFFSET_A: u64 = 0xcbf2_9ce4_8422_2325;

pub const FNV_OFFSET_B: u64 = 0x6c62_272e_07bb_0142;

/// One FNV-1a step: xor the byte in, multiply by the prime, modulo 2⁶⁴.
pub open spec fn fnv_step(s: u64, b: u8) -> u64 {
    (s ^ (b as u64)).wrapping_mul(FNV_PRIME)
}

/// FNV-1a over `bytes`, from state `s`.
pub open spec fn fnv_fold(s: u64, bytes: Seq<u8>) -> u64
    decreases bytes.len(),
{
    if bytes.len() == 0 {
        s
    } else {
        fnv_step(fnv_fold(s, bytes.drop_last()), bytes.last())
    }
}

/// Byte `k` of `x`, little-endian.
pub open spec fn le_byte(x: u64, k: u64) -> u8 {
    ((x >> (8 * k)) & 0xff) as u8
}

/// `x` as 8 bytes, little-endian.
pub open spec fn le_bytes(x: u64) -> Seq<u8> {
    Seq::new(8, |k: int| le_byte(x, k as u64))
}

/// What the digest reads of the parts: each part's length (8 bytes, little-endian), then the
/// part.
pub open spec fn stream(parts: Seq<Seq<u8>>) -> Seq<u8>
    decreases parts.len(),
{
    if parts.len() == 0 {
        seq![]
    } else {
        stream(parts.drop_last()) + le_bytes(parts.last().len() as u64) + parts.last()
    }
}

/// Deterministic ids from a digest.
#[derive(Clone, Copy, Debug)]
pub struct IdSource {
    pub digest: [u64; 2],
}

/// Runs FNV-1a over `bytes` on `s`.
fn fnv(s: u64, bytes: &[u8]) -> (r: u64)
    ensures
        r == fnv_fold(s, bytes@),
{
    let mut st = s;
    let mut i: usize = 0;
    while i < bytes.len()
        invariant
            i <= bytes@.len(),
            st == fnv_fold(s, bytes@.subrange(0, i as int)),
        decreases bytes@.len() - i,
    {
        proof {
            assert(bytes@.subrange(0, i + 1).drop_last() =~= bytes@.subrange(0, i as int));
        }
        st = (st ^ (bytes[i] as u64)).wrapping_mul(FNV_PRIME);
        i = i + 1;
    }
    assert(bytes@.subrange(0, bytes@.len() as int) =~= bytes@);
    st
}

proof fn lemma_fnv_append(s: u64, a: Seq<u8>, b: Seq<u8>)
    ensures
        fnv_fold(s, a + b) == fnv_fold(fnv_fold(s, a), b),
    decreases b.len(),
{
    if b.len() > 0 {
        assert((a + b).drop_last() =~= a + b.drop_last());
        lemma_fnv_append(s, a, b.drop_last());
    } else {
        assert(a + b =~= a);
    }
}

/// `x` as 8 bytes, little-endian ([`le_bytes`]).
fn le8(x: u64) -> (r: [u8; 8])
    ensures
        r@ == le_bytes(x),
{
    let r: [u8; 8] = [
        (x & 0xff) as u8,
        ((x >> 8) & 0xff) as u8,
        ((x >> 16) & 0xff) as u8,
        ((x >> 24) & 0xff) as u8,
        ((x >> 32) & 0xff) as u8,
        ((x >> 40) & 0xff) as u8,
        ((x >> 48) & 0xff) as u8,
        ((x >> 56) & 0xff) as u8,
    ];
    assert(x >> 0u64 == x) by (bit_vector);
    assert(r@ =~= le_bytes(x));
    r
}

impl IdSource {
    /// The digest of `parts`: FNV-1a from each offset over each part's length and bytes
    /// ([`stream`]).
    pub fn from_parts(parts: &[&[u8]]) -> (r: Self)
        ensures
            r.digest@[0] == fnv_fold(FNV_OFFSET_A, stream(parts@.map_values(|p: &[u8]| p@))),
            r.digest@[1] == fnv_fold(FNV_OFFSET_B, stream(parts@.map_values(|p: &[u8]| p@))),
    {
        let ghost ps = parts@.map_values(|p: &[u8]| p@);
        let mut a = FNV_OFFSET_A;
        let mut b = FNV_OFFSET_B;
        let mut k: usize = 0;
        while k < parts.len()
            invariant
                k <= parts@.len(),
                ps == parts@.map_values(|p: &[u8]| p@),
                a == fnv_fold(FNV_OFFSET_A, stream(ps.subrange(0, k as int))),
                b == fnv_fold(FNV_OFFSET_B, stream(ps.subrange(0, k as int))),
            decreases parts@.len() - k,
        {
            let p = parts[k];
            assert(ps[k as int] == p@);
            let len = le8(p.len() as u64);
            let ghost before = stream(ps.subrange(0, k as int));
            proof {
                let s1 = ps.subrange(0, k + 1);
                assert(s1.drop_last() =~= ps.subrange(0, k as int));
                assert(s1.last() == p@);
                assert(stream(s1) == before + le_bytes(p@.len() as u64) + p@);
                lemma_fnv_append(FNV_OFFSET_A, before, le_bytes(p@.len() as u64));
                lemma_fnv_append(FNV_OFFSET_A, before + le_bytes(p@.len() as u64), p@);
                lemma_fnv_append(FNV_OFFSET_B, before, le_bytes(p@.len() as u64));
                lemma_fnv_append(FNV_OFFSET_B, before + le_bytes(p@.len() as u64), p@);
            }
            a = fnv(a, &len);
            a = fnv(a, p);
            b = fnv(b, &len);
            b = fnv(b, p);
            k = k + 1;
        }
        assert(ps.subrange(0, parts@.len() as int) =~= ps);
        IdSource { digest: [a, b] }
    }

    /// The 16 bytes an entity's id is made from: the digest run on over `kind` and `index`
    /// (8 bytes, little-endian), each half little-endian.
    pub fn uuid_bytes(&self, kind: &str, index: usize) -> (r: [u8; 16])
        ensures
            r@ == le_bytes(fnv_fold(self.digest@[0], kind.spec_bytes() + le_bytes(index as u64))) + le_bytes(
                fnv_fold(self.digest@[1], kind.spec_bytes() + le_bytes(index as u64)),
            ),
    {
        let k = kind.as_bytes();
        let i = le8(index as u64);
        proof {
            lemma_fnv_append(self.digest@[0], k@, i@);
            lemma_fnv_append(self.digest@[1], k@, i@);
        }
        let a = fnv(fnv(self.digest[0], k), &i);
        let b = fnv(fnv(self.digest[1], k), &i);
        let x = le8(a);
        let y = le8(b);
        let r: [u8; 16] = [x[0], x[1], x[2], x[3], x[4], x[5], x[6], x[7], y[0], y[1], y[2], y[3], y[4], y[5], y[6], y[7]];
        assert(r@ =~= x@ + y@);
        r
    }

    /// The id of the `index`-th entity of `kind`: [`IdSource::uuid_bytes`] with the version (4,
    /// random) and variant bits set ([`spec_v4_bytes`]), as a UUID ([`uuid_of_bytes`]).
    pub fn uuid(&self, kind: &str, index: usize) -> (r: uuid::Uuid)
        ensures
            r == uuid_of_bytes(
                spec_v4_bytes(
                    le_bytes(fnv_fold(self.digest@[0], kind.spec_bytes() + le_bytes(index as u64))) + le_bytes(
                        fnv_fold(self.digest@[1], kind.spec_bytes() + le_bytes(index as u64)),
                    ),
                ),
            ),
    {
        let b = self.uuid_bytes(kind, index);
        uuid_from_bytes(v4_bytes(b))
    }
}

/// Random bytes made a version-4 UUID's: byte 6 holds version 4 in its high half, byte 8 the
/// variant bits `10` in its top two bits, as `uuid::Builder::from_random_bytes` sets them.
pub open spec fn spec_v4_bytes(b: Seq<u8>) -> Seq<u8> {
    b.update(6, (b[6] & 0x0f) | 0x40).update(8, (b[8] & 0x3f) | 0x80)
}

/// The version and variant bits of a version-4 UUID set in `b` ([`spec_v4_bytes`]).
pub fn v4_bytes(b: [u8; 16]) -> (r: [u8; 16])
    ensures
        r@ == spec_v4_bytes(b@),
{
    let mut r = b;
    r[6] = (b[6] & 0x0f) | 0x40;
    r[8] = (b[8] & 0x3f) | 0x80;
    assert(r@ =~= spec_v4_bytes(b@));
    r
}

/// The UUID `uuid::Uuid::from_bytes` makes of `bytes`.
pub uninterp spec fn uuid_of_bytes(bytes: Seq<u8>) -> uuid::Uuid;

/// `uuid::Uuid::from_bytes`: the UUID holding `bytes`, as they are ([`uuid_of_bytes`]).
#[verifier::external_body]
fn uuid_from_bytes(bytes: [u8; 16]) -> (r: uuid::Uuid)
    ensures
        r == uuid_of_bytes(bytes@),
{
    uuid::Uuid::from_bytes(bytes)
}

} // verus!
