//! A minimal, read-only ZIP reader for upstream `.proj` archives: the central directory, stored
//! and deflated entries, and a CRC-32 check of every entry read.
//!
//! It reads what upstream's GUI writes (deflate, no encryption, no ZIP64) and refuses everything
//! else by name: encryption, ZIP64, multi-disk archives, and compression methods other than 0
//! and 8. An entry is inflated only when asked for, into at most the size the central directory
//! declares, which is itself capped at deflate's maximum ratio to the compressed size. The
//! inflated bytes must have exactly the declared size and CRC-32.
use vstd::prelude::*;
use vstd::slice::slice_subrange;
use vstd::string::StringSliceAdditionalSpecFns;

use crate::import::{ImportError, is_invalid, is_truncated, is_unsupported};

pub use crate::inflate::inflate;
use crate::inflate::blocks_from;
use crate::text::{lossy_text, message_str, message_u64, push_u64, string_from_utf8_lossy};

verus! {

/// The format name of this module's errors.
pub const FMT: &'static str = "zip";

/// Deflate cannot expand data by more than this factor; a larger declared size is a lie.
pub const MAX_DEFLATE_RATIO: u64 = 1032;

/// The `u16` stored little-endian at `at` in `b`.
pub open spec fn le16(b: Seq<u8>, at: int) -> int {
    b[at] + 256 * b[at + 1]
}

/// The `u32` stored little-endian at `at` in `b`.
pub open spec fn le32(b: Seq<u8>, at: int) -> int {
    b[at] + 256 * b[at + 1] + 65536 * b[at + 2] + 16777216 * b[at + 3]
}

/// The `u16` at `at`, if the bytes hold it.
pub fn u16_at(b: &[u8], at: usize) -> (r: Option<u16>)
    ensures
        r == (if at + 2 <= b@.len() {
            Some(le16(b@, at as int) as u16)
        } else {
            None::<u16>
        }),
{
    if at > b.len() || b.len() - at < 2 {
        None
    } else {
        Some(b[at] as u16 + 256 * (b[at + 1] as u16))
    }
}

/// The `u32` at `at`, if the bytes hold it.
pub fn u32_at(b: &[u8], at: usize) -> (r: Option<u32>)
    ensures
        r == (if at + 4 <= b@.len() {
            Some(le32(b@, at as int) as u32)
        } else {
            None::<u32>
        }),
{
    if at > b.len() || b.len() - at < 4 {
        None
    } else {
        Some(
            b[at] as u32 + 256 * (b[at + 1] as u32) + 65536 * (b[at + 2] as u32) + 16777216 * (b[at
                + 3] as u32),
        )
    }
}

/// One entry of the central directory.
#[derive(Clone, Debug, PartialEq, Eq)]
pub struct Entry {
    /// The name, with `\` turned into `/`.
    pub name: String,
    /// 0 stored, 8 deflated.
    pub method: u16,
    pub flags: u16,
    pub crc32: u32,
    pub compressed_size: u64,
    pub size: u64,
    /// Where the entry's local header starts.
    pub local_header: u64,
}

/// A central-directory record as the bytes hold it.
pub ghost struct Record {
    /// The name's bytes, with `\` turned into `/`.
    pub name: Seq<u8>,
    pub method: int,
    pub flags: int,
    pub crc32: int,
    pub compressed_size: int,
    pub size: int,
    pub local_header: int,
}

/// What kind of refusal a malformed archive gets.
pub enum Fault {
    /// [`ImportError::Invalid`].
    Invalid,
    /// [`ImportError::Unsupported`].
    Unsupported,
    /// [`ImportError::Truncated`].
    Truncated,
}

/// `e` is an error of the kind `f`, of this module.
pub open spec fn is_fault(e: ImportError, f: Fault) -> bool {
    match f {
        Fault::Invalid => is_invalid(e, FMT),
        Fault::Unsupported => is_unsupported(e, FMT),
        Fault::Truncated => is_truncated(e, FMT),
    }
}

/// `e` holds the record `r`: the same fields, and its name the text of the record's name
/// bytes, invalid UTF-8 replaced ([`lossy_text`]).
pub open spec fn holds(e: Entry, r: Record) -> bool {
    &&& e.method == r.method
    &&& e.flags == r.flags
    &&& e.crc32 == r.crc32
    &&& e.compressed_size == r.compressed_size
    &&& e.size == r.size
    &&& e.local_header == r.local_header
    &&& e.name@ == lossy_text(r.name)
    &&& vstd::utf8::valid_utf8(r.name) ==> e.name@ == vstd::utf8::decode_utf8(r.name)
}

/// `\` turned into `/`.
pub open spec fn slashed(s: Seq<u8>) -> Seq<u8> {
    s.map_values(|b: u8|
        if b == 92u8 {
            47u8
        } else {
            b
        })
}

/// Whether an end-of-central-directory record starts at `i`: its signature, and a comment
/// whose length reaches exactly the end of the file.
pub open spec fn eocd_at(b: Seq<u8>, i: int) -> bool {
    &&& 0 <= i
    &&& i + 22 <= b.len()
    &&& le32(b, i) == 0x06054b50
    &&& i + 22 + le16(b, i + 20) == b.len()
}

/// The end-of-central-directory record: the last one at or below `i`, and at or above `min`.
pub open spec fn eocd_from(b: Seq<u8>, i: int, min: int) -> Option<int>
    decreases i - min + 1,
{
    if i < min || i < 0 {
        None
    } else if eocd_at(b, i) {
        Some(i)
    } else {
        eocd_from(b, i - 1, min)
    }
}

/// Where the end-of-central-directory record starts: searched backwards from the end, over the
/// 22 bytes of the record and a comment of up to 65,535.
pub open spec fn spec_eocd(b: Seq<u8>) -> Option<int> {
    if b.len() < 22 {
        None
    } else {
        let min = if b.len() > 22 + 65535 {
            b.len() - (22 + 65535)
        } else {
            0
        };
        eocd_from(b, b.len() - 22, min)
    }
}

/// The records `i`, `i + 1`, ... below `total` of the central directory `cd`, record `i` at
/// `p`; or what refuses the first record that cannot be read.
pub open spec fn spec_records(cd: Seq<u8>, total: int, i: int, p: int) -> Result<
    Seq<Record>,
    Fault,
>
    decreases total - i,
{
    if i >= total {
        Ok(Seq::empty())
    } else if p + 4 > cd.len() || le32(cd, p) != 0x02014b50 {
        Err(Fault::Invalid)
    } else if p + 46 > cd.len() || p + 46 + le16(cd, p + 28) > cd.len() {
        Err(Fault::Truncated)
    } else if le32(cd, p + 20) == 0xFFFFFFFF || le32(cd, p + 24) == 0xFFFFFFFF || le32(cd, p + 42)
        == 0xFFFFFFFF {
        Err(Fault::Unsupported)
    } else {
        let name_len = le16(cd, p + 28);
        let r = Record {
            name: slashed(cd.subrange(p + 46, p + 46 + name_len)),
            method: le16(cd, p + 10),
            flags: le16(cd, p + 8),
            crc32: le32(cd, p + 16),
            compressed_size: le32(cd, p + 20),
            size: le32(cd, p + 24),
            local_header: le32(cd, p + 42),
        };
        let next = p + 46 + name_len + le16(cd, p + 30) + le16(cd, p + 32);
        match spec_records(cd, total, i + 1, next) {
            Ok(rest) => Ok(seq![r] + rest),
            Err(f) => Err(f),
        }
    }
}

/// What [`Archive::parse`] finds: the records of the central directory, or what refuses the
/// archive first.
pub open spec fn spec_directory(b: Seq<u8>) -> Result<Seq<Record>, Fault> {
    match spec_eocd(b) {
        None => Err(Fault::Invalid),
        Some(e) => {
            let disk = le16(b, e + 4);
            let cd_disk = le16(b, e + 6);
            let on_disk = le16(b, e + 8);
            let total = le16(b, e + 10);
            let cd_size = le32(b, e + 12);
            let cd_offset = le32(b, e + 16);
            if total == 0xFFFF || cd_size == 0xFFFFFFFF || cd_offset == 0xFFFFFFFF {
                Err(Fault::Unsupported)
            } else if disk != 0 || cd_disk != 0 || on_disk != total {
                Err(Fault::Unsupported)
            } else if cd_offset + cd_size > e {
                Err(Fault::Invalid)
            } else if total * 46 > cd_size {
                Err(Fault::Truncated)
            } else {
                spec_records(b.subrange(cd_offset, cd_offset + cd_size), total, 0, 0)
            }
        },
    }
}

/// A parsed archive, borrowing its bytes.
#[derive(Debug)]
pub struct Archive<'a> {
    bytes: &'a [u8],
    entries: Vec<Entry>,
}

impl<'a> Archive<'a> {
    /// The bytes of the archive.
    pub closed spec fn data(&self) -> Seq<u8> {
        self.bytes@
    }

    /// Its entries.
    pub closed spec fn listed(&self) -> Seq<Entry> {
        self.entries@
    }
}

/// The record found is one.
pub proof fn lemma_eocd_found(b: Seq<u8>, i: int, min: int)
    ensures
        eocd_from(b, i, min) matches Some(e) ==> eocd_at(b, e),
    decreases i - min + 1,
{
    if i < min || i < 0 {
    } else if eocd_at(b, i) {
    } else {
        lemma_eocd_found(b, i - 1, min);
    }
}

/// A record past the end of the directory has no signature.
pub proof fn lemma_records_far(cd: Seq<u8>, total: int, i: int, q: int)
    requires
        q > cd.len(),
    ensures
        spec_records(cd, total, i, q) == (if i >= total {
            Ok(Seq::<Record>::empty())
        } else {
            Err::<Seq<Record>, Fault>(Fault::Invalid)
        }),
{
}

/// Searches for the end-of-central-directory record.
fn find_eocd(bytes: &[u8]) -> (r: Option<usize>)
    ensures
        match r {
            Some(i) => spec_eocd(bytes@) == Some(i as int),
            None => spec_eocd(bytes@) is None,
        },
{
    let len = bytes.len();
    if len < 22 {
        return None;
    }
    let min: usize = if len > 22 + 65535 {
        len - (22 + 65535)
    } else {
        0
    };
    let mut i: usize = len - 22;
    loop
        invariant
            len == bytes@.len(),
            len >= 22,
            min <= len - 22,
            min == (if len > 22 + 65535 {
                len - (22 + 65535)
            } else {
                0
            }),
            min <= i + 1,
            i <= len - 22,
            spec_eocd(bytes@) == eocd_from(bytes@, i as int, min as int),
        decreases i,
    {
        if i < min {
            return None;
        }
        let sig = u32_at(bytes, i);
        let c = u16_at(bytes, i + 20);
        if sig == Some(0x06054b50u32) && c.is_some() && c.unwrap() as usize == len - 22 - i {
            return Some(i);
        }
        if i == 0 {
            assert(eocd_from(bytes@, -1, min as int) == None::<int>);
            return None;
        }
        i = i - 1;
    }
}

/// The records of the central directory `cd`, `total` of them.
fn read_records(cd: &[u8], total: u16) -> (r: Result<Vec<Entry>, ImportError>)
    ensures
        match (r, spec_records(cd@, total as int, 0, 0)) {
            (Ok(v), Ok(s)) => v@.len() == s.len() && forall|k: int|
                0 <= k < s.len() ==> holds(#[trigger] v@[k], s[k]),
            (Err(e), Err(f)) => is_fault(e, f),
            _ => false,
        },
{
    let mut entries: Vec<Entry> = Vec::new();
    let mut p: usize = 0;
    let mut i: u16 = 0;
    let ghost mut done: Seq<Record> = Seq::empty();
    while i < total
        invariant
            i <= total,
            entries@.len() == done.len(),
            forall|k: int| 0 <= k < done.len() ==> holds(#[trigger] entries@[k], done[k]),
            match spec_records(cd@, total as int, 0, 0) {
                Ok(all) => spec_records(cd@, total as int, i as int, p as int) matches Ok(rest)
                    && all == done + rest,
                Err(f) => spec_records(cd@, total as int, i as int, p as int) == Err::<
                    Seq<Record>,
                    Fault,
                >(f),
            },
        decreases total - i,
    {
        let sig = u32_at(cd, p);
        if sig != Some(0x02014b50u32) {
            return Err(ImportError::invalid(FMT, message_u64("central-directory record ", i as u64, " has no signature")));
        }
        let bad = message_u64("central-directory record ", i as u64, "");
        if p > cd.len() || cd.len() - p < 46 {
            return Err(ImportError::truncated(FMT, bad));
        }
        let flags = u16_at(cd, p + 8).unwrap();
        let method = u16_at(cd, p + 10).unwrap();
        let crc32 = u32_at(cd, p + 16).unwrap();
        let csize = u32_at(cd, p + 20).unwrap();
        let size = u32_at(cd, p + 24).unwrap();
        let name_len = u16_at(cd, p + 28).unwrap() as usize;
        let extra_len = u16_at(cd, p + 30).unwrap() as usize;
        let comment_len = u16_at(cd, p + 32).unwrap() as usize;
        let local = u32_at(cd, p + 42).unwrap();
        if cd.len() - (p + 46) < name_len {
            return Err(ImportError::truncated(FMT, bad));
        }
        if csize == 0xFFFF_FFFFu32 || size == 0xFFFF_FFFFu32 || local == 0xFFFF_FFFFu32 {
            return Err(ImportError::unsupported(FMT, message_str("", "ZIP64 entries", "")));
        }
        let raw = slice_subrange(cd, p + 46, p + 46 + name_len);
        let mut name_bytes: Vec<u8> = Vec::new();
        let mut k: usize = 0;
        while k < raw.len()
            invariant
                k <= raw@.len(),
                name_bytes@ == slashed(raw@.subrange(0, k as int)),
            decreases raw@.len() - k,
        {
            let b = raw[k];
            name_bytes.push(
                if b == 92u8 {
                    47u8
                } else {
                    b
                },
            );
            assert(raw@.subrange(0, k + 1) =~= raw@.subrange(0, k as int).push(b));
            assert(slashed(raw@.subrange(0, k + 1)) =~= slashed(raw@.subrange(0, k as int)).push(
                if b == 92u8 {
                    47u8
                } else {
                    b
                },
            ));
            k = k + 1;
        }
        assert(raw@.subrange(0, raw@.len() as int) =~= raw@);
        let name = string_from_utf8_lossy(name_bytes.as_slice());
        let entry = Entry {
            name,
            method,
            flags,
            crc32,
            compressed_size: csize as u64,
            size: size as u64,
            local_header: local as u64,
        };
        let ghost rec = Record {
            name: slashed(cd@.subrange(p + 46, p + 46 + name_len)),
            method: method as int,
            flags: flags as int,
            crc32: crc32 as int,
            compressed_size: csize as int,
            size: size as int,
            local_header: local as int,
        };
        assert(holds(entry, rec));
        let ghost old_i = i as int;
        let ghost old_p = p as int;
        let ghost next: int = p + 46 + name_len + extra_len + comment_len;
        assert(raw@ == cd@.subrange(p + 46, p + 46 + name_len));
        assert(spec_records(cd@, total as int, old_i, old_p) == match spec_records(
            cd@,
            total as int,
            old_i + 1,
            next,
        ) {
            Ok(rest) => Ok(seq![rec] + rest),
            Err(f) => Err(f),
        });
        entries.push(entry);
        let ghost old_done = done;
        proof {
            done = done.push(rec);
        }
        let step = 46 + name_len + extra_len + comment_len;
        if p > usize::MAX - step {
            // The next record would start past the end of any directory.
            proof {
                lemma_records_far(cd@, total as int, i + 1, next);
            }
            if i + 1 < total {
                return Err(
                    ImportError::invalid(
                        FMT,
                        message_u64("central-directory record ", (i + 1) as u64, " has no signature"),
                    ),
                );
            }
            proof {
                match spec_records(cd@, total as int, 0, 0) {
                    Ok(all) => {
                        assert(old_done + seq![rec] =~= done);
                        assert(all =~= done);
                    },
                    Err(f) => {},
                }
            }
            return Ok(entries);
        }
        p = p + step;
        i = i + 1;
        proof {
            assert forall|k: int| 0 <= k < done.len() implies holds(#[trigger] entries@[k], done[k]) by {
                if k < done.len() - 1 {
                    assert(done[k] == old_done[k]);
                }
            }
            match spec_records(cd@, total as int, 0, 0) {
                Ok(all) => {
                    let rest = spec_records(cd@, total as int, i as int, p as int)->Ok_0;
                    assert(old_done + (seq![rec] + rest) =~= done + rest);
                },
                Err(f) => {},
            }
        }
    }
    proof {
        match spec_records(cd@, total as int, 0, 0) {
            Ok(all) => {
                assert(all =~= done);
            },
            Err(f) => {},
        }
    }
    Ok(entries)
}

impl<'a> Archive<'a> {
    /// Reads the central directory ([`spec_directory`]): the entries it lists, in its order, or
    /// the refusal of the first thing that fails.
    pub fn parse(bytes: &'a [u8]) -> (r: Result<Archive<'a>, ImportError>)
        ensures
            match (r, spec_directory(bytes@)) {
                (Ok(a), Ok(s)) => a.data() == bytes@ && a.listed().len() == s.len() && forall|k: int|
                    0 <= k < s.len() ==> holds(#[trigger] a.listed()[k], s[k]),
                (Err(e), Err(f)) => is_fault(e, f),
                _ => false,
            },
    {
        proof {
            if bytes@.len() >= 22 {
                let min = if bytes@.len() > 22 + 65535 {
                    bytes@.len() - (22 + 65535)
                } else {
                    0
                };
                lemma_eocd_found(bytes@, bytes@.len() - 22, min);
            }
        }
        let e = match find_eocd(bytes) {
            Some(e) => e,
            None => {
                return Err(
                    ImportError::invalid(
                        FMT,
                        message_str("", "no end-of-central-directory record: not a zip archive", ""),
                    ),
                );
            },
        };
        let blen = bytes.len();
        assert(eocd_at(bytes@, e as int));
        let disk = u16_at(bytes, e + 4).unwrap();
        let cd_disk = u16_at(bytes, e + 6).unwrap();
        let on_disk = u16_at(bytes, e + 8).unwrap();
        let total = u16_at(bytes, e + 10).unwrap();
        let cd_size = u32_at(bytes, e + 12).unwrap();
        let cd_offset = u32_at(bytes, e + 16).unwrap();
        if total == 0xFFFFu16 || cd_size == 0xFFFF_FFFFu32 || cd_offset == 0xFFFF_FFFFu32 {
            return Err(ImportError::unsupported(FMT, message_str("", "ZIP64 archives", "")));
        }
        if disk != 0 || cd_disk != 0 || on_disk != total {
            return Err(ImportError::unsupported(FMT, message_str("", "multi-disk archives", "")));
        }
        let cd_start = cd_offset as usize;
        if cd_start > e || e - cd_start < cd_size as usize {
            return Err(
                ImportError::invalid(
                    FMT,
                    message_str("", "the central directory lies outside the file", ""),
                ),
            );
        }
        let cd_end = cd_start + cd_size as usize;
        let cd = slice_subrange(bytes, cd_start, cd_end);
        if (total as u64) * 46 > cd.len() as u64 {
            let mut m = message_u64("the ", total as u64, " central-directory records");
            return Err(ImportError::truncated(FMT, m));
        }
        let entries = read_records(cd, total)?;
        Ok(Archive { bytes, entries })
    }

    /// The entries of the central directory, in its order.
    pub fn entries(&self) -> (r: &[Entry])
        ensures
            r@ == self.listed(),
    {
        self.entries.as_slice()
    }

    /// The one entry with this exact name. Two entries with one name is
    /// [`ImportError::Invalid`], since which one a reader would take is arbitrary.
    pub fn find(&self, name: &str) -> (r: Result<Option<&Entry>, ImportError>)
        ensures
            found(self.listed(), name@, r),
            match r {
                Ok(None) => forall|k: int|
                    0 <= k < self.listed().len() ==> (#[trigger] self.listed()[k]).name@ != name@,
                Ok(Some(e)) => exists|k: int|
                    0 <= k < self.listed().len() && self.listed()[k] == *e && e.name@ == name@
                        && forall|j: int|
                        0 <= j < self.listed().len() && j != k ==> (#[trigger] self.listed()[j]).name@
                            != name@,
                Err(e) => is_invalid(e, FMT) && exists|k: int, j: int|
                    0 <= k < j < self.listed().len() && (#[trigger] self.listed()[k]).name@ == name@
                        && (#[trigger] self.listed()[j]).name@ == name@,
            },
    {
        let mut first: Option<usize> = None;
        let mut k: usize = 0;
        while k < self.entries.len()
            invariant
                k <= self.entries@.len(),
                match first {
                    None => forall|j: int| 0 <= j < k ==> (#[trigger] self.entries@[j]).name@ != name@,
                    Some(f) => f < k && self.entries@[f as int].name@ == name@ && forall|j: int|
                        0 <= j < k && j != f ==> (#[trigger] self.entries@[j]).name@ != name@,
                },
            decreases self.entries@.len() - k,
        {
            if crate::import::str_eq(self.entries[k].name.as_str(), name) {
                match first {
                    None => {
                        first = Some(k);
                    },
                    Some(f) => {
                        assert(self.listed()[f as int].name@ == name@);
                        assert(self.listed()[k as int].name@ == name@);
                        return Err(
                            ImportError::invalid(FMT, message_str("the archive holds `", name, "` twice")),
                        );
                    },
                }
            }
            k = k + 1;
        }
        assert(self.listed() == self.entries@);
        match first {
            None => Ok(None),
            Some(f) => Ok(Some(&self.entries[f])),
        }
    }
}

// ---------------------------------------------------------------------------------------------
// CRC-32 (IEEE 802.3, reflected, polynomial 0xEDB88320).

/// One bit of the CRC register shifted out.
pub open spec fn crc_shift(c: u32) -> u32 {
    if c & 1 != 0 {
        0xEDB8_8320u32 ^ (c >> 1u32)
    } else {
        c >> 1u32
    }
}

/// The register after `k` shifts.
pub open spec fn crc_shifts(c: u32, k: nat) -> u32
    decreases k,
{
    if k == 0 {
        c
    } else {
        crc_shifts(crc_shift(c), (k - 1) as nat)
    }
}

/// The register after the bytes `data`, from `c`.
pub open spec fn crc_fold(c: u32, data: Seq<u8>) -> u32
    decreases data.len(),
{
    if data.len() == 0 {
        c
    } else {
        crc_fold(crc_shifts(c ^ (data[0] as u32), 8), data.drop_first())
    }
}

/// The CRC-32 of `data`: the register starts all ones and ends inverted.
pub open spec fn spec_crc32(data: Seq<u8>) -> u32 {
    crc_fold(0xFFFF_FFFFu32, data) ^ 0xFFFF_FFFFu32
}

/// The CRC-32 zip uses ([`spec_crc32`]).
pub fn crc32(data: &[u8]) -> (r: u32)
    ensures
        r == spec_crc32(data@),
{
    let mut c: u32 = 0xFFFF_FFFFu32;
    let mut i: usize = 0;
    assert(data@.skip(0) =~= data@);
    while i < data.len()
        invariant
            i <= data@.len(),
            crc_fold(0xFFFF_FFFFu32, data@) == crc_fold(c, data@.skip(i as int)),
        decreases data@.len() - i,
    {
        let mut x: u32 = c ^ (data[i] as u32);
        let mut k: u32 = 0;
        while k < 8
            invariant
                k <= 8,
                crc_shifts(c ^ (data@[i as int] as u32), 8) == crc_shifts(x, (8 - k) as nat),
            decreases 8 - k,
        {
            x = if x & 1 != 0 {
                0xEDB8_8320u32 ^ (x >> 1u32)
            } else {
                x >> 1u32
            };
            k = k + 1;
        }
        assert(data@.skip(i as int).drop_first() =~= data@.skip(i + 1));
        c = x;
        i = i + 1;
    }
    c ^ 0xFFFF_FFFFu32
}

/// Each central-directory record after the first starts where the one before it ends: at its
/// start, plus its 46 fixed bytes, plus the lengths of its file name, extra field and comment
/// (the 16-bit fields at offsets 28, 30 and 32). So when the records from `p` are read, the
/// next one carries the record signature there, and the records after the first are those read
/// from there.
pub proof fn lemma_records_follow(cd: Seq<u8>, total: int, i: int, p: int)
    requires
        spec_records(cd, total, i, p) is Ok,
        i + 1 < total,
    ensures
        ({
            let q = p + 46 + le16(cd, p + 28) + le16(cd, p + 30) + le16(cd, p + 32);
            &&& le32(cd, q) == 0x02014b50
            &&& spec_records(cd, total, i + 1, q) is Ok
            &&& spec_records(cd, total, i, p)->Ok_0.len() == total - i
            &&& spec_records(cd, total, i, p)->Ok_0.drop_first() == spec_records(cd, total, i + 1, q)->Ok_0
            &&& spec_records(cd, total, i, p)->Ok_0[0].name == slashed(cd.subrange(p + 46, p + 46 + le16(cd, p + 28)))
        }),
    decreases total - i,
{
    let q = p + 46 + le16(cd, p + 28) + le16(cd, p + 30) + le16(cd, p + 32);
    lemma_records_len(cd, total, i, p);
    let rs = spec_records(cd, total, i, p)->Ok_0;
    let rest = spec_records(cd, total, i + 1, q)->Ok_0;
    assert(rs.drop_first() =~= rest);
}

/// The records read from `p` are one per record left.
proof fn lemma_records_len(cd: Seq<u8>, total: int, i: int, p: int)
    requires
        spec_records(cd, total, i, p) is Ok,
        i <= total,
    ensures
        spec_records(cd, total, i, p)->Ok_0.len() == total - i,
    decreases total - i,
{
    if i < total {
        let q = p + 46 + le16(cd, p + 28) + le16(cd, p + 30) + le16(cd, p + 32);
        lemma_records_len(cd, total, i + 1, q);
    }
}

} // verus!

verus! {

/// The compressed bytes of an entry, found through its local header, with the checks made
/// before any inflating: not encrypted, a local header with its signature, data within the
/// file, a method of 0 (whose two sizes agree) or 8 (whose size deflate's ratio allows).
pub open spec fn entry_data(b: Seq<u8>, e: Entry) -> Result<Seq<u8>, Fault> {
    let lh = e.local_header as int;
    if e.flags & 1 != 0 {
        Err(Fault::Unsupported)
    } else if lh + 4 > b.len() || le32(b, lh) != 0x04034b50 {
        Err(Fault::Invalid)
    } else if lh + 30 > b.len() {
        Err(Fault::Truncated)
    } else {
        let start = lh + 30 + le16(b, lh + 26) + le16(b, lh + 28);
        if start + e.compressed_size > b.len() {
            Err(Fault::Truncated)
        } else if e.method == 0 {
            if e.size != e.compressed_size {
                Err(Fault::Invalid)
            } else {
                Ok(b.subrange(start, start + e.compressed_size))
            }
        } else if e.method == 8 {
            if e.size > e.compressed_size * MAX_DEFLATE_RATIO + 64 {
                Err(Fault::Invalid)
            } else {
                Ok(b.subrange(start, start + e.compressed_size))
            }
        } else {
            Err(Fault::Unsupported)
        }
    }
}

/// What [`Archive::find`] gives for `name` among the entries `listed`: none when no entry has
/// that name; the one entry that has it; or [`ImportError::Invalid`] when two have it.
pub open spec fn found(listed: Seq<Entry>, name: Seq<char>, r: Result<Option<&Entry>, ImportError>) -> bool {
    match r {
        Ok(None) => forall|k: int| 0 <= k < listed.len() ==> (#[trigger] listed[k]).name@ != name,
        Ok(Some(e)) => exists|k: int|
            0 <= k < listed.len() && listed[k] == *e && e.name@ == name && forall|j: int|
                0 <= j < listed.len() && j != k ==> (#[trigger] listed[j]).name@ != name,
        Err(e) => invalid_with(e, twice_message(name)) && exists|k: int, j: int|
            0 <= k < j < listed.len() && (#[trigger] listed[k]).name@ == name && (#[trigger] listed[j]).name@
                == name,
    }
}

/// `e` is an [`ImportError::Invalid`] of this module whose message is `m`.
pub open spec fn invalid_with(e: ImportError, m: Seq<char>) -> bool {
    e matches ImportError::Invalid { format, message } && format@ == FMT@ && message@ == m
}

/// `a` and `b` are the same [`ImportError::Invalid`]: the same format and message.
pub open spec fn same_error(a: ImportError, b: ImportError) -> bool {
    match (a, b) {
        (ImportError::Invalid { format: f1, message: m1 }, ImportError::Invalid { format: f2, message: m2 }) => f1@
            == f2@ && m1@ == m2@,
        _ => false,
    }
}

/// The refusal of a name two entries have.
pub open spec fn twice_message(name: Seq<char>) -> Seq<char> {
    "the archive holds `"@ + name + "` twice"@
}

/// The refusal of a name no entry has.
pub open spec fn missing_message(name: Seq<char>) -> Seq<char> {
    "the archive holds no `"@ + name + "`"@
}

/// What [`Archive::read`] gives for `name`: the refusal of a name two entries have, or that
/// none has; otherwise what reading the one entry with that name gives ([`read_outcome`]).
pub open spec fn read_result(listed: Seq<Entry>, data: Seq<u8>, name: Seq<char>, r: Result<Vec<u8>, ImportError>) -> bool {
    if exists|k: int, j: int|
        0 <= k < j < listed.len() && (#[trigger] listed[k]).name@ == name && (#[trigger] listed[j]).name@ == name {
        r matches Err(e) && invalid_with(e, twice_message(name))
    } else if forall|k: int| 0 <= k < listed.len() ==> (#[trigger] listed[k]).name@ != name {
        r matches Err(e) && invalid_with(e, missing_message(name))
    } else {
        exists|k: int| 0 <= k < listed.len() && (#[trigger] listed[k]).name@ == name && read_outcome(data, listed[k], r)
    }
}

/// Reading by name is finding, then reading the entry found: whatever [`Archive::find`] and
/// [`Archive::read`] give for one name of one archive, the read refuses with find's own refusal,
/// with [`missing_message`] when find finds nothing, and otherwise gives what reading the entry
/// find found gives.
pub proof fn lemma_read_is_find_then_read_entry(
    listed: Seq<Entry>,
    data: Seq<u8>,
    name: Seq<char>,
    f: Result<Option<&Entry>, ImportError>,
    r: Result<Vec<u8>, ImportError>,
)
    requires
        found(listed, name, f),
        read_result(listed, data, name, r),
    ensures
        match f {
            Err(e) => r matches Err(x) && same_error(x, e),
            Ok(None) => r matches Err(x) && invalid_with(x, missing_message(name)),
            Ok(Some(e)) => read_outcome(data, *e, r),
        },
{
    match f {
        Err(e) => {},
        Ok(None) => {},
        Ok(Some(e)) => {
            let k = choose|k: int|
                0 <= k < listed.len() && listed[k] == *e && e.name@ == name && forall|j: int|
                    0 <= j < listed.len() && j != k ==> (#[trigger] listed[j]).name@ != name;
            assert(listed[k].name@ == name);
            if exists|a: int, b: int|
                0 <= a < b < listed.len() && (#[trigger] listed[a]).name@ == name && (#[trigger] listed[b]).name@ == name {
                let (a, b) = choose|a: int, b: int|
                    0 <= a < b < listed.len() && (#[trigger] listed[a]).name@ == name && (#[trigger] listed[b]).name@ == name;
                if a != k {
                    assert(listed[a].name@ != name);
                } else {
                    assert(listed[b].name@ != name);
                }
            }
            let q = choose|q: int| 0 <= q < listed.len() && (#[trigger] listed[q]).name@ == name && read_outcome(data, listed[q], r);
            if q != k {
                assert(listed[q].name@ != name);
            }
        },
    }
}

/// Whether `d` inflates ([`blocks_from`]) to exactly `size` bytes whose CRC-32 is `crc`.
pub open spec fn inflates_to(d: Seq<u8>, size: u64, crc: u32) -> bool {
    blocks_from(d, 0, seq![], size as int) matches Ok(o) && o.len() == size && spec_crc32(o) == crc
}

/// What reading the entry `e` of the archive bytes `b` gives: the refusal of the checks
/// before inflating; a stored entry's bytes, when their CRC-32 is the declared one; what a
/// deflated entry's bytes inflate to, when that is of the declared size and CRC-32; and
/// otherwise [`ImportError::Invalid`].
pub open spec fn read_outcome(b: Seq<u8>, e: Entry, r: Result<Vec<u8>, ImportError>) -> bool {
    match entry_data(b, e) {
        Err(f) => (r matches Err(x) && is_fault(x, f)),
        Ok(d) => match r {
            Ok(out) => {
                &&& spec_crc32(out@) == e.crc32
                &&& out@.len() == e.size
                &&& e.method == 0 ==> out@ == d
                &&& e.method == 8 ==> inflates_to(d, e.size, e.crc32) && blocks_from(
                    d,
                    0,
                    seq![],
                    e.size as int,
                ) == Ok::<Seq<u8>, ()>(out@)
            },
            Err(x) => {
                &&& is_invalid(x, FMT)
                &&& e.method == 0 ==> spec_crc32(d) != e.crc32
                &&& e.method == 8 && e.size <= usize::MAX ==> !inflates_to(d, e.size, e.crc32)
            },
        },
    }
}

impl<'a> Archive<'a> {
    /// The contents of the entry with this name ([`Archive::find`], then
    /// [`Archive::read_entry`]). No entry of that name, or two, is [`ImportError::Invalid`].
    pub fn read(&self, name: &str) -> (r: Result<Vec<u8>, ImportError>)
        ensures
            read_result(self.listed(), self.data(), name@, r),
    {
        let f = self.find(name);
        proof {
            assert(found(self.listed(), name@, f));
        }
        match f {
            Err(e) => Err(e),
            Ok(None) => Err(ImportError::invalid(FMT, message_str("the archive holds no `", name, "`"))),
            Ok(Some(entry)) => self.read_entry(entry),
        }
    }

    /// The contents of an entry, inflated and checked ([`read_outcome`]).
    pub fn read_entry(&self, entry: &Entry) -> (r: Result<Vec<u8>, ImportError>)
        ensures
            read_outcome(self.data(), *entry, r),
    {
        let bytes = self.bytes;
        let what = message_str("entry `", entry.name.as_str(), "`");
        if entry.flags & 1 != 0 {
            return Err(ImportError::unsupported(FMT, message_str("", what.as_str(), " is encrypted")));
        }
        let lh64 = entry.local_header;
        if lh64 > bytes.len() as u64 || u32_at(bytes, lh64 as usize) != Some(0x0403_4b50u32) {
            return Err(ImportError::invalid(FMT, message_str("", what.as_str(), " has no local header")));
        }
        let lh = lh64 as usize;
        if bytes.len() - lh < 30 {
            return Err(ImportError::truncated(FMT, what));
        }
        let name_len = u16_at(bytes, lh + 26).unwrap() as usize;
        let extra_len = u16_at(bytes, lh + 28).unwrap() as usize;
        let csize64 = entry.compressed_size;
        let room = (bytes.len() - (lh + 30)) as u64;
        if (name_len + extra_len) as u64 > room || csize64 > room - (name_len + extra_len) as u64 {
            return Err(ImportError::truncated(FMT, what));
        }
        let start = lh + 30 + name_len + extra_len;
        let data = slice_subrange(bytes, start, start + csize64 as usize);
        let out: Vec<u8> = if entry.method == 0 {
            if entry.size != entry.compressed_size {
                return Err(ImportError::invalid(FMT, message_str("", what.as_str(), " is stored but its two sizes differ")));
            }
            vstd::slice::slice_to_vec(data)
        } else if entry.method == 8 {
            let cap: u64 = if csize64 > (u64::MAX - 64) / MAX_DEFLATE_RATIO {
                u64::MAX
            } else {
                csize64 * MAX_DEFLATE_RATIO + 64
            };
            if entry.size > cap {
                let mut m = message_u64("", entry.size, "");
                let mut full = message_str("", what.as_str(), " declares ");
                full.append(m.as_str());
                full.append(" bytes from ");
                push_u64(&mut full, entry.compressed_size);
                full.append(" compressed, beyond deflate's ratio");
                return Err(ImportError::invalid(FMT, full));
            }
            // The declared size is at most what `data` can inflate to, which fits in memory.
            if entry.size > usize::MAX as u64 {
                return Err(ImportError::invalid(FMT, message_str("", what.as_str(), " declares more bytes than memory holds")));
            }
            let out = match inflate(data, entry.size as usize) {
                Ok(o) => o,
                Err(m) => {
                    let mut full = message_str("", what.as_str(), ": ");
                    full.append(m.as_str());
                    return Err(ImportError::invalid(FMT, full));
                },
            };
            if out.len() as u64 != entry.size {
                let mut full = message_str("", what.as_str(), " inflates to ");
                push_u64(&mut full, out.len() as u64);
                full.append(" bytes, not the ");
                push_u64(&mut full, entry.size);
                full.append(" declared");
                return Err(ImportError::invalid(FMT, full));
            }
            out
        } else {
            let mut full = message_str("", what.as_str(), " uses compression method ");
            push_u64(&mut full, entry.method as u64);
            return Err(ImportError::unsupported(FMT, full));
        };
        let crc = crc32(out.as_slice());
        if crc != entry.crc32 {
            let mut full = message_str("", what.as_str(), " fails its CRC-32: ");
            push_u64(&mut full, crc as u64);
            full.append(", the directory says ");
            push_u64(&mut full, entry.crc32 as u64);
            return Err(ImportError::invalid(FMT, full));
        }
        Ok(out)
    }
}

} // verus!
