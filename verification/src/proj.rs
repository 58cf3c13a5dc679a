//! Upstream I-Simpa projects (`.proj`): the parts of the import that read bytes, names and
//! integers. Which archive entry is the project's element tree; the face lists (`.finfo`) and the
//! project faces they name; which surface group, receiver and fitting zones list each face, and
//! the faces two of them claim; the element ids upstream's GUI reads with `wxString::ToLong`.
use vstd::prelude::*;
use vstd::slice::slice_subrange;
use vstd::string::StringSliceAdditionalSpecFns;

use crate::import::{ImportError, is_invalid, is_unsupported};
use crate::scene::SceneMesh;
use crate::zip::{Archive, read_outcome, read_result};
use crate::text::{all_digits, digits_value, is_digit, message_str, message_u64};

verus! {

/// The format name of errors in the project archive as a whole.
pub const FMT_PROJ: &'static str = "proj";

/// The format name of `.finfo` errors.
pub const FMT_FINFO: &'static str = "finfo";

/// The format name of `projet_config.xml` errors.
pub const FMT_XML: &'static str = "projet_config.xml";

/// The format name of `sceneMesh.bin` errors.
pub const FMT_MESH: &'static str = "sceneMesh.bin";

/// The largest value the solvers read as a C `int` id.
pub const SOLVER_INT_MAX: u32 = 2147483647;

/// The kinds of entity whose upstream element ids an import records.
#[derive(Clone, Copy, Debug, PartialEq, Eq, Hash, Structural)]
pub enum UpstreamKind {
    Source,
    PointReceiver,
    /// A scene surface receiver.
    SurfaceReceiver,
    /// A cutting-plane surface receiver.
    CuttingPlane,
    FittingZone,
}

/// The `config.xml` element that carries a kind's id.
pub open spec fn spec_config_element(k: UpstreamKind) -> Seq<char> {
    match k {
        UpstreamKind::Source => "source"@,
        UpstreamKind::PointReceiver => "recepteur_ponctuel"@,
        UpstreamKind::SurfaceReceiver => "recepteur_surfacique"@,
        UpstreamKind::CuttingPlane => "recepteur_surfacique_coupe"@,
        UpstreamKind::FittingZone => "encombrement"@,
    }
}

/// A kind's name in words.
pub open spec fn spec_kind_name(k: UpstreamKind) -> Seq<char> {
    match k {
        UpstreamKind::Source => "source"@,
        UpstreamKind::PointReceiver => "point receiver"@,
        UpstreamKind::SurfaceReceiver => "surface receiver"@,
        UpstreamKind::CuttingPlane => "cutting plane"@,
        UpstreamKind::FittingZone => "fitting zone"@,
    }
}

impl UpstreamKind {
    /// The `config.xml` element that carries this kind's id.
    pub fn config_element(self) -> (r: &'static str)
        ensures
            r@ == spec_config_element(self),
    {
        match self {
            UpstreamKind::Source => "source",
            UpstreamKind::PointReceiver => "recepteur_ponctuel",
            UpstreamKind::SurfaceReceiver => "recepteur_surfacique",
            UpstreamKind::CuttingPlane => "recepteur_surfacique_coupe",
            UpstreamKind::FittingZone => "encombrement",
        }
    }

    /// The kind in words.
    pub fn name(self) -> (r: &'static str)
        ensures
            r@ == spec_kind_name(self),
    {
        match self {
            UpstreamKind::Source => "source",
            UpstreamKind::PointReceiver => "point receiver",
            UpstreamKind::SurfaceReceiver => "surface receiver",
            UpstreamKind::CuttingPlane => "cutting plane",
            UpstreamKind::FittingZone => "fitting zone",
        }
    }
}

// ---------------------------------------------------------------------------------------------
// Integers as upstream reads them.

/// The white space `strtol` skips: space, tab, line feed, carriage return, vertical tab, form
/// feed.
pub open spec fn is_c_space(b: u8) -> bool {
    b == 32 || b == 9 || b == 10 || b == 13 || b == 11 || b == 12
}

/// How many bytes of white space `s` starts with.
pub open spec fn c_space_len(s: Seq<u8>) -> nat
    decreases s.len(),
{
    if s.len() > 0 && is_c_space(s[0]) {
        1 + c_space_len(s.drop_first())
    } else {
        0
    }
}

/// `wxString::ToLong` in base 10: leading white space, an optional sign, one digit or more and
/// nothing after them, the value within a 32-bit `long`.
pub open spec fn spec_to_long(s: Seq<u8>) -> Option<i64> {
    let t = s.skip(c_space_len(s) as int);
    let negative = t.len() > 0 && t[0] == 45u8;
    let signed = t.len() > 0 && (t[0] == 45u8 || t[0] == 43u8);
    let d = if signed {
        t.drop_first()
    } else {
        t
    };
    let v: int = if negative {
        -(digits_value(d) as int)
    } else {
        digits_value(d) as int
    };
    if d.len() == 0 || !all_digits(d) || v < -2147483648 || v > 2147483647 {
        None
    } else {
        Some(v as i64)
    }
}

/// How many decimal digits `s` starts with.
pub open spec fn digit_run(s: Seq<u8>) -> nat
    decreases s.len(),
{
    if s.len() > 0 && is_digit(s[0]) {
        1 + digit_run(s.drop_first())
    } else {
        0
    }
}

/// `strtol` in base 10 as upstream's `Convertor::ToInt` keeps it: the sign and digits after the
/// leading white space, whatever follows them; `None` when there is no digit or the value
/// leaves a 32-bit `long`.
pub open spec fn spec_strtol_prefix(s: Seq<u8>) -> Option<i64> {
    let t = s.skip(c_space_len(s) as int);
    let sign: int = if t.len() > 0 && (t[0] == 45u8 || t[0] == 43u8) {
        1
    } else {
        0
    };
    let n = digit_run(t.skip(sign));
    if n == 0 {
        None
    } else {
        spec_to_long(t.take(sign + n))
    }
}

/// The white space at the start of `s`, counted.
fn c_space_count(s: &[u8]) -> (r: usize)
    ensures
        r == c_space_len(s@),
        r <= s@.len(),
{
    let mut i: usize = 0;
    assert(s@.skip(0) =~= s@);
    while i < s.len() && (s[i] == 32u8 || s[i] == 9u8 || s[i] == 10u8 || s[i] == 13u8 || s[i]
        == 11u8 || s[i] == 12u8)
        invariant
            i <= s@.len(),
            c_space_len(s@) == i + c_space_len(s@.skip(i as int)),
        decreases s@.len() - i,
    {
        assert(s@.skip(i as int).drop_first() =~= s@.skip(i + 1));
        i = i + 1;
    }
    i
}

/// The digits at the start of `s`, counted.
fn digit_count(s: &[u8]) -> (r: usize)
    ensures
        r == digit_run(s@),
        r <= s@.len(),
{
    let mut i: usize = 0;
    assert(s@.skip(0) =~= s@);
    while i < s.len() && 48u8 <= s[i] && s[i] <= 57u8
        invariant
            i <= s@.len(),
            digit_run(s@) == i + digit_run(s@.skip(i as int)),
        decreases s@.len() - i,
    {
        assert(s@.skip(i as int).drop_first() =~= s@.skip(i + 1));
        i = i + 1;
    }
    i
}

/// [`spec_to_long`] on bytes.
pub fn to_long_bytes(s: &[u8]) -> (r: Option<i64>)
    ensures
        r == spec_to_long(s@),
{
    let w = c_space_count(s);
    let t = slice_subrange(s, w, s.len());
    assert(t@ =~= s@.skip(w as int));
    let negative = t.len() > 0 && t[0] == 45u8;
    let signed = t.len() > 0 && (t[0] == 45u8 || t[0] == 43u8);
    let start: usize = if signed {
        1
    } else {
        0
    };
    if start == t.len() {
        return None;
    }
    assert(t@.subrange(start as int, t@.len() as int) =~= (if signed {
        t@.drop_first()
    } else {
        t@
    }));
    match crate::text::digits_upto(t, start, 2147483648u64) {
        None => None,
        Some(m) => {
            if negative {
                Some(-(m as i64))
            } else if m <= 2147483647u64 {
                Some(m as i64)
            } else {
                None
            }
        },
    }
}

/// `wxString::ToLong` in base 10 ([`spec_to_long`]): `Some` when the whole text reads as a
/// 32-bit C `long`.
pub fn to_long(s: &str) -> (r: Option<i64>)
    ensures
        r == spec_to_long(s.spec_bytes()),
{
    to_long_bytes(s.as_bytes())
}

/// The integer `strtol` reads at the start of `s` in base 10, as upstream's `Convertor::ToInt`
/// keeps it ([`spec_strtol_prefix`]): `2.5` gives 2.
pub fn strtol_prefix(s: &str) -> (r: Option<i64>)
    ensures
        r == spec_strtol_prefix(s.spec_bytes()),
{
    let b = s.as_bytes();
    let w = c_space_count(b);
    let t = slice_subrange(b, w, b.len());
    assert(t@ =~= b@.skip(w as int));
    let sign: usize = if t.len() > 0 && (t[0] == 45u8 || t[0] == 43u8) {
        1
    } else {
        0
    };
    let rest = slice_subrange(t, sign, t.len());
    assert(rest@ =~= t@.skip(sign as int));
    let n = digit_count(rest);
    if n == 0 {
        return None;
    }
    let head = slice_subrange(t, 0, sign + n);
    assert(head@ =~= t@.take(sign + n));
    to_long_bytes(head)
}

} // verus!

verus! {

// ---------------------------------------------------------------------------------------------
// Little-endian integers.

/// The `u32` stored little-endian at `at` in `b`.
pub open spec fn le_u32(b: Seq<u8>, at: int) -> int {
    b[at] + 256 * b[at + 1] + 65536 * b[at + 2] + 16777216 * b[at + 3]
}

/// The `u64` stored little-endian at `at` in `b`.
pub open spec fn le_u64(b: Seq<u8>, at: int) -> int {
    le_u32(b, at) + 4294967296 * le_u32(b, at + 4)
}

/// The `i32` stored little-endian (two's complement) at `at` in `b`.
pub open spec fn le_i32(b: Seq<u8>, at: int) -> int {
    let u = le_u32(b, at);
    if u >= 2147483648 {
        u - 4294967296
    } else {
        u
    }
}

/// The `u32` at `at`, read.
pub fn read_u32(b: &[u8], at: usize) -> (r: u32)
    requires
        at + 4 <= b@.len(),
    ensures
        r == le_u32(b@, at as int),
{
    b[at] as u32 + 256 * (b[at + 1] as u32) + 65536 * (b[at + 2] as u32) + 16777216 * (b[at
        + 3] as u32)
}

/// The `i32` at `at`, read.
pub fn read_i32(b: &[u8], at: usize) -> (r: i32)
    requires
        at + 4 <= b@.len(),
    ensures
        r == le_i32(b@, at as int),
{
    let u = read_u32(b, at);
    if u >= 2147483648u32 {
        (u as i64 - 4294967296i64) as i32
    } else {
        u as i32
    }
}

/// The `u64` at `at`, read.
pub fn read_u64(b: &[u8], at: usize) -> (r: u64)
    requires
        at + 8 <= b@.len(),
    ensures
        r == le_u64(b@, at as int),
{
    let l = b.len();
    read_u32(b, at) as u64 + 4294967296u64 * (read_u32(b, at + 4) as u64)
}

// ---------------------------------------------------------------------------------------------
// Face lists.

/// One `.finfo` entry: a face of a mesh group.
#[derive(Clone, Copy, Debug, PartialEq, Eq, Hash, PartialOrd, Ord, Structural)]
pub struct FaceRef {
    /// The mesh group's index in `sceneMesh.bin`.
    pub group: i32,
    /// The face's index in that group.
    pub face: i32,
}

/// A `.finfo`'s header: its size and the count it holds. Written on Windows the count is a
/// 4-byte `unsigned long` (the file is `4 + 8n` bytes), on Linux or macOS an 8-byte one
/// (`8 + 8n`).
pub open spec fn finfo_header(b: Seq<u8>) -> Option<(int, int)> {
    if b.len() % 8 == 4 {
        Some((4, le_u32(b, 0)))
    } else if b.len() % 8 == 0 && b.len() >= 8 {
        Some((8, le_u64(b, 0)))
    } else {
        None
    }
}

/// The faces a `.finfo` lists, when its header fits its length and its count its entries.
pub open spec fn spec_finfo(b: Seq<u8>) -> Option<Seq<FaceRef>> {
    match finfo_header(b) {
        None => None,
        Some((h, count)) => {
            let n = (b.len() - h) / 8;
            if count != n {
                None
            } else {
                Some(
                    Seq::new(
                        n as nat,
                        |i: int|
                            FaceRef {
                                group: le_i32(b, h + 8 * i) as i32,
                                face: le_i32(b, h + 8 * i + 4) as i32,
                            },
                    ),
                )
            }
        },
    }
}

/// Reads a `.finfo` face list, written on Windows (4-byte count) or on Linux or macOS (8-byte).
/// Any other length, or a count that is not the number of entries, is
/// [`ImportError::Invalid`].
pub fn read_finfo(bytes: &[u8]) -> (r: Result<Vec<FaceRef>, ImportError>)
    ensures
        match r {
            Ok(v) => spec_finfo(bytes@) == Some(v@),
            Err(e) => spec_finfo(bytes@) is None && is_invalid(e, FMT_FINFO),
        },
{
    let len = bytes.len();
    let (header, count): (usize, u64) = if len % 8 == 4 {
        (4, read_u32(bytes, 0) as u64)
    } else if len % 8 == 0 && len >= 8 {
        (8, read_u64(bytes, 0))
    } else {
        return Err(
            ImportError::invalid(
                FMT_FINFO,
                message_u64(
                    "",
                    len as u64,
                    " bytes is neither 4 + 8n (written on Windows) nor 8 + 8n (Linux, macOS)",
                ),
            ),
        );
    };
    let n = (len - header) / 8;
    if count != n as u64 {
        let mut m = message_u64("the count says ", count, " faces, the file holds ");
        crate::text::push_u64(&mut m, n as u64);
        return Err(ImportError::invalid(FMT_FINFO, m));
    }
    let mut out: Vec<FaceRef> = Vec::new();
    let mut i: usize = 0;
    while i < n
        invariant
            header == 4 || header == 8,
            n == (len - header) / 8,
            len == bytes@.len(),
            header <= len,
            i <= n,
            out@.len() == i,
            forall|j: int|
                0 <= j < i ==> out@[j] == (FaceRef {
                    group: le_i32(bytes@, header + 8 * j) as i32,
                    face: le_i32(bytes@, header + 8 * j + 4) as i32,
                }),
        decreases n - i,
    {
        let at = header + 8 * i;
        let g = read_i32(bytes, at);
        let f = read_i32(bytes, at + 4);
        out.push(FaceRef { group: g, face: f });
        i = i + 1;
    }
    assert(out@ =~= spec_finfo(bytes@).unwrap());
    Ok(out)
}

/// `name` contains no `/`, `\` or `:`, is not empty and is not `.` or `..`: a file name inside
/// the project folder.
pub open spec fn is_plain_file_name(b: Seq<u8>) -> bool {
    &&& b.len() > 0
    &&& forall|i: int| 0 <= i < b.len() ==> #[trigger] b[i] != 47u8 && b[i] != 92u8 && b[i] != 58u8
    &&& b != seq![46u8]
    &&& b != seq![46u8, 46u8]
}

/// A file name the project refers to, which must name a file inside the project folder
/// ([`is_plain_file_name`]); otherwise [`ImportError::Invalid`].
pub fn plain_file_name(name: &str) -> (r: Result<&str, ImportError>)
    ensures
        match r {
            Ok(n) => n == name && is_plain_file_name(name.spec_bytes()),
            Err(e) => !is_plain_file_name(name.spec_bytes()) && is_invalid(e, FMT_XML),
        },
{
    let b = name.as_bytes();
    let n = b.len();
    let mut i: usize = 0;
    let mut ok = n > 0 && !(n == 1 && b[0] == 46u8) && !(n == 2 && b[0] == 46u8 && b[1] == 46u8);
    proof {
        if n == 1 && b@[0] == 46u8 {
            assert(b@ =~= seq![46u8]);
        }
        if n == 2 && b@[0] == 46u8 && b@[1] == 46u8 {
            assert(b@ =~= seq![46u8, 46u8]);
        }
        if ok {
            assert(b@ != seq![46u8]) by {
                if b@ == seq![46u8] {
                    assert(b@[0] == 46u8);
                }
            }
            assert(b@ != seq![46u8, 46u8]) by {
                if b@ == seq![46u8, 46u8] {
                    assert(b@[0] == 46u8 && b@[1] == 46u8);
                }
            }
        }
    }
    while i < n
        invariant
            n == b@.len(),
            i <= n,
            ok ==> forall|j: int| 0 <= j < i ==> #[trigger] b@[j] != 47u8 && b@[j] != 92u8 && b@[j] != 58u8,
            !ok ==> !is_plain_file_name(b@),
            ok ==> b@.len() > 0 && b@ != seq![46u8] && b@ != seq![46u8, 46u8],
        decreases n - i,
    {
        if b[i] == 47u8 || b[i] == 92u8 || b[i] == 58u8 {
            ok = false;
        }
        i = i + 1;
    }
    if ok {
        Ok(name)
    } else {
        Err(ImportError::invalid(FMT_XML, message_str("`", name, "` is not a plain file name")))
    }
}

/// The solver id an imported entity is pinned to: its element id (`wxid`); `None` without
/// one. An id outside 0 to [`SOLVER_INT_MAX`] is [`ImportError::Invalid`].
pub fn pin(wxid: Option<i64>, what: &str) -> (r: Result<Option<u32>, ImportError>)
    ensures
        match wxid {
            None => r == Ok::<Option<u32>, ImportError>(None),
            Some(id) => if 0 <= id <= SOLVER_INT_MAX {
                r == Ok::<Option<u32>, ImportError>(Some(id as u32))
            } else {
                r matches Err(e) && is_invalid(e, FMT_XML)
            },
        },
{
    match wxid {
        None => Ok(None),
        Some(id) => {
            if 0 <= id && id <= SOLVER_INT_MAX as i64 {
                Ok(Some(id as u32))
            } else {
                let mut m = message_str("", what, " has element id ");
                crate::text::push_i64(&mut m, id);
                m.append(", which no solver reads as an id (0 to 2147483647)");
                Err(ImportError::invalid(FMT_XML, m))
            }
        },
    }
}


/// The name of a project's element tree.
pub const CONFIG_NAME: &'static str = "projet_config.xml";

/// `n` names a project's element tree: its last `/`-separated part is [`CONFIG_NAME`], and it
/// has at most two parts (at the root, or directly inside a top-level folder).
pub open spec fn is_project_config(n: Seq<char>) -> bool {
    let c = CONFIG_NAME@;
    let k = n.len() - c.len();
    &&& k >= 0
    &&& n.subrange(k, n.len() as int) == c
    &&& k == 0 || (n[k - 1] == '/' && forall|i: int| 0 <= i < k - 1 ==> #[trigger] n[i] != '/')
}

/// How many of the first `k` names name a project's element tree.
pub open spec fn configs_before(names: Seq<String>, k: int) -> nat
    decreases k,
{
    if k <= 0 {
        0
    } else {
        configs_before(names, k - 1) + if is_project_config(names[k - 1]@) {
            1nat
        } else {
            0nat
        }
    }
}

/// Whether `n` names a project's element tree ([`is_project_config`]).
fn project_config_name(n: &str) -> (r: bool)
    ensures
        r == is_project_config(n@),
{
    proof {
        reveal_strlit("projet_config.xml");
    }
    let cs = crate::chars::chars_of(n);
    let c = crate::chars::chars_of(CONFIG_NAME);
    if cs.len() < c.len() {
        return false;
    }
    let total = cs.len();
    let k = total - c.len();
    let mut i: usize = 0;
    assert(c@ == CONFIG_NAME@);
    while i < c.len()
        invariant
            i <= c@.len(),
            cs@ == n@,
            c@ == CONFIG_NAME@,
            k + c@.len() == cs@.len(),
            total == cs@.len(),
            forall|j: int| 0 <= j < i ==> #[trigger] cs@[k + j] == c@[j],
        decreases c@.len() - i,
    {
        if cs[k + i] != c[i] {
            assert(cs@.subrange(k as int, cs@.len() as int)[i as int] != c@[i as int]);
            return false;
        }
        i = i + 1;
    }
    assert forall|j: int| 0 <= j < c@.len() implies #[trigger] cs@.subrange(k as int, cs@.len() as int)[j]
        == c@[j] by {
        assert(cs@[k + j] == c@[j]);
    }
    assert(cs@.subrange(k as int, cs@.len() as int) =~= c@);
    if k == 0 {
        return true;
    }
    if cs[k - 1] != '/' {
        return false;
    }
    let mut j: usize = 0;
    while j < k - 1
        invariant
            j <= k - 1,
            k <= cs@.len(),
            cs@ == n@,
            c@ == CONFIG_NAME@,
            k + c@.len() == cs@.len(),
            cs@.subrange(k as int, cs@.len() as int) == c@,
            cs@[k - 1] == '/',
            forall|q: int| 0 <= q < j ==> #[trigger] cs@[q] != '/',
        decreases k - 1 - j,
    {
        if cs[j] == '/' {
            return false;
        }
        j = j + 1;
    }
    true
}

/// The refusal of an archive with `n` element trees, `n` not 1: none is
/// [`ImportError::Invalid`] (not a project), two or more [`ImportError::Unsupported`], each
/// with its message.
pub open spec fn config_refusal(n: nat, e: ImportError) -> bool {
    if n == 0 {
        e matches ImportError::Invalid { format, message } && format@ == FMT_PROJ@ && message@
            == "the archive holds no "@ + CONFIG_NAME@ + ": not an I-Simpa project"@
    } else {
        &&& n >= 2
        &&& e matches ImportError::Unsupported { format, message } && format@ == FMT_PROJ@ && message@
            == "the archive holds "@ + crate::text::dec(n) + " project folders"@
    }
}

/// Which archive entry is the project's element tree: the one name that
/// [`is_project_config`] accepts. None is [`ImportError::Invalid`] (not a project); two or more
/// are [`ImportError::Unsupported`].
pub fn project_config(names: &Vec<String>) -> (r: Result<usize, ImportError>)
    ensures
        match r {
            Ok(i) => {
                &&& i < names@.len()
                &&& is_project_config(names@[i as int]@)
                &&& forall|j: int| 0 <= j < names@.len() && j != i ==> !is_project_config(#[trigger] names@[j]@)
            },
            Err(e) => config_refusal(configs_before(names@, names@.len() as int), e),
        },
        r is Ok <==> configs_before(names@, names@.len() as int) == 1,
{
    let n = names.len();
    let mut first: usize = n;
    let mut count: usize = 0;
    let mut k: usize = 0;
    while k < n
        invariant
            k <= n == names@.len(),
            count == configs_before(names@, k as int),
            count <= k,
            (first == n) == (count == 0),
            first != n ==> first < k && is_project_config(names@[first as int]@),
            count == 0 ==> forall|j: int| 0 <= j < k ==> !is_project_config(#[trigger] names@[j]@),
            count == 1 ==> forall|j: int| 0 <= j < k && j != first ==> !is_project_config(#[trigger] names@[j]@),
        decreases n - k,
    {
        let is_c = project_config_name(names[k].as_str());
        assert(is_c == is_project_config(names@[k as int]@));
        assert(configs_before(names@, k + 1) == configs_before(names@, k as int) + if is_c {
            1nat
        } else {
            0nat
        });
        if is_c {
            if count == 0 {
                first = k;
            }
            count = count + 1;
        }
        k = k + 1;
    }
    if count == 0 {
        Err(
            ImportError::invalid(
                FMT_PROJ,
                message_str("the archive holds no ", CONFIG_NAME, ": not an I-Simpa project"),
            ),
        )
    } else if count == 1 {
        Ok(first)
    } else {
        let m = message_u64("the archive holds ", count as u64, " project folders");
        Err(ImportError::unsupported(FMT_PROJ, m))
    }
}

/// The project folder an element tree's name gives: the name without [`CONFIG_NAME`] (the
/// folder with its `/`, or nothing at the root).
pub fn project_folder(config: &str) -> (r: String)
    requires
        is_project_config(config@),
    ensures
        r@ == config@.subrange(0, config@.len() - CONFIG_NAME@.len()),
{
    let cs = crate::chars::chars_of(config);
    let c = crate::chars::chars_of(CONFIG_NAME);
    crate::chars::string_of(slice_subrange(cs.as_slice(), 0, cs.len() - c.len()))
}

/// A face that two lists name: the earlier list, and the one that names it again.
#[derive(Clone, Copy, Debug, PartialEq, Eq, Structural)]
pub struct Conflict {
    pub face: usize,
    pub first: usize,
    pub second: usize,
}

/// The face at place `i` of list `k` is already in an earlier list.
pub open spec fn listed_before(lists: Seq<Vec<usize>>, k: int, i: int) -> bool {
    exists|j: int| 0 <= j < k && #[trigger] lists[j]@.contains(lists[k]@[i])
}

/// No face of the lists before list `k`, nor of the first `i` places of list `k`, is in two
/// lists.
pub open spec fn no_conflict_before(lists: Seq<Vec<usize>>, k: int, i: int) -> bool {
    &&& forall|k2: int, i2: int|
        0 <= k2 < k && 0 <= i2 < lists[k2]@.len() ==> !#[trigger] listed_before(lists, k2, i2)
    &&& forall|i2: int| 0 <= i2 < i ==> !#[trigger] listed_before(lists, k, i2)
}

/// What a face's entry says while list `k` is read, `prefix` of it so far: the first list naming
/// the face (list `k` only through `prefix`), or none naming it yet.
pub open spec fn slot_ok(ls: Seq<Vec<usize>>, k: int, prefix: Seq<usize>, f: int, val: Option<usize>) -> bool {
    match val {
        Some(j) => {
            &&& j <= k
            &&& ls[j as int]@.contains(f as usize)
            &&& j == k ==> prefix.contains(f as usize)
            &&& forall|j2: int| 0 <= j2 < j ==> !#[trigger] ls[j2]@.contains(f as usize)
        },
        None => {
            &&& forall|j: int| 0 <= j < k ==> !#[trigger] ls[j]@.contains(f as usize)
            &&& !prefix.contains(f as usize)
        },
    }
}

/// Each face's list, for faces that each list at most once overall (a face listed by one list
/// twice is fine): the face lists of the surface groups, or of the scene receivers. The first
/// face (in list order, then place) that an earlier list already names is a [`Conflict`].
#[verifier::spinoff_prover]
pub fn assign_faces(n: usize, lists: &Vec<Vec<usize>>) -> (r: Result<Vec<Option<usize>>, Conflict>)
    requires
        forall|k: int, i: int| 0 <= k < lists@.len() && 0 <= i < lists@[k]@.len() ==> #[trigger] lists@[k]@[i] < n,
    ensures
        match r {
            Ok(v) => {
                &&& v@.len() == n
                &&& no_conflict_before(lists@, lists@.len() as int, 0)
                &&& forall|f: int|
                    0 <= f < n && #[trigger] v@[f] is Some ==> v@[f]->0 < lists@.len() && lists@[v@[f]->0 as int]@.contains(
                        f as usize,
                    )
                &&& forall|f: int, k: int|
                    0 <= f < n && v@[f] is None && 0 <= k < lists@.len() ==> !#[trigger] lists@[k]@.contains(
                        f as usize,
                    )
            },
            Err(c) => {
                &&& c.first < c.second < lists@.len()
                &&& lists@[c.first as int]@.contains(c.face)
                &&& exists|i: int|
                    0 <= i < lists@[c.second as int]@.len() && #[trigger] lists@[c.second as int]@[i] == c.face
                        && no_conflict_before(lists@, c.second as int, i)
            },
        },
{
    let ghost ls = lists@;
    let mut v: Vec<Option<usize>> = vec![None; n];
    let mut k: usize = 0;
    while k < lists.len()
        invariant
            k <= ls.len(),
            ls == lists@,
            v@.len() == n,
            forall|k2: int, i2: int| 0 <= k2 < ls.len() && 0 <= i2 < ls[k2]@.len() ==> #[trigger] ls[k2]@[i2] < n,
            no_conflict_before(ls, k as int, 0),
            forall|f: int| 0 <= f < n ==> slot_ok(ls, k as int, seq![], f, #[trigger] v@[f]),
        decreases ls.len() - k,
    {
        let list = &lists[k];
        let mut i: usize = 0;
        while i < list.len()
            invariant
                k < ls.len(),
                ls == lists@,
                *list == ls[k as int],
                i <= list@.len(),
                v@.len() == n,
                forall|k2: int, i2: int| 0 <= k2 < ls.len() && 0 <= i2 < ls[k2]@.len() ==> #[trigger] ls[k2]@[i2] < n,
                no_conflict_before(ls, k as int, i as int),
                forall|f: int| 0 <= f < n ==> slot_ok(ls, k as int, list@.subrange(0, i as int), f, #[trigger] v@[f]),
            decreases list@.len() - i,
        {
            let f = list[i];
            assert(ls[k as int]@[i as int] == f);
            assert(slot_ok(ls, k as int, list@.subrange(0, i as int), f as int, v@[f as int]));
            match v[f] {
                Some(p) => {
                    if p != k {
                        proof {
                            assert(ls[p as int]@.contains(f));
                            assert(listed_before(ls, k as int, i as int));
                            assert(p < k);
                            assert(ls[k as int]@[i as int] == f && no_conflict_before(ls, k as int, i as int));
                            assert(exists|i2: int|
                                0 <= i2 < ls[k as int]@.len() && #[trigger] ls[k as int]@[i2] == f
                                    && no_conflict_before(ls, k as int, i2));
                        }
                        return Err(Conflict { face: f, first: p, second: k });
                    }
                    proof {
                        assert(!listed_before(ls, k as int, i as int)) by {
                            if listed_before(ls, k as int, i as int) {
                                let j = choose|j: int| 0 <= j < k && #[trigger] ls[j]@.contains(f);
                            }
                        }
                    }
                },
                None => {
                    proof {
                        assert(!listed_before(ls, k as int, i as int)) by {
                            if listed_before(ls, k as int, i as int) {
                                let j = choose|j: int| 0 <= j < k && #[trigger] ls[j]@.contains(f);
                            }
                        }
                    }
                    v.set(f, Some(k));
                },
            }
            proof {
                let pre = list@.subrange(0, i as int);
                let post = list@.subrange(0, i + 1);
                assert(post =~= pre.push(f));
                assert forall|g: int| 0 <= g < n implies slot_ok(ls, k as int, post, g, #[trigger] v@[g]) by {
                    if g == f as int {
                        assert(post[i as int] == f);
                    } else {
                        if post.contains(g as usize) {
                            let q = choose|q: int| 0 <= q < i + 1 && #[trigger] post[q] == g as usize;
                            assert(pre[q] == g as usize);
                        }
                        if pre.contains(g as usize) {
                            let q = choose|q: int| 0 <= q < i && #[trigger] pre[q] == g as usize;
                            assert(post[q] == g as usize);
                        }
                    }
                }
            }
            i = i + 1;
        }
        proof {
            assert(list@.subrange(0, list@.len() as int) =~= list@);
            assert forall|f: int| 0 <= f < n implies slot_ok(ls, k + 1, seq![], f, #[trigger] v@[f]) by {
                assert(slot_ok(ls, k as int, list@.subrange(0, list@.len() as int), f, v@[f]));
            }
        }
        k = k + 1;
    }
    Ok(v)
}


/// The zones among the first `k` whose face lists name face `f`, in zone order.
pub open spec fn zones_with(zs: Seq<(bool, Vec<usize>)>, f: int, k: int) -> Seq<usize>
    decreases k,
{
    if k <= 0 {
        seq![]
    } else if zs[k - 1].1@.contains(f as usize) {
        zones_with(zs, f, k - 1).push((k - 1) as usize)
    } else {
        zones_with(zs, f, k - 1)
    }
}

/// Zone `k` is enabled, and the face at place `i` of its list is already in an earlier enabled
/// zone.
pub open spec fn enabled_twice(zs: Seq<(bool, Vec<usize>)>, k: int, i: int) -> bool {
    zs[k].0 && exists|j: int| 0 <= j < k && zs[j].0 && #[trigger] zs[j].1@.contains(zs[k].1@[i])
}

/// No face before place `i` of zone `k`'s list (zones in order) is in two enabled zones.
pub open spec fn no_enabled_twice_before(zs: Seq<(bool, Vec<usize>)>, k: int, i: int) -> bool {
    &&& forall|k2: int, i2: int|
        0 <= k2 < k && 0 <= i2 < zs[k2].1@.len() ==> !#[trigger] enabled_twice(zs, k2, i2)
    &&& forall|i2: int| 0 <= i2 < i ==> !#[trigger] enabled_twice(zs, k, i2)
}

proof fn lemma_zones_with(zs: Seq<(bool, Vec<usize>)>, f: int, k: int)
    requires
        0 <= k <= zs.len(),
        k <= usize::MAX,
    ensures
        forall|j: int| 0 <= j < k ==> (zones_with(zs, f, k).contains(j as usize) <==> #[trigger] zs[j].1@.contains(f as usize)),
        forall|a: int| 0 <= a < zones_with(zs, f, k).len() ==> #[trigger] zones_with(zs, f, k)[a] < k,
        forall|a: int, b: int|
            0 <= a < b < zones_with(zs, f, k).len() ==> #[trigger] zones_with(zs, f, k)[a] < #[trigger] zones_with(
                zs,
                f,
                k,
            )[b],
    decreases k,
{
    if k > 0 {
        lemma_zones_with(zs, f, k - 1);
        let prev = zones_with(zs, f, k - 1);
        let cur = zones_with(zs, f, k);
        assert forall|j: int| 0 <= j < k implies (cur.contains(j as usize) <==> #[trigger] zs[j].1@.contains(
            f as usize,
        )) by {
            if j < k - 1 {
                if cur.contains(j as usize) {
                    let q = choose|q: int| 0 <= q < cur.len() && cur[q] == j as usize;
                    if q < prev.len() {
                        assert(prev[q] == j as usize);
                    }
                }
                if prev.contains(j as usize) {
                    let q = choose|q: int| 0 <= q < prev.len() && prev[q] == j as usize;
                    assert(cur[q] == j as usize);
                }
            } else {
                if zs[j].1@.contains(f as usize) {
                    assert(cur[prev.len() as int] == j as usize);
                } else if cur.contains(j as usize) {
                    let q = choose|q: int| 0 <= q < cur.len() && cur[q] == j as usize;
                    assert(prev[q] < k - 1);
                }
            }
        }
    }
}

/// The place in `listed` of the first zone that is enabled.
fn first_enabled(zones: &Vec<(bool, Vec<usize>)>, listed: &Vec<usize>) -> (r: Option<usize>)
    requires
        forall|a: int| 0 <= a < listed@.len() ==> #[trigger] listed@[a] < zones@.len(),
    ensures
        match r {
            Some(a) => a < listed@.len() && zones@[listed@[a as int] as int].0 && forall|q: int|
                0 <= q < a ==> !#[trigger] zones@[listed@[q] as int].0,
            None => forall|q: int| 0 <= q < listed@.len() ==> !#[trigger] zones@[listed@[q] as int].0,
        },
{
    let mut a: usize = 0;
    while a < listed.len()
        invariant
            a <= listed@.len(),
            forall|q: int| 0 <= q < listed@.len() ==> #[trigger] listed@[q] < zones@.len(),
            forall|q: int| 0 <= q < a ==> !#[trigger] zones@[listed@[q] as int].0,
        decreases listed@.len() - a,
    {
        if zones[listed[a]].0 {
            return Some(a);
        }
        a = a + 1;
    }
    None
}

/// The zones that name each face, in zone order, from each fitting zone's enabled flag and face
/// list (empty for a box). A face may be in any number of zones, but in at most one enabled
/// zone: the first face (in zone order, then place) of an enabled zone that an earlier enabled
/// zone already names is a [`Conflict`] with the first such zone.
#[verifier::spinoff_prover]
pub fn assign_zones(n: usize, zones: &Vec<(bool, Vec<usize>)>) -> (r: Result<Vec<Vec<usize>>, Conflict>)
    requires
        forall|k: int, i: int| 0 <= k < zones@.len() && 0 <= i < zones@[k].1@.len() ==> #[trigger] zones@[k].1@[i] < n,
    ensures
        match r {
            Ok(v) => {
                &&& v@.len() == n
                &&& no_enabled_twice_before(zones@, zones@.len() as int, 0)
                &&& forall|f: int| 0 <= f < n ==> #[trigger] v@[f]@ == zones_with(zones@, f, zones@.len() as int)
            },
            Err(c) => {
                &&& c.first < c.second < zones@.len()
                &&& zones@[c.first as int].0 && zones@[c.second as int].0
                &&& zones@[c.first as int].1@.contains(c.face)
                &&& forall|j: int| 0 <= j < c.first ==> !(zones@[j].0 && #[trigger] zones@[j].1@.contains(c.face))
                &&& exists|i: int|
                    0 <= i < zones@[c.second as int].1@.len() && #[trigger] zones@[c.second as int].1@[i] == c.face
                        && no_enabled_twice_before(zones@, c.second as int, i)
            },
        },
{
    let ghost zs = zones@;
    let mut v: Vec<Vec<usize>> = Vec::new();
    let mut f0: usize = 0;
    while f0 < n
        invariant
            f0 <= n,
            v@.len() == f0,
            forall|f: int| 0 <= f < f0 ==> (#[trigger] v@[f])@ == Seq::<usize>::empty(),
        decreases n - f0,
    {
        v.push(Vec::new());
        f0 = f0 + 1;
    }
    let mut k: usize = 0;
    while k < zones.len()
        invariant
            k <= zs.len(),
            zs == zones@,
            v@.len() == n,
            forall|k2: int, i2: int| 0 <= k2 < zs.len() && 0 <= i2 < zs[k2].1@.len() ==> #[trigger] zs[k2].1@[i2] < n,
            no_enabled_twice_before(zs, k as int, 0),
            forall|f: int| 0 <= f < n ==> (#[trigger] v@[f])@ == zones_with(zs, f, k as int),
        decreases zs.len() - k,
    {
        let enabled = zones[k].0;
        let list = &zones[k].1;
        let mut i: usize = 0;
        while i < list.len()
            invariant
                k < zs.len(),
                zs == zones@,
                *list == zs[k as int].1,
                enabled == zs[k as int].0,
                i <= list@.len(),
                v@.len() == n,
                forall|k2: int, i2: int| 0 <= k2 < zs.len() && 0 <= i2 < zs[k2].1@.len() ==> #[trigger] zs[k2].1@[i2] < n,
                no_enabled_twice_before(zs, k as int, i as int),
                forall|f: int|
                    0 <= f < n ==> (#[trigger] v@[f])@ == if list@.subrange(0, i as int).contains(f as usize) {
                        zones_with(zs, f, k as int).push(k)
                    } else {
                        zones_with(zs, f, k as int)
                    },
            decreases list@.len() - i,
        {
            let f = list[i];
            let ghost pre = list@.subrange(0, i as int);
            let ghost post = list@.subrange(0, i + 1);
            assert(post =~= pre.push(f));
            proof {
                lemma_zones_with(zs, f as int, k as int);
            }
            let ghost wf = zones_with(zs, f as int, k as int);
            let in_pre = contains_usize(&v[f], k);
            assert(in_pre == pre.contains(f)) by {
                if pre.contains(f) {
                    assert(v@[f as int]@[wf.len() as int] == k);
                } else if v@[f as int]@.contains(k) {
                    let q = choose|q: int| 0 <= q < wf.len() && #[trigger] wf[q] == k;
                }
            }
            if !in_pre {
                if enabled {
                    match first_enabled(zones, &v[f]) {
                        Some(a) => {
                            let p = v[f][a];
                            proof {
                                assert(wf[a as int] == p);
                                assert(zs[p as int].1@.contains(f));
                                assert(enabled_twice(zs, k as int, i as int));
                                assert forall|j: int| 0 <= j < p implies !(zs[j].0 && #[trigger] zs[j].1@.contains(f)) by {
                                    if zs[j].0 && zs[j].1@.contains(f) {
                                        assert(wf.contains(j as usize));
                                        let q = choose|q: int| 0 <= q < wf.len() && wf[q] == j as usize;
                                        if q >= a {
                                            if q > a {
                                                assert(wf[a as int] < wf[q]);
                                            }
                                        }
                                    }
                                }
                                assert(zs[k as int].1@[i as int] == f);
                                assert(exists|i2: int|
                                    0 <= i2 < zs[k as int].1@.len() && #[trigger] zs[k as int].1@[i2] == f
                                        && no_enabled_twice_before(zs, k as int, i2));
                            }
                            return Err(Conflict { face: f, first: p, second: k });
                        },
                        None => {
                            proof {
                                assert(!enabled_twice(zs, k as int, i as int)) by {
                                    if enabled_twice(zs, k as int, i as int) {
                                        let j = choose|j: int| 0 <= j < k && zs[j].0 && #[trigger] zs[j].1@.contains(
                                            zs[k as int].1@[i as int],
                                        );
                                        assert(wf.contains(j as usize));
                                        let q = choose|q: int| 0 <= q < wf.len() && wf[q] == j as usize;
                                    }
                                }
                            }
                        },
                    }
                }
                v[f].push(k);
            } else {
                proof {
                    assert(!enabled_twice(zs, k as int, i as int)) by {
                        if enabled_twice(zs, k as int, i as int) {
                            let q = choose|q: int| 0 <= q < i && #[trigger] pre[q] == f;
                            assert(zs[k as int].1@[q] == f);
                            assert(enabled_twice(zs, k as int, q));
                        }
                    }
                }
            }
            proof {
                assert forall|g: int| 0 <= g < n implies (#[trigger] v@[g])@ == if post.contains(g as usize) {
                    zones_with(zs, g, k as int).push(k)
                } else {
                    zones_with(zs, g, k as int)
                } by {
                    if g != f as int {
                        if post.contains(g as usize) {
                            let q = choose|q: int| 0 <= q < i + 1 && #[trigger] post[q] == g as usize;
                            assert(pre[q] == g as usize);
                        }
                        if pre.contains(g as usize) {
                            let q = choose|q: int| 0 <= q < i && #[trigger] pre[q] == g as usize;
                            assert(post[q] == g as usize);
                        }
                    } else {
                        assert(post[i as int] == f);
                    }
                }
            }
            i = i + 1;
        }
        proof {
            assert(list@.subrange(0, list@.len() as int) =~= list@);
            assert forall|f: int| 0 <= f < n implies (#[trigger] v@[f])@ == zones_with(zs, f, k + 1) by {
                assert(zones_with(zs, f, k + 1) == if zs[k as int].1@.contains(f as usize) {
                    zones_with(zs, f, k as int).push(k)
                } else {
                    zones_with(zs, f, k as int)
                });
            }
        }
        k = k + 1;
    }
    Ok(v)
}

/// Whether `xs` holds `x`.
fn contains_usize(xs: &Vec<usize>, x: usize) -> (r: bool)
    ensures
        r == xs@.contains(x),
{
    let mut i: usize = 0;
    while i < xs.len()
        invariant
            i <= xs@.len(),
            forall|q: int| 0 <= q < i ==> xs@[q] != x,
        decreases xs@.len() - i,
    {
        if xs[i] == x {
            return true;
        }
        i = i + 1;
    }
    false
}

/// A face list entry names a face of the scene mesh: its group exists and has that face.
pub open spec fn ref_ok(r: FaceRef, mesh: SceneMesh) -> bool {
    0 <= r.group < mesh.groups@.len() && 0 <= r.face < mesh.groups@[r.group as int].faces@.len()
}

/// The project face indices a face list names: a group's first face index plus the face's index
/// in the group; none when an entry names no face of the mesh.
pub open spec fn face_indices(refs: Seq<FaceRef>, mesh: SceneMesh, starts: Seq<usize>) -> Option<Seq<usize>> {
    if forall|i: int| 0 <= i < refs.len() ==> #[trigger] ref_ok(refs[i], mesh) {
        Some(Seq::new(refs.len(), |i: int| (starts[refs[i].group as int] + refs[i].face) as usize))
    } else {
        None
    }
}

/// The project faces a face list's entries name ([`face_indices`]); an entry naming no face of
/// the mesh is [`ImportError::Invalid`].
pub fn faces_of_refs(refs: &Vec<FaceRef>, mesh: &SceneMesh, group_start: &[usize], what: &str) -> (r: Result<
    Vec<usize>,
    ImportError,
>)
    requires
        group_start@.len() == mesh.groups@.len(),
        forall|g: int| 0 <= g < group_start@.len() ==> #[trigger] group_start@[g] + mesh.groups@[g].faces@.len() <= usize::MAX,
    ensures
        match (r, face_indices(refs@, *mesh, group_start@)) {
            (Ok(v), Some(w)) => v@ == w,
            (Err(e), None) => is_invalid(e, FMT_FINFO),
            _ => false,
        },
{
    let mut out: Vec<usize> = Vec::new();
    let mut i: usize = 0;
    while i < refs.len()
        invariant
            i <= refs@.len(),
            group_start@.len() == mesh.groups@.len(),
            forall|g: int| 0 <= g < group_start@.len() ==> #[trigger] group_start@[g] + mesh.groups@[g].faces@.len() <= usize::MAX,
            out@.len() == i,
            forall|q: int| 0 <= q < i ==> #[trigger] ref_ok(refs@[q], *mesh),
            forall|q: int| 0 <= q < i ==> #[trigger] out@[q] == (group_start@[refs@[q].group as int] + refs@[q].face) as usize,
        decreases refs@.len() - i,
    {
        let r = refs[i];
        if r.group < 0 || r.group as usize >= mesh.groups.len() {
            assert(!ref_ok(refs@[i as int], *mesh));
            let mut m = message_str("", what, ": its face list names mesh group ");
            crate::text::push_i64(&mut m, r.group as i64);
            m.append(", but there are ");
            crate::text::push_u64(&mut m, mesh.groups.len() as u64);
            return Err(ImportError::invalid(FMT_FINFO, m));
        }
        let g = r.group as usize;
        if r.face < 0 || r.face as usize >= mesh.groups[g].faces.len() {
            assert(!ref_ok(refs@[i as int], *mesh));
            let mut m = message_str("", what, ": its face list names face ");
            crate::text::push_i64(&mut m, r.face as i64);
            m.append(" of mesh group ");
            crate::text::push_u64(&mut m, g as u64);
            m.append(", which has ");
            crate::text::push_u64(&mut m, mesh.groups[g].faces.len() as u64);
            return Err(ImportError::invalid(FMT_FINFO, m));
        }
        out.push(group_start[g] + r.face as usize);
        i = i + 1;
    }
    assert(out@ =~= face_indices(refs@, *mesh, group_start@)->0);
    Ok(out)
}

/// The faces a surface group's or receiver's face list (`facesFile`, in the project folder)
/// names, with the list's bytes; `None` when the archive has no such file, which reads as an
/// empty list. No `facesFile`, one that is not a plain file name, or a list that does not read
/// or names no face of the mesh, is an error.
pub fn finfo_faces(
    archive: &Archive<'_>,
    folder: &str,
    faces_file: Option<&str>,
    mesh: &SceneMesh,
    group_start: &[usize],
    what: &str,
) -> (r: Result<Option<(Vec<usize>, Vec<u8>)>, ImportError>)
    requires
        group_start@.len() == mesh.groups@.len(),
        forall|g: int| 0 <= g < group_start@.len() ==> #[trigger] group_start@[g] + mesh.groups@[g].faces@.len() <= usize::MAX,
    ensures
        match faces_file {
            None => r matches Err(e) && is_invalid(e, FMT_XML),
            Some(f) => if !is_plain_file_name(f.spec_bytes()) {
                r matches Err(e) && is_invalid(e, FMT_XML)
            } else {
                let name = folder@ + f@;
                let (listed, data) = (archive.listed(), archive.data());
                if forall|k: int| 0 <= k < listed.len() ==> (#[trigger] listed[k]).name@ != name {
                    r == Ok::<Option<(Vec<usize>, Vec<u8>)>, ImportError>(None)
                } else {
                    match r {
                        Ok(None) => false,
                        Ok(Some((faces, bytes))) => {
                            &&& read_result(listed, data, name, Ok::<Vec<u8>, ImportError>(bytes))
                            &&& spec_finfo(bytes@) matches Some(refs) && face_indices(refs, *mesh, group_start@) == Some(
                                faces@,
                            )
                        },
                        Err(e) => {
                            ||| read_result(listed, data, name, Err::<Vec<u8>, ImportError>(e))
                            ||| exists|v: Vec<u8>|
                                #[trigger] read_result(listed, data, name, Ok::<Vec<u8>, ImportError>(v)) && is_invalid(e, FMT_FINFO)
                                    && match spec_finfo(v@) {
                                    None => true,
                                    Some(refs) => face_indices(refs, *mesh, group_start@) is None,
                                }
                        },
                    }
                }
            },
        },
{
    let file = match faces_file {
        Some(f) => f,
        None => {
            return Err(ImportError::invalid(FMT_XML, message_str("", what, " has no facesFile")));
        },
    };
    let file = plain_file_name(file)?;
    let name = message_str(folder, file, "");
    proof {
        reveal_strlit("");
        assert(name@ =~= folder@ + file@);
    }
    let bytes = match archive.find(name.as_str()) {
        Ok(None) => {
            return Ok(None);
        },
        _ => match archive.read(name.as_str()) {
            Ok(b) => b,
            Err(e) => {
                return Err(e);
            },
        },
    };
    let refs = match read_finfo(bytes.as_slice()) {
        Ok(v) => v,
        Err(e) => {
            return Err(e);
        },
    };
    let faces = match faces_of_refs(&refs, mesh, group_start, what) {
        Ok(v) => v,
        Err(e) => {
            return Err(e);
        },
    };
    Ok(Some((faces, bytes)))
}
} // verus!
