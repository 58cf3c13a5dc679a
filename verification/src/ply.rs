//! PLY: ASCII, binary little-endian and binary big-endian.
//!
//! I-Simpa's layered PLY convention is read:
//! a face property `layer_id` (any integer type) names each face's layer, and an element `layer`
//! with a list property `layer_name` (a character list) names the layers, in id order. With
//! `layer_id`, each layer holding faces becomes a surface group, in id order, named by its
//! `layer_name` or `Layer <id>` when it has none; without it, the model is one group, `model`.
//!
//! Binary files keep their layers, big-endian files are read big-endian, list counts of every
//! integer type are read at their own size, a face index out of range is an error rather than a
//! dropped face, and every count is checked against the bytes left before anything is allocated.
//!
//! Vertex coordinates are the `vertex` element's `x`, `y` and `z` (any numeric type); face
//! indices are the `face` element's `vertex_indices` or `vertex_index` list (any integer type).
//! Other elements and properties are read and ignored.
//!
//! This module reads the file's structure. Real values are kept as the file holds them (the
//! bits of a binary `float` or `double`, the token of an ASCII one, checked against the grammar
//! `str::parse::<f64>` reads); turning them into numbers is floating-point work, left to the
//! callers.
use crate::import::{ImportError, is_invalid, is_syntax, is_truncated, is_unsupported};
use crate::text::{dec, dec_signed, message_i64, all_digits, is_digit, parse_i64, spec_parse_i64, is_utf8, message_str, message_u64, parse_u64, spec_parse_u64, string_from_utf8_lossy, lossy_text};
use vstd::prelude::*;
use vstd::string::StringSliceAdditionalSpecFns;

verus! {

/// The format's name in errors.
pub const FMT: &'static str = "ply";

/// How the body is written.
#[derive(Clone, Copy, Debug, PartialEq, Eq, Structural)]
pub enum Encoding {
    Ascii,
    Little,
    Big,
}

/// A property's type.
#[derive(Clone, Copy, Debug, PartialEq, Eq, Structural)]
pub enum Scalar {
    I8,
    U8,
    I16,
    U16,
    I32,
    U32,
    F32,
    F64,
}

/// The type a header names: `char`/`int8`, `uchar`/`uint8`, `short`/`int16`, `ushort`/`uint16`,
/// `int`/`int32`, `uint`/`uint32`, `float`/`float32`, `double`/`float64`.
pub open spec fn scalar_named(n: Seq<u8>) -> Option<Scalar> {
    if n == "char".spec_bytes() || n == "int8".spec_bytes() {
        Some(Scalar::I8)
    } else if n == "uchar".spec_bytes() || n == "uint8".spec_bytes() {
        Some(Scalar::U8)
    } else if n == "short".spec_bytes() || n == "int16".spec_bytes() {
        Some(Scalar::I16)
    } else if n == "ushort".spec_bytes() || n == "uint16".spec_bytes() {
        Some(Scalar::U16)
    } else if n == "int".spec_bytes() || n == "int32".spec_bytes() {
        Some(Scalar::I32)
    } else if n == "uint".spec_bytes() || n == "uint32".spec_bytes() {
        Some(Scalar::U32)
    } else if n == "float".spec_bytes() || n == "float32".spec_bytes() {
        Some(Scalar::F32)
    } else if n == "double".spec_bytes() || n == "float64".spec_bytes() {
        Some(Scalar::F64)
    } else {
        None
    }
}

/// The bytes one value of a type takes in a binary file.
pub open spec fn scalar_size(t: Scalar) -> nat {
    match t {
        Scalar::I8 | Scalar::U8 => 1,
        Scalar::I16 | Scalar::U16 => 2,
        Scalar::I32 | Scalar::U32 | Scalar::F32 => 4,
        Scalar::F64 => 8,
    }
}

/// An integer type.
pub open spec fn integer(t: Scalar) -> bool {
    !(t == Scalar::F32 || t == Scalar::F64)
}

/// Whether `s` is the text `p` (as bytes).
pub fn bytes_are(s: &[u8], p: &str) -> (r: bool)
    ensures
        r == (s@ == p.spec_bytes()),
{
    let q = p.as_bytes();
    if s.len() != q.len() {
        return false;
    }
    let mut i: usize = 0;
    while i < s.len()
        invariant
            s@.len() == q@.len(),
            q@ == p.spec_bytes(),
            i <= s@.len(),
            forall|k: int| 0 <= k < i ==> s@[k] == q@[k],
        decreases s@.len() - i,
    {
        if s[i] != q[i] {
            assert(s@[i as int] != q@[i as int]);
            return false;
        }
        i = i + 1;
    }
    assert(s@ =~= q@);
    true
}

impl Scalar {
    /// The type a header names ([`scalar_named`]).
    pub fn parse(name: &[u8]) -> (r: Option<Scalar>)
        ensures
            r == scalar_named(name@),
    {
        if bytes_are(name, "char") || bytes_are(name, "int8") {
            Some(Scalar::I8)
        } else if bytes_are(name, "uchar") || bytes_are(name, "uint8") {
            Some(Scalar::U8)
        } else if bytes_are(name, "short") || bytes_are(name, "int16") {
            Some(Scalar::I16)
        } else if bytes_are(name, "ushort") || bytes_are(name, "uint16") {
            Some(Scalar::U16)
        } else if bytes_are(name, "int") || bytes_are(name, "int32") {
            Some(Scalar::I32)
        } else if bytes_are(name, "uint") || bytes_are(name, "uint32") {
            Some(Scalar::U32)
        } else if bytes_are(name, "float") || bytes_are(name, "float32") {
            Some(Scalar::F32)
        } else if bytes_are(name, "double") || bytes_are(name, "float64") {
            Some(Scalar::F64)
        } else {
            None
        }
    }

    /// [`scalar_size`].
    pub fn size(self) -> (r: usize)
        ensures
            r == scalar_size(self),
    {
        match self {
            Scalar::I8 | Scalar::U8 => 1,
            Scalar::I16 | Scalar::U16 => 2,
            Scalar::I32 | Scalar::U32 | Scalar::F32 => 4,
            Scalar::F64 => 8,
        }
    }

    /// [`integer`].
    pub fn is_integer(self) -> (r: bool)
        ensures
            r == integer(self),
    {
        !matches!(self, Scalar::F32 | Scalar::F64)
    }
}

/// The header's type names as bytes.
proof fn lemma_type_names()
    ensures
        "char".spec_bytes() == seq![99u8, 104, 97, 114],
        "int8".spec_bytes() == seq![105u8, 110, 116, 56],
        "uchar".spec_bytes() == seq![117u8, 99, 104, 97, 114],
        "uint8".spec_bytes() == seq![117u8, 105, 110, 116, 56],
        "short".spec_bytes() == seq![115u8, 104, 111, 114, 116],
        "int16".spec_bytes() == seq![105u8, 110, 116, 49, 54],
        "ushort".spec_bytes() == seq![117u8, 115, 104, 111, 114, 116],
        "uint16".spec_bytes() == seq![117u8, 105, 110, 116, 49, 54],
        "int".spec_bytes() == seq![105u8, 110, 116],
        "int32".spec_bytes() == seq![105u8, 110, 116, 51, 50],
        "uint".spec_bytes() == seq![117u8, 105, 110, 116],
        "uint32".spec_bytes() == seq![117u8, 105, 110, 116, 51, 50],
        "float".spec_bytes() == seq![102u8, 108, 111, 97, 116],
        "float32".spec_bytes() == seq![102u8, 108, 111, 97, 116, 51, 50],
        "double".spec_bytes() == seq![100u8, 111, 117, 98, 108, 101],
        "float64".spec_bytes() == seq![102u8, 108, 111, 97, 116, 54, 52],
{
    reveal_strlit("char");
    vstd::string::is_ascii_spec_bytes("char");
    reveal_strlit("int8");
    vstd::string::is_ascii_spec_bytes("int8");
    reveal_strlit("uchar");
    vstd::string::is_ascii_spec_bytes("uchar");
    reveal_strlit("uint8");
    vstd::string::is_ascii_spec_bytes("uint8");
    reveal_strlit("short");
    vstd::string::is_ascii_spec_bytes("short");
    reveal_strlit("int16");
    vstd::string::is_ascii_spec_bytes("int16");
    reveal_strlit("ushort");
    vstd::string::is_ascii_spec_bytes("ushort");
    reveal_strlit("uint16");
    vstd::string::is_ascii_spec_bytes("uint16");
    reveal_strlit("int");
    vstd::string::is_ascii_spec_bytes("int");
    reveal_strlit("int32");
    vstd::string::is_ascii_spec_bytes("int32");
    reveal_strlit("uint");
    vstd::string::is_ascii_spec_bytes("uint");
    reveal_strlit("uint32");
    vstd::string::is_ascii_spec_bytes("uint32");
    reveal_strlit("float");
    vstd::string::is_ascii_spec_bytes("float");
    reveal_strlit("float32");
    vstd::string::is_ascii_spec_bytes("float32");
    reveal_strlit("double");
    vstd::string::is_ascii_spec_bytes("double");
    reveal_strlit("float64");
    vstd::string::is_ascii_spec_bytes("float64");
}

/// A header names an 8-byte type by `double` or `float64` and by no other name; it names a 4-byte
/// real by `float` or `float32` and by no other name. So the reals a binary row holds are read
/// at their own width.
pub proof fn lemma_real_type_names(n: Seq<u8>)
    ensures
        (scalar_named(n) matches Some(t) && scalar_size(t) == 8) <==> (n == seq![100u8, 111, 117, 98, 108, 101] || n == seq![102u8, 108, 111, 97, 116, 54, 52]),
        (scalar_named(n) matches Some(t) && scalar_size(t) == 4 && !integer(t)) <==> (n == seq![102u8, 108, 111, 97, 116] || n
            == seq![102u8, 108, 111, 97, 116, 51, 50]),
{
    lemma_type_names();
    assert(seq![100u8, 111, 117, 98, 108, 101][0] != seq![117u8, 115, 104, 111, 114, 116][0]);
    assert(seq![100u8, 111, 117, 98, 108, 101][0] != seq![117u8, 105, 110, 116, 49, 54][0]);
    assert(seq![100u8, 111, 117, 98, 108, 101][0] != seq![117u8, 105, 110, 116, 51, 50][0]);
    assert(seq![102u8, 108, 111, 97, 116, 54, 52][5] != seq![102u8, 108, 111, 97, 116, 51, 50][5]);
    assert(seq![102u8, 108, 111, 97, 116][0] != seq![117u8, 99, 104, 97, 114][0]);
    assert(seq![102u8, 108, 111, 97, 116][0] != seq![117u8, 105, 110, 116, 56][0]);
    assert(seq![102u8, 108, 111, 97, 116][0] != seq![115u8, 104, 111, 114, 116][0]);
    assert(seq![102u8, 108, 111, 97, 116][0] != seq![105u8, 110, 116, 49, 54][0]);
    assert(seq![102u8, 108, 111, 97, 116][0] != seq![105u8, 110, 116, 51, 50][0]);
    assert(seq![102u8, 108, 111, 97, 116, 51, 50][5] != seq![102u8, 108, 111, 97, 116, 54, 52][5]);
    if n == seq![100u8, 111, 117, 98, 108, 101] {
        assert(scalar_named(n) == Some(Scalar::F64));
    }
    if n == seq![102u8, 108, 111, 97, 116, 54, 52] {
        assert(n != seq![102u8, 108, 111, 97, 116, 51, 50]) by {
            assert(n[5] == 54);
        }
        assert(n != seq![102u8, 108, 111, 97, 116]) by {
            assert(n.len() == 7);
            assert(seq![102u8, 108, 111, 97, 116].len() == 5);
        }
        assert(scalar_named(n) == Some(Scalar::F64));
    }
}

/// The integer type names: `char`/`int8` and `uchar`/`uint8` name the 1-byte types, `short`/`int16`
/// and `ushort`/`uint16` the 2-byte ones, `int`/`int32` and `uint`/`uint32` the 4-byte ones, and
/// the names without a `u` name the signed types; no other name names an integer type.
pub proof fn lemma_integer_type_names(n: Seq<u8>)
    ensures
        (scalar_named(n) matches Some(t) && integer(t) && scalar_size(t) == 1) <==> (n == seq![99u8, 104, 97, 114] || n == seq![105u8, 110, 116, 56] || n == seq![117u8, 99, 104, 97, 114] || n == seq![117u8, 105, 110, 116, 56]),
        (scalar_named(n) matches Some(t) && integer(t) && scalar_size(t) == 2) <==> (n == seq![115u8, 104, 111, 114, 116] || n == seq![105u8, 110, 116, 49, 54] || n == seq![117u8, 115, 104, 111, 114, 116] || n == seq![117u8, 105, 110, 116, 49, 54]),
        (scalar_named(n) matches Some(t) && integer(t) && scalar_size(t) == 4) <==> (n == seq![105u8, 110, 116] || n == seq![105u8, 110, 116, 51, 50] || n == seq![117u8, 105, 110, 116] || n == seq![117u8, 105, 110, 116, 51, 50]),
        (scalar_named(n) matches Some(t) && (t == Scalar::I8 || t == Scalar::I16 || t == Scalar::I32)) <==> (n == seq![99u8, 104, 97, 114] || n == seq![105u8, 110, 116, 56] || n == seq![115u8, 104, 111, 114, 116] || n == seq![105u8, 110, 116, 49, 54] || n == seq![105u8, 110, 116] || n == seq![105u8, 110, 116, 51, 50]),
{
    lemma_type_names();
    assert(seq![99u8, 104, 97, 114][0] != seq![105u8, 110, 116, 56][0]);
    assert(seq![99u8, 104, 97, 114][0] != seq![117u8, 105, 110, 116][0]);
    assert(seq![105u8, 110, 116, 56][0] != seq![117u8, 105, 110, 116][0]);
    assert(seq![117u8, 99, 104, 97, 114][1] != seq![117u8, 105, 110, 116, 56][1]);
    assert(seq![115u8, 104, 111, 114, 116][0] != seq![117u8, 99, 104, 97, 114][0]);
    assert(seq![115u8, 104, 111, 114, 116][0] != seq![117u8, 105, 110, 116, 56][0]);
    assert(seq![105u8, 110, 116, 49, 54][0] != seq![117u8, 99, 104, 97, 114][0]);
    assert(seq![105u8, 110, 116, 49, 54][0] != seq![117u8, 105, 110, 116, 56][0]);
    assert(seq![105u8, 110, 116, 49, 54][0] != seq![115u8, 104, 111, 114, 116][0]);
    assert(seq![105u8, 110, 116, 49, 54][3] != seq![105u8, 110, 116, 51, 50][3]);
    assert(seq![117u8, 105, 110, 116, 49, 54][1] != seq![117u8, 115, 104, 111, 114, 116][1]);
    assert(seq![117u8, 105, 110, 116, 49, 54][4] != seq![117u8, 105, 110, 116, 51, 50][4]);
    assert(seq![105u8, 110, 116, 51, 50][0] != seq![117u8, 99, 104, 97, 114][0]);
    assert(seq![105u8, 110, 116, 51, 50][0] != seq![117u8, 105, 110, 116, 56][0]);
    assert(seq![105u8, 110, 116, 51, 50][0] != seq![115u8, 104, 111, 114, 116][0]);
    assert(seq![117u8, 105, 110, 116, 51, 50][1] != seq![117u8, 115, 104, 111, 114, 116][1]);
    assert(seq![102u8, 108, 111, 97, 116][0] != seq![117u8, 99, 104, 97, 114][0]);
    assert(seq![102u8, 108, 111, 97, 116][0] != seq![117u8, 105, 110, 116, 56][0]);
    assert(seq![102u8, 108, 111, 97, 116][0] != seq![115u8, 104, 111, 114, 116][0]);
    assert(seq![102u8, 108, 111, 97, 116][0] != seq![105u8, 110, 116, 49, 54][0]);
    assert(seq![102u8, 108, 111, 97, 116][0] != seq![105u8, 110, 116, 51, 50][0]);
    assert(seq![102u8, 108, 111, 97, 116, 51, 50][5] != seq![102u8, 108, 111, 97, 116, 54, 52][5]);
    assert(seq![100u8, 111, 117, 98, 108, 101][0] != seq![117u8, 115, 104, 111, 114, 116][0]);
    assert(seq![100u8, 111, 117, 98, 108, 101][0] != seq![117u8, 105, 110, 116, 49, 54][0]);
    assert(seq![100u8, 111, 117, 98, 108, 101][0] != seq![117u8, 105, 110, 116, 51, 50][0]);
    if n == seq![99u8, 104, 97, 114] {
        assert(n.len() == 4);
    }
    if n == seq![105u8, 110, 116, 56] {
        assert(n.len() == 4);
    }
    if n == seq![117u8, 99, 104, 97, 114] {
        assert(n.len() == 5);
    }
    if n == seq![117u8, 105, 110, 116, 56] {
        assert(n.len() == 5);
    }
    if n == seq![115u8, 104, 111, 114, 116] {
        assert(n.len() == 5);
    }
    if n == seq![105u8, 110, 116, 49, 54] {
        assert(n.len() == 5);
    }
    if n == seq![117u8, 115, 104, 111, 114, 116] {
        assert(n.len() == 6);
    }
    if n == seq![117u8, 105, 110, 116, 49, 54] {
        assert(n.len() == 6);
    }
    if n == seq![105u8, 110, 116] {
        assert(n.len() == 3);
    }
    if n == seq![105u8, 110, 116, 51, 50] {
        assert(n.len() == 5);
    }
    if n == seq![117u8, 105, 110, 116] {
        assert(n.len() == 4);
    }
    if n == seq![117u8, 105, 110, 116, 51, 50] {
        assert(n.len() == 6);
    }
    if n == seq![102u8, 108, 111, 97, 116] {
        assert(n.len() == 5);
    }
    if n == seq![102u8, 108, 111, 97, 116, 51, 50] {
        assert(n.len() == 7);
    }
    if n == seq![100u8, 111, 117, 98, 108, 101] {
        assert(n.len() == 6);
    }
    if n == seq![102u8, 108, 111, 97, 116, 54, 52] {
        assert(n.len() == 7);
    }
}

/// What a property holds: one value, or a list (its count's type, its items' type).
#[derive(Clone, Copy, Debug, PartialEq, Eq, Structural)]
pub enum PropKind {
    Scalar(Scalar),
    List(Scalar, Scalar),
}

/// A property of an element, its name as the header's bytes.
#[derive(Clone, Debug)]
pub struct Property {
    pub name: Vec<u8>,
    pub kind: PropKind,
}

/// An element: its name, its row count and its properties.
#[derive(Clone, Debug)]
pub struct Element {
    pub name: Vec<u8>,
    pub count: usize,
    pub properties: Vec<Property>,
}

/// An [`Element`] as values.
#[verifier::ext_equal]
pub ghost struct ElementV {
    pub name: Seq<u8>,
    pub count: usize,
    pub properties: Seq<(Seq<u8>, PropKind)>,
}

impl View for Element {
    type V = ElementV;

    open spec fn view(&self) -> ElementV {
        ElementV {
            name: self.name@,
            count: self.count,
            properties: self.properties@.map_values(|p: Property| (p.name@, p.kind)),
        }
    }
}

/// The elements as values.
pub open spec fn elements_view(e: Seq<Element>) -> Seq<ElementV> {
    e.map_values(|x: Element| x@)
}

/// What kind of refusal a malformed file gets.
#[derive(Clone, Copy, Debug, PartialEq, Eq, Structural)]
pub enum Fault {
    Syntax,
    Truncated,
    Invalid,
    Unsupported,
}

/// `e` is an error of the kind `f`, of this format.
pub open spec fn is_fault(e: ImportError, f: Fault) -> bool {
    match f {
        Fault::Syntax => is_syntax(e, FMT),
        Fault::Truncated => is_truncated(e, FMT),
        Fault::Invalid => is_invalid(e, FMT),
        Fault::Unsupported => is_unsupported(e, FMT),
    }
}

// ---------------------------------------------------------------------------------------------
// Lines and tokens
// ---------------------------------------------------------------------------------------------
/// Where the line starting at `pos` ends: the first `\n` from `pos` on, or the end.
pub open spec fn line_end(b: Seq<u8>, pos: int) -> int
    decreases b.len() - pos,
{
    if pos < 0 || pos >= b.len() {
        b.len() as int
    } else if b[pos] == 10 {
        pos
    } else {
        line_end(b, pos + 1)
    }
}

/// The line starting at `pos`, without its `\n` and one `\r` before it.
pub open spec fn line_at(b: Seq<u8>, pos: int) -> Seq<u8> {
    let l = b.subrange(pos, line_end(b, pos));
    if l.len() > 0 && l.last() == 13 {
        l.drop_last()
    } else {
        l
    }
}

/// Where the next line starts.
pub open spec fn next_pos(b: Seq<u8>, pos: int) -> int {
    if line_end(b, pos) + 1 < b.len() {
        line_end(b, pos) + 1
    } else {
        b.len() as int
    }
}

/// ASCII white space (`u8::is_ascii_whitespace`): space, tab, line feed, form feed, carriage
/// return.
pub open spec fn is_ws(c: u8) -> bool {
    c == 32 || c == 9 || c == 10 || c == 12 || c == 13
}

/// How many bytes `s` starts with that are not white space.
pub open spec fn run_len(s: Seq<u8>) -> nat
    decreases s.len(),
{
    if s.len() == 0 || is_ws(s[0]) {
        0
    } else {
        1 + run_len(s.drop_first())
    }
}

/// The tokens of `s` split at ASCII white space (`str::split_ascii_whitespace`).
pub open spec fn tokens(s: Seq<u8>) -> Seq<Seq<u8>>
    decreases s.len(),
{
    if s.len() == 0 {
        seq![]
    } else if is_ws(s[0]) {
        tokens(s.drop_first())
    } else {
        let n = run_len(s);
        if 0 < n <= s.len() {
            seq![s.subrange(0, n as int)] + tokens(s.subrange(n as int, s.len() as int))
        } else {
            seq![]
        }
    }
}

proof fn lemma_run_len(s: Seq<u8>)
    ensures
        run_len(s) <= s.len(),
        forall|k: int| 0 <= k < run_len(s) ==> !is_ws(#[trigger] s[k]),
        run_len(s) < s.len() ==> is_ws(s[run_len(s) as int]),
    decreases s.len(),
{
    if s.len() > 0 && !is_ws(s[0]) {
        lemma_run_len(s.drop_first());
        assert forall|k: int| 0 <= k < run_len(s) implies !is_ws(#[trigger] s[k]) by {
            if k > 0 {
                assert(s[k] == s.drop_first()[k - 1]);
            }
        }
    }
}

proof fn lemma_line_end(b: Seq<u8>, pos: int)
    requires
        0 <= pos <= b.len(),
    ensures
        pos <= line_end(b, pos) <= b.len(),
        line_end(b, pos) < b.len() ==> b[line_end(b, pos)] == 10,
        forall|k: int| pos <= k < line_end(b, pos) ==> b[k] != 10,
    decreases b.len() - pos,
{
    if pos < b.len() && b[pos] != 10 {
        lemma_line_end(b, pos + 1);
    }
}

/// The tokens of `line`.
fn tokens_of(line: &[u8]) -> (r: Vec<Vec<u8>>)
    ensures
        r@.map_values(|t: Vec<u8>| t@) == tokens(line@),
{
    let n = line.len();
    let mut out: Vec<Vec<u8>> = Vec::new();
    let mut i: usize = 0;
    assert(line@.subrange(0, n as int) =~= line@);
    while i < n
        invariant
            n == line@.len(),
            i <= n,
            tokens(line@) == out@.map_values(|t: Vec<u8>| t@) + tokens(line@.subrange(i as int, n as int)),
        decreases n - i,
    {
        let ghost rest = line@.subrange(i as int, n as int);
        if is_space(line[i]) {
            assert(rest.drop_first() =~= line@.subrange(i + 1, n as int));
            i = i + 1;
        } else {
            let mut j: usize = i;
            let mut tok: Vec<u8> = Vec::new();
            while j < n && !is_space(line[j])
                invariant
                    i <= j <= n == line@.len(),
                    tok@ == line@.subrange(i as int, j as int),
                    forall|k: int| i <= k < j ==> !is_ws(#[trigger] line@[k]),
                decreases n - j,
            {
                tok.push(line[j]);
                assert(line@.subrange(i as int, j + 1) =~= line@.subrange(i as int, j as int).push(line@[j as int]));
                j = j + 1;
            }
            proof {
                lemma_run_len(rest);
                assert(run_len(rest) == j - i) by {
                    if run_len(rest) < j - i {
                        assert(is_ws(rest[run_len(rest) as int]));
                        assert(rest[run_len(rest) as int] == line@[i + run_len(rest)]);
                    }
                    if run_len(rest) > j - i {
                        assert(!is_ws(rest[j - i]));
                        assert(rest[j - i] == line@[j as int]);
                    }
                }
                assert(rest.subrange(0, j - i) =~= tok@);
                assert(rest.subrange(j - i, rest.len() as int) =~= line@.subrange(j as int, n as int));
            }
            let ghost before = out@.map_values(|t: Vec<u8>| t@);
            out.push(tok);
            assert(out@.map_values(|t: Vec<u8>| t@) =~= before.push(line@.subrange(i as int, j as int)));
            i = j;
        }
    }
    assert(out@.map_values(|t: Vec<u8>| t@) + tokens(line@.subrange(n as int, n as int)) =~= out@.map_values(
        |t: Vec<u8>| t@,
    ));
    out
}

/// [`is_ws`].
pub fn is_space(c: u8) -> (r: bool)
    ensures
        r == is_ws(c),
{
    c == 32 || c == 9 || c == 10 || c == 12 || c == 13
}

// ---------------------------------------------------------------------------------------------
// The header
// ---------------------------------------------------------------------------------------------
/// The header read so far: its format, if given, and its elements.
pub ghost struct Head {
    pub encoding: Option<Encoding>,
    pub elements: Seq<ElementV>,
}

/// The encoding a `format` line names.
pub open spec fn encoding_named(t: Seq<u8>) -> Option<Encoding> {
    if t == "ascii".spec_bytes() {
        Some(Encoding::Ascii)
    } else if t == "binary_little_endian".spec_bytes() {
        Some(Encoding::Little)
    } else if t == "binary_big_endian".spec_bytes() {
        Some(Encoding::Big)
    } else {
        None
    }
}

/// A `format` line: a known encoding (else a syntax error), version `1.0` (else unsupported),
/// and the first such line (else a syntax error).
pub open spec fn format_step(h: Head, toks: Seq<Seq<u8>>) -> Result<Option<Head>, Fault> {
    let e = if toks.len() > 1 {
        encoding_named(toks[1])
    } else {
        None
    };
    match e {
        None => Err(Fault::Syntax),
        Some(e) => if !(toks.len() > 2 && toks[2] == "1.0".spec_bytes()) {
            Err(Fault::Unsupported)
        } else if h.encoding is Some {
            Err(Fault::Syntax)
        } else {
            Ok(Some(Head { encoding: Some(e), ..h }))
        },
    }
}

/// An `element` line: a name and a count that reads as a `usize`, else a syntax error.
pub open spec fn element_step(h: Head, toks: Seq<Seq<u8>>) -> Result<Option<Head>, Fault> {
    if toks.len() < 2 {
        Err(Fault::Syntax)
    } else {
        let c = if toks.len() > 2 {
            spec_parse_u64(toks[2])
        } else {
            None
        };
        match c {
            Some(v) => if v <= usize::MAX {
                Ok(
                    Some(
                        Head {
                            elements: h.elements.push(ElementV { name: toks[1], count: v as usize, properties: seq![] }),
                            ..h
                        },
                    ),
                )
            } else {
                Err(Fault::Syntax)
            },
            None => Err(Fault::Syntax),
        }
    }
}

/// What a `property` line declares, its name last: `list <count> <item> <name>` (the count an
/// integer type) or `<type> <name>`.
pub open spec fn property_of(toks: Seq<Seq<u8>>) -> Option<(Seq<u8>, PropKind)> {
    if toks.len() < 2 {
        None
    } else if toks[1] == "list".spec_bytes() {
        match (if toks.len() > 2 { scalar_named(toks[2]) } else { None }) {
            None => None,
            Some(count) => if !integer(count) {
                None
            } else {
                match (if toks.len() > 3 { scalar_named(toks[3]) } else { None }) {
                    None => None,
                    Some(item) => if toks.len() > 4 {
                        Some((toks[4], PropKind::List(count, item)))
                    } else {
                        None
                    },
                }
            },
        }
    } else {
        match scalar_named(toks[1]) {
            None => None,
            Some(t) => if toks.len() > 2 {
                Some((toks[2], PropKind::Scalar(t)))
            } else {
                None
            },
        }
    }
}

/// A `property` line: added to the last element; a syntax error before any element or when it
/// does not read.
pub open spec fn property_step(h: Head, toks: Seq<Seq<u8>>) -> Result<Option<Head>, Fault> {
    if h.elements.len() == 0 {
        Err(Fault::Syntax)
    } else {
        match property_of(toks) {
            None => Err(Fault::Syntax),
            Some(p) => {
                let last = h.elements.last();
                Ok(
                    Some(
                        Head {
                            elements: h.elements.update(
                                h.elements.len() - 1,
                                ElementV { properties: last.properties.push(p), ..last },
                            ),
                            ..h
                        },
                    ),
                )
            },
        }
    }
}

/// One header line, by its tokens: `Ok(None)` at `end_header`; blank lines, `comment` and
/// `obj_info` change nothing; any other keyword is a syntax error.
pub open spec fn header_step(h: Head, toks: Seq<Seq<u8>>) -> Result<Option<Head>, Fault> {
    if toks.len() == 0 {
        Ok(Some(h))
    } else {
        let t0 = toks[0];
        if t0 == "end_header".spec_bytes() {
            Ok(None)
        } else if t0 == "comment".spec_bytes() || t0 == "obj_info".spec_bytes() {
            Ok(Some(h))
        } else if t0 == "format".spec_bytes() {
            format_step(h, toks)
        } else if t0 == "element".spec_bytes() {
            element_step(h, toks)
        } else if t0 == "property".spec_bytes() {
            property_step(h, toks)
        } else {
            Err(Fault::Syntax)
        }
    }
}

/// The header from the line at `pos` on: the encoding, the elements and where the body starts.
/// Running out of lines is truncation; a line that is not UTF-8 is a syntax error, as is
/// `end_header` without a `format`.
pub open spec fn header_from(b: Seq<u8>, pos: int, h: Head) -> Result<(Encoding, Seq<ElementV>, int), Fault>
    decreases b.len() - pos,
{
    if pos < 0 || pos >= b.len() {
        Err(Fault::Truncated)
    } else {
        let line = line_at(b, pos);
        if !vstd::utf8::valid_utf8(line) {
            Err(Fault::Syntax)
        } else {
            match header_step(h, tokens(line)) {
                Err(f) => Err(f),
                Ok(None) => match h.encoding {
                    None => Err(Fault::Syntax),
                    Some(e) => Ok((e, h.elements, next_pos(b, pos))),
                },
                Ok(Some(h2)) => if next_pos(b, pos) > pos {
                    header_from(b, next_pos(b, pos), h2)
                } else {
                    Err(Fault::Truncated)
                },
            }
        }
    }
}

/// The header of a PLY file: a first line `ply`, then [`header_from`].
pub open spec fn spec_header(b: Seq<u8>) -> Result<(Encoding, Seq<ElementV>, int), Fault> {
    if b.len() == 0 || line_at(b, 0) != "ply".spec_bytes() {
        Err(Fault::Syntax)
    } else {
        header_from(b, next_pos(b, 0), Head { encoding: None, elements: seq![] })
    }
}

/// The line at `pos` ([`line_at`]) and where the next starts ([`next_pos`]).
fn next_line(b: &[u8], pos: usize) -> (r: (&[u8], usize))
    requires
        pos < b@.len(),
    ensures
        r.0@ == line_at(b@, pos as int),
        r.1 == next_pos(b@, pos as int),
        pos < r.1 <= b@.len(),
{
    let n = b.len();
    let mut end = pos;
    while end < n && b[end] != 10
        invariant
            pos <= end <= n == b@.len(),
            line_end(b@, pos as int) == line_end(b@, end as int),
        decreases n - end,
    {
        end = end + 1;
    }
    let mut stop = end;
    if stop > pos && b[stop - 1] == 13 {
        stop = stop - 1;
    }
    let line = vstd::slice::slice_subrange(b, pos, stop);
    proof {
        let l = b@.subrange(pos as int, end as int);
        if end > pos && b@[end - 1] == 13 {
            assert(l.last() == 13);
            assert(l.drop_last() =~= line@);
        } else {
            assert(l =~= line@);
        }
    }
    let next = if end < n && end + 1 < n {
        end + 1
    } else {
        n
    };
    (line, next)
}

/// `Some("<t>")` or `None`, as `{:?}` writes an optional token (escapes aside).
fn shown(t: Option<&[u8]>) -> (r: String)
    ensures
        r@ == match t {
            None => "None"@,
            Some(b) => "Some(\""@ + lossy_text(b@) + "\")"@,
        },
{
    match t {
        None => "None".to_owned(),
        Some(t) => message_str("Some(\"", string_from_utf8_lossy(t).as_str(), "\")"),
    }
}

/// The `i`-th token, if there is one.
fn nth(toks: &Vec<Vec<u8>>, i: usize) -> (r: Option<&[u8]>)
    ensures
        match r {
            Some(b) => i < toks@.len() && b@ == toks@[i as int]@,
            None => i >= toks@.len(),
        },
{
    if i < toks.len() {
        Some(toks[i].as_slice())
    } else {
        None
    }
}

/// The location `header line <n>`.
fn at_line(n: u64) -> (r: String)
    ensures
        r@ == "header line "@ + dec(n as nat),
{
    proof {
        reveal_strlit("");
    }
    let r = message_u64("header line ", n, "");
    assert(r@ =~= "header line "@ + dec(n as nat));
    r
}

/// Reads one header line's tokens into `encoding` and `elements` ([`header_step`]); `Ok(true)`
/// at `end_header`.
fn header_line(
    encoding: &mut Option<Encoding>,
    elements: &mut Vec<Element>,
    toks: &Vec<Vec<u8>>,
    line_no: u64,
) -> (r: Result<bool, ImportError>)
    ensures
        match (
            r,
            header_step(Head { encoding: *old(encoding), elements: elements_view(old(elements)@) }, toks@.map_values(|t: Vec<u8>| t@)),
        ) {
            (Ok(true), Ok(None)) => *final(encoding) == *old(encoding) && elements_view(final(elements)@) == elements_view(old(elements)@),
            (Ok(false), Ok(Some(h))) => *final(encoding) == h.encoding && elements_view(final(elements)@) == h.elements,
            (Err(e), Err(f)) => is_fault(e, f),
            _ => false,
        },
{
    let ghost tv = toks@.map_values(|t: Vec<u8>| t@);
    let ghost h = Head { encoding: *encoding, elements: elements_view(elements@) };
    if toks.len() == 0 {
        return Ok(false);
    }
    assert(tv[0] == toks@[0]@);
    let t0 = toks[0].as_slice();
    if bytes_are(t0, "end_header") {
        return Ok(true);
    }
    if bytes_are(t0, "comment") || bytes_are(t0, "obj_info") {
        return Ok(false);
    }
    if bytes_are(t0, "format") {
        let e = if toks.len() > 1 {
            assert(tv[1] == toks@[1]@);
            let t1 = toks[1].as_slice();
            if bytes_are(t1, "ascii") {
                Some(Encoding::Ascii)
            } else if bytes_are(t1, "binary_little_endian") {
                Some(Encoding::Little)
            } else if bytes_are(t1, "binary_big_endian") {
                Some(Encoding::Big)
            } else {
                None
            }
        } else {
            None
        };
        let e = match e {
            None => return Err(
                ImportError::syntax(FMT, at_line(line_no), message_str("unknown format ", shown(nth(toks, 1)).as_str(), "")),
            ),
            Some(e) => e,
        };
        let version_ok = if toks.len() > 2 {
            assert(tv[2] == toks@[2]@);
            bytes_are(toks[2].as_slice(), "1.0")
        } else {
            false
        };
        if !version_ok {
            return Err(
                ImportError::unsupported(FMT, message_str("format version ", shown(nth(toks, 2)).as_str(), "; only 1.0 is read")),
            );
        }
        if encoding.is_some() {
            return Err(ImportError::syntax(FMT, at_line(line_no), "a second `format` line".to_owned()));
        }
        *encoding = Some(e);
        return Ok(false);
    }
    if bytes_are(t0, "element") {
        if toks.len() < 2 {
            return Err(ImportError::syntax(FMT, at_line(line_no), "element without a name".to_owned()));
        }
        let c = if toks.len() > 2 {
            assert(tv[2] == toks@[2]@);
            parse_u64(toks[2].as_slice())
        } else {
            None
        };
        let count: usize = match c {
            Some(v) => if v <= usize::MAX as u64 {
                v as usize
            } else {
                return Err(ImportError::syntax(FMT, at_line(line_no), "element without a count".to_owned()));
            },
            None => return Err(ImportError::syntax(FMT, at_line(line_no), "element without a count".to_owned())),
        };
        assert(tv[1] == toks@[1]@);
        let name = toks[1].clone();
        assert(name@ == toks@[1]@);
        let ghost before = elements_view(elements@);
        elements.push(Element { name, count, properties: Vec::new() });
        proof {
            let pv: Seq<(Seq<u8>, PropKind)> = Seq::<Property>::empty().map_values(|p: Property| (p.name@, p.kind));
            assert(pv =~= seq![]);
            assert(elements_view(elements@) =~= before.push(ElementV { name: tv[1], count, properties: seq![] }));
        }
        return Ok(false);
    }
    if bytes_are(t0, "property") {
        if elements.len() == 0 {
            return Err(ImportError::syntax(FMT, at_line(line_no), "a property before any element".to_owned()));
        }
        let prop = property_in(toks);
        let prop = match prop {
            Err(m) => return Err(ImportError::syntax(FMT, at_line(line_no), m)),
            Ok(p) => p,
        };
        let ghost before = elements_view(elements@);
        let ghost pv = (prop.name@, prop.kind);
        let mut el = match elements.pop() {
            Some(el) => el,
            None => return Ok(false),
        };
        let ghost last = el@;
        let ghost old_props = el.properties@;
        assert(last == before.last());
        el.properties.push(prop);
        assert(el.properties@.map_values(|p: Property| (p.name@, p.kind)) =~= old_props.map_values(
            |p: Property| (p.name@, p.kind),
        ).push(pv));
        assert(el@ =~= ElementV { properties: last.properties.push(pv), ..last });
        elements.push(el);
        assert(elements_view(elements@) =~= before.update(before.len() - 1, ElementV { properties: last.properties.push(pv), ..last }));
        return Ok(false);
    }
    Err(ImportError::syntax(
        FMT,
        at_line(line_no),
        message_str("unknown header keyword `", string_from_utf8_lossy(t0).as_str(), "`"),
    ))
}

/// [`property_of`]; what is wrong, when it does not read.
fn property_in(toks: &Vec<Vec<u8>>) -> (r: Result<Property, String>)
    ensures
        match (r, property_of(toks@.map_values(|t: Vec<u8>| t@))) {
            (Ok(p), Some((name, kind))) => p.name@ == name && p.kind == kind,
            (Err(_), None) => true,
            _ => false,
        },
{
    let ghost tv = toks@.map_values(|t: Vec<u8>| t@);
    if toks.len() < 2 {
        return Err("property without a type".to_owned());
    }
    assert(tv[1] == toks@[1]@);
    if bytes_are(toks[1].as_slice(), "list") {
        if toks.len() > 2 {
            assert(tv[2] == toks@[2]@);
        }
        let count = match (if toks.len() > 2 { Scalar::parse(toks[2].as_slice()) } else { None }) {
            None => return Err(message_str("unknown type ", shown(nth(toks, 2)).as_str(), "")),
            Some(c) => c,
        };
        if !count.is_integer() {
            return Err("a list count type must be an integer type".to_owned());
        }
        if toks.len() > 3 {
            assert(tv[3] == toks@[3]@);
        }
        let item = match (if toks.len() > 3 { Scalar::parse(toks[3].as_slice()) } else { None }) {
            None => return Err(message_str("unknown type ", shown(nth(toks, 3)).as_str(), "")),
            Some(c) => c,
        };
        if toks.len() < 5 {
            return Err("property without a name".to_owned());
        }
        assert(tv[4] == toks@[4]@);
        let name = toks[4].clone();
        Ok(Property { name, kind: PropKind::List(count, item) })
    } else {
        let t = match Scalar::parse(toks[1].as_slice()) {
            None => return Err(message_str("unknown type ", shown(nth(toks, 1)).as_str(), "")),
            Some(t) => t,
        };
        if toks.len() < 3 {
            return Err("property without a name".to_owned());
        }
        assert(tv[2] == toks@[2]@);
        let name = toks[2].clone();
        Ok(Property { name, kind: PropKind::Scalar(t) })
    }
}

/// Parses the header ([`spec_header`]): the encoding, the elements and where the body starts.
pub fn header(bytes: &[u8]) -> (r: Result<(Encoding, Vec<Element>, usize), ImportError>)
    ensures
        match (r, spec_header(bytes@)) {
            (Ok((e, els, p)), Ok((e2, els2, p2))) => e == e2 && elements_view(els@) == els2 && p == p2,
            (Err(err), Err(f)) => is_fault(err, f),
            _ => false,
        },
{
    let n = bytes.len();
    if n == 0 {
        return Err(ImportError::syntax(FMT, "line 1".to_owned(), "the file does not start with `ply`".to_owned()));
    }
    let (first, mut pos) = next_line(bytes, 0);
    if !bytes_are(first, "ply") {
        return Err(ImportError::syntax(FMT, "line 1".to_owned(), "the file does not start with `ply`".to_owned()));
    }
    let mut line_no: u64 = 1;
    let mut encoding: Option<Encoding> = None;
    let mut elements: Vec<Element> = Vec::new();
    assert(elements_view(elements@) =~= seq![]);
    loop
        invariant
            n == bytes@.len(),
            0 < pos <= n,
            line_no <= pos,
            spec_header(bytes@) == header_from(bytes@, pos as int, Head { encoding, elements: elements_view(elements@) }),
        decreases n - pos,
    {
        if pos >= n {
            return Err(ImportError::truncated(FMT, "`end_header`".to_owned()));
        }
        let (line, next) = next_line(bytes, pos);
        line_no = line_no + 1;
        if !is_utf8(line) {
            return Err(ImportError::syntax(FMT, at_line(line_no), "the header is not text".to_owned()));
        }
        let toks = tokens_of(line);
        let ghost h = Head { encoding, elements: elements_view(elements@) };
        match header_line(&mut encoding, &mut elements, &toks, line_no) {
            Err(e) => return Err(e),
            Ok(true) => {
                return match encoding {
                    None => Err(ImportError::syntax(FMT, "header".to_owned(), "no `format` line".to_owned())),
                    Some(e) => Ok((e, elements, next)),
                };
            },
            Ok(false) => {},
        }
        pos = next;
    }
}

// ---------------------------------------------------------------------------------------------
// Values
// ---------------------------------------------------------------------------------------------
/// A value as the file holds it: integers exactly; reals as the bits of a binary `float` or
/// `double`, or as the position `[start, end)` in the file of an ASCII token that reads as one.
#[derive(Clone, Copy, Debug, PartialEq, Eq, Structural)]
pub enum Value {
    Int(i64),
    F32Bits(u32),
    F64Bits(u64),
    F32Text(usize, usize),
    F64Text(usize, usize),
}

/// An ASCII letter in lower case.
pub open spec fn low(c: u8) -> u8 {
    if 65 <= c <= 90 {
        (c + 32) as u8
    } else {
        c
    }
}

/// `s` spells `w` (lower-case letters), ignoring ASCII case.
pub open spec fn spells(s: Seq<u8>, w: Seq<u8>) -> bool {
    s.len() == w.len() && forall|i: int| 0 <= i < s.len() ==> low(s[i]) == w[i]
}

/// The first position of a byte meeting `f`, or none.
pub open spec fn first_where(s: Seq<u8>, f: spec_fn(u8) -> bool, i: int) -> Option<int>
    decreases s.len() - i,
{
    if i < 0 || i >= s.len() {
        None
    } else if f(s[i]) {
        Some(i)
    } else {
        first_where(s, f, i + 1)
    }
}

/// `s` without one leading `+` or `-`.
pub open spec fn unsigned(s: Seq<u8>) -> Seq<u8> {
    if s.len() > 0 && (s[0] == 43 || s[0] == 45) {
        s.drop_first()
    } else {
        s
    }
}

/// A decimal mantissa: digits with at most one `.` among them, and at least one digit.
pub open spec fn mantissa(s: Seq<u8>) -> bool {
    match first_where(s, |c: u8| c == 46, 0) {
        None => s.len() > 0 && all_digits(s),
        Some(d) => s.len() > 1 && all_digits(s.subrange(0, d)) && all_digits(s.subrange(d + 1, s.len() as int)),
    }
}

/// What `str::parse::<f64>` (and `f32`) accepts, by its documented grammar: an optional sign,
/// then `inf`, `infinity` or `nan` in any case, or a decimal mantissa with an optional exponent
/// (`e` or `E`, an optional sign, one digit or more).
pub open spec fn float_text(t: Seq<u8>) -> bool {
    let s = unsigned(t);
    ||| spells(s, seq![105u8, 110, 102])
    ||| spells(s, seq![105u8, 110, 102, 105, 110, 105, 116, 121])
    ||| spells(s, seq![110u8, 97, 110])
    ||| match first_where(s, |c: u8| c == 101 || c == 69, 0) {
        None => mantissa(s),
        Some(k) => {
            let x = unsigned(s.subrange(k + 1, s.len() as int));
            mantissa(s.subrange(0, k)) && x.len() > 0 && all_digits(x)
        },
    }
}

/// `v` fits the integer type `t`.
pub open spec fn fits(t: Scalar, v: i64) -> bool {
    match t {
        Scalar::I8 => -128 <= v <= 127,
        Scalar::U8 => 0 <= v <= 255,
        Scalar::I16 => -32768 <= v <= 32767,
        Scalar::U16 => 0 <= v <= 65535,
        Scalar::I32 => -2147483648 <= v <= 2147483647,
        Scalar::U32 => 0 <= v <= 4294967295,
        _ => false,
    }
}

/// The value an ASCII token at `[s, e)` gives for type `t`: an integer that parses and fits, or
/// a real the float grammar reads.
pub open spec fn ascii_value(t: Scalar, tok: Seq<u8>, s: int, e: int) -> Option<Value> {
    if integer(t) {
        match spec_parse_i64(tok) {
            Some(v) => if fits(t, v) {
                Some(Value::Int(v))
            } else {
                None
            },
            None => None,
        }
    } else if float_text(tok) {
        if t == Scalar::F32 {
            Some(Value::F32Text(s as usize, e as usize))
        } else {
            Some(Value::F64Text(s as usize, e as usize))
        }
    } else {
        None
    }
}

/// The unsigned integer `b` holds, little- or big-endian.
pub open spec fn uint_of(b: Seq<u8>, big: bool) -> int
    decreases b.len(),
{
    if b.len() == 0 {
        0
    } else if big {
        uint_of(b.drop_last(), big) * 256 + b.last()
    } else {
        b[0] + 256 * uint_of(b.drop_first(), big)
    }
}

/// The value a binary field of type `t` holds.
pub open spec fn binary_value(t: Scalar, b: Seq<u8>, big: bool) -> Value {
    let u = uint_of(b, big);
    match t {
        Scalar::I8 => Value::Int((if u >= 128 { u - 256 } else { u }) as i64),
        Scalar::U8 => Value::Int(u as i64),
        Scalar::I16 => Value::Int((if u >= 32768 { u - 65536 } else { u }) as i64),
        Scalar::U16 => Value::Int(u as i64),
        Scalar::I32 => Value::Int((if u >= 2147483648 { u - 4294967296 } else { u }) as i64),
        Scalar::U32 => Value::Int(u as i64),
        Scalar::F32 => Value::F32Bits(u as u32),
        Scalar::F64 => Value::F64Bits(u as u64),
    }
}

/// The first position from `p` on that is not white space.
pub open spec fn skip_ws(d: Seq<u8>, p: int) -> int
    decreases d.len() - p,
{
    if 0 <= p < d.len() && is_ws(d[p]) {
        skip_ws(d, p + 1)
    } else {
        p
    }
}

/// The end of the token starting at `p`.
pub open spec fn tok_end(d: Seq<u8>, p: int) -> int
    decreases d.len() - p,
{
    if 0 <= p < d.len() && !is_ws(d[p]) {
        tok_end(d, p + 1)
    } else {
        p
    }
}

/// The next token from `p` on, as `[start, end)`.
pub open spec fn next_tok(d: Seq<u8>, p: int) -> Option<(int, int)> {
    let s = skip_ws(d, p);
    if s >= d.len() {
        None
    } else {
        Some((s, tok_end(d, s)))
    }
}

/// The value of type `t` read at `p`, and where reading goes on: in an ASCII body the next
/// token (none left is truncation; a token that is not UTF-8 or does not read as `t` is a
/// syntax error), in a binary one the next `scalar_size(t)` bytes (too few is truncation).
pub open spec fn value_at(d: Seq<u8>, enc: Encoding, p: int, t: Scalar) -> Result<(Value, int), Fault> {
    if enc == Encoding::Ascii {
        match next_tok(d, p) {
            None => Err(Fault::Truncated),
            Some((s, e)) => {
                let tok = d.subrange(s, e);
                if !vstd::utf8::valid_utf8(tok) {
                    Err(Fault::Syntax)
                } else {
                    match ascii_value(t, tok, s, e) {
                        Some(v) => Ok((v, e)),
                        None => Err(Fault::Syntax),
                    }
                }
            },
        }
    } else {
        let n = scalar_size(t) as int;
        if p < 0 || p + n > d.len() {
            Err(Fault::Truncated)
        } else {
            Ok((binary_value(t, d.subrange(p, p + n), enc == Encoding::Big), p + n))
        }
    }
}

proof fn lemma_skip_ws(d: Seq<u8>, p: int)
    requires
        0 <= p <= d.len(),
    ensures
        p <= skip_ws(d, p) <= d.len(),
        skip_ws(d, p) < d.len() ==> !is_ws(d[skip_ws(d, p)]),
    decreases d.len() - p,
{
    if p < d.len() && is_ws(d[p]) {
        lemma_skip_ws(d, p + 1);
    }
}

proof fn lemma_tok_end(d: Seq<u8>, p: int)
    requires
        0 <= p <= d.len(),
    ensures
        p <= tok_end(d, p) <= d.len(),
        p < d.len() && !is_ws(d[p]) ==> p < tok_end(d, p),
    decreases d.len() - p,
{
    if p < d.len() && !is_ws(d[p]) {
        lemma_tok_end(d, p + 1);
    }
}

/// [`next_tok`].
fn next_token(d: &[u8], p: usize) -> (r: Option<(usize, usize)>)
    requires
        p <= d@.len(),
    ensures
        match (r, next_tok(d@, p as int)) {
            (Some((s, e)), Some((s2, e2))) => s == s2 && e == e2 && p <= s < e <= d@.len(),
            (None, None) => true,
            _ => false,
        },
{
    let n = d.len();
    let mut s = p;
    while s < n && is_space(d[s])
        invariant
            p <= s <= n == d@.len(),
            skip_ws(d@, p as int) == skip_ws(d@, s as int),
        decreases n - s,
    {
        s = s + 1;
    }
    if s >= n {
        return None;
    }
    let mut e = s;
    while e < n && !is_space(d[e])
        invariant
            s <= e <= n == d@.len(),
            tok_end(d@, s as int) == tok_end(d@, e as int),
        decreases n - e,
    {
        e = e + 1;
    }
    proof {
        lemma_tok_end(d@, s as int);
    }
    Some((s, e))
}

/// The first position of a `.` in `s`.
fn find_dot(s: &[u8]) -> (r: Option<usize>)
    ensures
        match r {
            Some(i) => first_where(s@, |c: u8| c == 46, 0) == Some(i as int) && i < s@.len(),
            None => first_where(s@, |c: u8| c == 46, 0) is None,
        },
{
    let mut i: usize = 0;
    while i < s.len()
        invariant
            i <= s@.len(),
            first_where(s@, |c: u8| c == 46, 0) == first_where(s@, |c: u8| c == 46, i as int),
        decreases s@.len() - i,
    {
        if s[i] == 46 {
            return Some(i);
        }
        i = i + 1;
    }
    None
}

/// The first position of an `e` or `E` in `s`.
fn find_exp(s: &[u8]) -> (r: Option<usize>)
    ensures
        match r {
            Some(i) => first_where(s@, |c: u8| c == 101 || c == 69, 0) == Some(i as int) && i < s@.len(),
            None => first_where(s@, |c: u8| c == 101 || c == 69, 0) is None,
        },
{
    let mut i: usize = 0;
    while i < s.len()
        invariant
            i <= s@.len(),
            first_where(s@, |c: u8| c == 101 || c == 69, 0) == first_where(s@, |c: u8| c == 101 || c == 69, i as int),
        decreases s@.len() - i,
    {
        if s[i] == 101 || s[i] == 69 {
            return Some(i);
        }
        i = i + 1;
    }
    None
}

/// Whether every byte is a digit.
fn digits_only(s: &[u8]) -> (r: bool)
    ensures
        r == all_digits(s@),
{
    let mut i: usize = 0;
    while i < s.len()
        invariant
            i <= s@.len(),
            forall|k: int| 0 <= k < i ==> is_digit(s@[k]),
        decreases s@.len() - i,
    {
        if !(48 <= s[i] && s[i] <= 57) {
            assert(!is_digit(s@[i as int]));
            return false;
        }
        i = i + 1;
    }
    true
}

/// [`mantissa`].
fn mantissa_of(s: &[u8]) -> (r: bool)
    ensures
        r == mantissa(s@),
{
    match find_dot(s) {
        None => s.len() > 0 && digits_only(s),
        Some(d) => s.len() > 1 && digits_only(vstd::slice::slice_subrange(s, 0, d)) && digits_only(
            vstd::slice::slice_subrange(s, d + 1, s.len()),
        ),
    }
}

/// `s` without one leading sign.
fn unsigned_of(s: &[u8]) -> (r: &[u8])
    ensures
        r@ == unsigned(s@),
{
    if s.len() > 0 && (s[0] == 43 || s[0] == 45) {
        let r = vstd::slice::slice_subrange(s, 1, s.len());
        assert(r@ =~= s@.drop_first());
        r
    } else {
        s
    }
}

/// Whether `s` spells `w` ignoring ASCII case ([`spells`]).
fn spells_of(s: &[u8], w: &[u8]) -> (r: bool)
    ensures
        r == spells(s@, w@),
{
    if s.len() != w.len() {
        return false;
    }
    let mut i: usize = 0;
    while i < s.len()
        invariant
            s@.len() == w@.len(),
            i <= s@.len(),
            forall|k: int| 0 <= k < i ==> low(s@[k]) == w@[k],
        decreases s@.len() - i,
    {
        let c = s[i];
        let l = if 65 <= c && c <= 90 {
            c + 32
        } else {
            c
        };
        if l != w[i] {
            return false;
        }
        i = i + 1;
    }
    true
}

/// [`float_text`].
pub(crate) fn float_text_of(t: &[u8]) -> (r: bool)
    ensures
        r == float_text(t@),
{
    let s = unsigned_of(t);
    let sl = s.len();
    let inf: [u8; 3] = [105, 110, 102];
    let infinity: [u8; 8] = [105, 110, 102, 105, 110, 105, 116, 121];
    let nan: [u8; 3] = [110, 97, 110];
    assert(inf@ =~= seq![105u8, 110, 102]);
    assert(infinity@ =~= seq![105u8, 110, 102, 105, 110, 105, 116, 121]);
    assert(nan@ =~= seq![110u8, 97, 110]);
    if spells_of(s, &inf) || spells_of(s, &infinity) || spells_of(s, &nan) {
        return true;
    }
    match find_exp(s) {
        None => mantissa_of(s),
        Some(k) => {
            let x = unsigned_of(vstd::slice::slice_subrange(s, k + 1, s.len()));
            mantissa_of(vstd::slice::slice_subrange(s, 0, k)) && x.len() > 0 && digits_only(x)
        },
    }
}

/// [`fits`].
fn fits_in(t: Scalar, v: i64) -> (r: bool)
    ensures
        r == fits(t, v),
{
    match t {
        Scalar::I8 => -128 <= v && v <= 127,
        Scalar::U8 => 0 <= v && v <= 255,
        Scalar::I16 => -32768 <= v && v <= 32767,
        Scalar::U16 => 0 <= v && v <= 65535,
        Scalar::I32 => -2147483648 <= v && v <= 2147483647,
        Scalar::U32 => 0 <= v && v <= 4294967295,
        _ => false,
    }
}

/// The unsigned integer the `n` bytes at `at` hold ([`uint_of`]), `n` at most 8.
fn uint_at(d: &[u8], at: usize, n: usize, big: bool) -> (r: u64)
    requires
        1 <= n <= 8,
        at + n <= d@.len(),
    ensures
        r == uint_of(d@.subrange(at as int, at + n), big),
{
    let dl = d.len();
    let mut v: u64 = 0;
    let mut k: usize = 0;
    let ghost b = d@.subrange(at as int, at + n);
    if big {
        while k < n
            invariant
                dl == d@.len(),
                k <= n <= 8,
                at + n <= d@.len(),
                b == d@.subrange(at as int, at + n),
                v == uint_of(b.subrange(0, k as int), true),
                v < pow256(k as nat),
            decreases n - k,
        {
            proof {
                lemma_pow256_bound(k as nat);
                lemma_pow256_bound((k + 1) as nat);
                assert(b.subrange(0, k + 1).drop_last() =~= b.subrange(0, k as int));
                assert(v * 256 + d@[at + k] < pow256((k + 1) as nat)) by (nonlinear_arith)
                    requires
                        v < pow256(k as nat),
                        d@[at + k] < 256,
                        pow256((k + 1) as nat) == pow256(k as nat) * 256,
                ;
            }
            v = v * 256 + d[at + k] as u64;
            k = k + 1;
        }
    } else {
        k = n;
        while k > 0
            invariant
                dl == d@.len(),
                k <= n <= 8,
                at + n <= d@.len(),
                b == d@.subrange(at as int, at + n),
                v == uint_of(b.subrange(k as int, n as int), false),
                v < pow256((n - k) as nat),
            decreases k,
        {
            proof {
                lemma_pow256_bound((n - k) as nat);
                lemma_pow256_bound((n - k + 1) as nat);
                assert(b.subrange(k - 1, n as int).drop_first() =~= b.subrange(k as int, n as int));
                assert(d@[at + k - 1] + 256 * v < pow256((n - k + 1) as nat)) by (nonlinear_arith)
                    requires
                        v < pow256((n - k) as nat),
                        d@[at + k - 1] < 256,
                        pow256((n - k + 1) as nat) == pow256((n - k) as nat) * 256,
                ;
            }
            v = d[at + k - 1] as u64 + 256 * v;
            k = k - 1;
        }
    }
    proof {
        assert(b.subrange(0, n as int) =~= b);
    }
    v
}

/// `256^k`.
pub open spec fn pow256(k: nat) -> nat
    decreases k,
{
    if k == 0 {
        1
    } else {
        pow256((k - 1) as nat) * 256
    }
}

proof fn lemma_pow256_bound(k: nat)
    requires
        k <= 8,
    ensures
        pow256(k) <= 0x1_0000_0000_0000_0000,
        pow256(k + 1) == pow256(k) * 256,
    decreases k,
{
    if k > 0 {
        lemma_pow256_bound((k - 1) as nat);
    }
    reveal_with_fuel(pow256, 9);
}

/// `<element> <row>`: where a value is, in messages.
fn what(name: &[u8], row: usize) -> (r: String)
    ensures
        r@ == lossy_text(name@) + " "@ + dec(row as nat),
{
    proof {
        reveal_strlit("");
    }
    let head = message_str("", string_from_utf8_lossy(name).as_str(), " ");
    let r = message_u64(head.as_str(), row as u64, "");
    assert(r@ =~= lossy_text(name@) + " "@ + dec(row as nat));
    r
}

/// [`binary_value`] of the field at `at`.
fn binary_at(d: &[u8], at: usize, t: Scalar, big: bool) -> (r: Value)
    requires
        at + scalar_size(t) <= d@.len(),
    ensures
        r == binary_value(t, d@.subrange(at as int, at + scalar_size(t)), big),
{
    let u = uint_at(d, at, t.size(), big);
    proof {
        lemma_uint_bound(d@.subrange(at as int, at + scalar_size(t)), big);
        lemma_pow256_values();
    }
    match t {
        Scalar::I8 => Value::Int(if u >= 128 { u as i64 - 256 } else { u as i64 }),
        Scalar::U8 => Value::Int(u as i64),
        Scalar::I16 => Value::Int(if u >= 32768 { u as i64 - 65536 } else { u as i64 }),
        Scalar::U16 => Value::Int(u as i64),
        Scalar::I32 => Value::Int(if u >= 2147483648 { u as i64 - 4294967296 } else { u as i64 }),
        Scalar::U32 => Value::Int(u as i64),
        Scalar::F32 => Value::F32Bits(u as u32),
        Scalar::F64 => Value::F64Bits(u),
    }
}

proof fn lemma_pow256_values()
    ensures
        pow256(1) == 256,
        pow256(2) == 65536,
        pow256(4) == 4294967296,
        pow256(8) == 0x1_0000_0000_0000_0000,
{
    reveal_with_fuel(pow256, 9);
}

proof fn lemma_uint_bound(b: Seq<u8>, big: bool)
    ensures
        0 <= uint_of(b, big) < pow256(b.len()),
    decreases b.len(),
{
    if b.len() > 0 {
        if big {
            lemma_uint_bound(b.drop_last(), big);
            assert(uint_of(b.drop_last(), big) * 256 + b.last() < pow256(b.len())) by (nonlinear_arith)
                requires
                    uint_of(b.drop_last(), big) < pow256(b.drop_last().len()),
                    0 <= uint_of(b.drop_last(), big),
                    b.last() < 256,
                    pow256(b.len()) == pow256(b.drop_last().len()) * 256,
            ;
        } else {
            lemma_uint_bound(b.drop_first(), big);
            assert(b[0] + 256 * uint_of(b.drop_first(), big) < pow256(b.len())) by (nonlinear_arith)
                requires
                    uint_of(b.drop_first(), big) < pow256(b.drop_first().len()),
                    0 <= uint_of(b.drop_first(), big),
                    b[0] < 256,
                    pow256(b.len()) == pow256(b.drop_first().len()) * 256,
            ;
        }
    }
}

/// Reads the value of type `t` at `p` ([`value_at`]); `name` and `row` say where, in errors.
fn read_value(d: &[u8], enc: Encoding, p: usize, t: Scalar, name: &[u8], row: usize) -> (r: Result<
    (Value, usize),
    ImportError,
>)
    requires
        p <= d@.len(),
    ensures
        match (r, value_at(d@, enc, p as int, t)) {
            (Ok((v, q)), Ok((v2, q2))) => v == v2 && q == q2 && q <= d@.len(),
            (Err(e), Err(f)) => is_fault(e, f),
            _ => false,
        },
{
    let n = d.len();
    if enc == Encoding::Ascii {
        let (s, e) = match next_token(d, p) {
            None => return Err(ImportError::truncated(FMT, what(name, row))),
            Some(x) => x,
        };
        let tok = vstd::slice::slice_subrange(d, s, e);
        if !is_utf8(tok) {
            return Err(ImportError::syntax(FMT, what(name, row), "a value is not ASCII text".to_owned()));
        }
        let v = if t.is_integer() {
            match parse_i64(tok) {
                Some(v) => if fits_in(t, v) {
                    Some(Value::Int(v))
                } else {
                    None
                },
                None => None,
            }
        } else if float_text_of(tok) {
            if t == Scalar::F32 {
                Some(Value::F32Text(s, e))
            } else {
                Some(Value::F64Text(s, e))
            }
        } else {
            None
        };
        match v {
            Some(v) => Ok((v, e)),
            None => Err(
                ImportError::syntax(
                    FMT,
                    what(name, row),
                    message_str("`", string_from_utf8_lossy(tok).as_str(), "` is not a valid value of its type"),
                ),
            ),
        }
    } else {
        let size = t.size();
        if size > n - p {
            return Err(ImportError::truncated(FMT, what(name, row)));
        }
        let v = binary_at(d, p, t, enc == Encoding::Big);
        Ok((v, p + size))
    }
}

/// What is left to read from `p` on, for the room checks: bytes in a binary body; bytes plus one
/// in an ASCII one (its last token may have no separator after it).
pub open spec fn left(d: Seq<u8>, p: int) -> int {
    if p <= d.len() {
        d.len() - p
    } else {
        0
    }
}

/// The fewest bytes one value of a property takes in a binary file.
pub open spec fn min_size(k: PropKind) -> nat {
    match k {
        PropKind::Scalar(t) => scalar_size(t),
        PropKind::List(c, _) => scalar_size(c),
    }
}

/// The fewest bytes a row of `props` takes in a binary file.
pub open spec fn row_size(props: Seq<(Seq<u8>, PropKind)>) -> nat
    decreases props.len(),
{
    if props.len() == 0 {
        0
    } else {
        row_size(props.drop_last()) + min_size(props.last().1)
    }
}

/// Whether an element's rows can fit in what is left: no rows always do; rows of no property
/// are invalid; otherwise each row takes at least a token and a separator per property (ASCII)
/// or its fixed minimum size (binary), and too little left is truncation.
pub open spec fn room(d: Seq<u8>, enc: Encoding, p: int, el: ElementV) -> Result<(), Fault> {
    if el.count == 0 {
        Ok(())
    } else if el.properties.len() == 0 {
        Err(Fault::Invalid)
    } else {
        let need: int = if enc == Encoding::Ascii {
            el.count * (2 * el.properties.len())
        } else {
            el.count * row_size(el.properties)
        };
        let have: int = if enc == Encoding::Ascii {
            left(d, p) + 1
        } else {
            left(d, p)
        };
        if need <= usize::MAX && need <= have {
            Ok(())
        } else {
            Err(Fault::Truncated)
        }
    }
}

/// Whether `n` list items of type `item` can fit in what is left: two bytes each in ASCII, their
/// size in binary, against what is left plus one.
pub open spec fn list_room(d: Seq<u8>, enc: Encoding, p: int, n: int, item: Scalar) -> bool {
    let per: int = if enc == Encoding::Ascii {
        2
    } else {
        scalar_size(item) as int
    };
    n * per <= usize::MAX && n * per <= left(d, p) + 1
}

/// [`room`].
fn check_room(d: &[u8], enc: Encoding, p: usize, el: &Element) -> (r: Result<(), ImportError>)
    requires
        p <= d@.len(),
    ensures
        match (r, room(d@, enc, p as int, el@)) {
            (Ok(()), Ok(())) => true,
            (Err(e), Err(f)) => is_fault(e, f),
            _ => false,
        },
{
    if el.count == 0 {
        return Ok(());
    }
    let np = el.properties.len();
    if np == 0 {
        return Err(
            ImportError::invalid(
                FMT,
                message_str("element `", string_from_utf8_lossy(el.name.as_slice()).as_str(), "` has rows but no property"),
            ),
        );
    }
    let rem = d.len() - p;
    let per: Option<usize> = if enc == Encoding::Ascii {
        np.checked_mul(2)
    } else {
        let mut sum: usize = 0;
        let mut k: usize = 0;
        let mut over = false;
        while k < np
            invariant
                k <= np == el.properties@.len(),
                !over ==> sum == row_size(el@.properties.subrange(0, k as int)),
                over ==> row_size(el@.properties.subrange(0, k as int)) > usize::MAX,
            decreases np - k,
        {
            let m = match el.properties[k].kind {
                PropKind::Scalar(t) => t.size(),
                PropKind::List(c, _) => c.size(),
            };
            proof {
                let ps = el@.properties;
                assert(ps.subrange(0, k + 1).drop_last() =~= ps.subrange(0, k as int));
                assert(ps[k as int] == (el.properties@[k as int].name@, el.properties@[k as int].kind));
                lemma_row_size_grows(ps, k as int);
            }
            if !over {
                match sum.checked_add(m) {
                    Some(x) => sum = x,
                    None => over = true,
                }
            }
            k = k + 1;
        }
        assert(el@.properties.subrange(0, np as int) =~= el@.properties);
        if over {
            None
        } else {
            Some(sum)
        }
    };
    proof {
        lemma_row_size_positive(el@.properties);
    }
    let ghost pv: int = if enc == Encoding::Ascii {
        2 * np
    } else {
        row_size(el@.properties) as int
    };
    let ghost need: int = el.count * pv;
    assert(need == if enc == Encoding::Ascii {
        el.count * (2 * el@.properties.len())
    } else {
        el.count * row_size(el@.properties)
    });
    assert(pv >= 1);
    assert(need >= pv) by (nonlinear_arith)
        requires
            el.count >= 1,
            pv >= 1,
            need == el.count * pv,
    ;
    let ok = match per {
        None => false,
        Some(per) => match el.count.checked_mul(per) {
            None => false,
            Some(need) => if enc == Encoding::Ascii {
                need <= rem || need - 1 == rem
            } else {
                need <= rem
            },
        },
    };
    assert(ok == (need <= usize::MAX && need <= (if enc == Encoding::Ascii {
        left(d@, p as int) + 1
    } else {
        left(d@, p as int)
    })));
    if ok {
        Ok(())
    } else {
        Err(
            ImportError::truncated(
                FMT,
                message_u64(
                    "the ",
                    el.count as u64,
                    message_str(" rows of element `", string_from_utf8_lossy(el.name.as_slice()).as_str(), "`").as_str(),
                ),
            ),
        )
    }
}

proof fn lemma_row_size_grows(ps: Seq<(Seq<u8>, PropKind)>, k: int)
    requires
        0 <= k < ps.len(),
    ensures
        row_size(ps.subrange(0, k + 1)) == row_size(ps.subrange(0, k)) + min_size(ps[k].1),
        row_size(ps.subrange(0, k + 1)) >= row_size(ps.subrange(0, k)),
{
    assert(ps.subrange(0, k + 1).drop_last() =~= ps.subrange(0, k));
    assert(ps.subrange(0, k + 1).last() == ps[k]);
}

proof fn lemma_row_size_positive(ps: Seq<(Seq<u8>, PropKind)>)
    ensures
        ps.len() > 0 ==> row_size(ps) >= 1,
    decreases ps.len(),
{
    if ps.len() > 0 {
        lemma_row_size_positive(ps.drop_last());
    }
}

/// [`list_room`], for `n` items of `item`; `what` says where, in errors.
fn check_list_room(d: &[u8], enc: Encoding, p: usize, n: usize, item: Scalar, name: &[u8], row: usize) -> (r: Result<
    (),
    ImportError,
>)
    requires
        p <= d@.len(),
    ensures
        r is Ok <==> list_room(d@, enc, p as int, n as int, item),
        r matches Err(e) ==> is_fault(e, Fault::Truncated),
{
    let rem = d.len() - p;
    let per: usize = if enc == Encoding::Ascii {
        2
    } else {
        item.size()
    };
    let ok = match n.checked_mul(per) {
        None => false,
        Some(need) => need <= rem || need - 1 == rem,
    };
    assert(per == (if enc == Encoding::Ascii {
        2
    } else {
        scalar_size(item) as int
    }));
    assert(ok == (n * per <= usize::MAX && n * per <= left(d@, p as int) + 1));
    if ok {
        Ok(())
    } else {
        Err(
            ImportError::truncated(
                FMT,
                message_u64("the ", n as u64, message_str(" list items of ", what(name, row).as_str(), "").as_str()),
            ),
        )
    }
}

// ---------------------------------------------------------------------------------------------
// Rows
// ---------------------------------------------------------------------------------------------
/// Which elements and properties the reader keeps: the `vertex` element and its `x`, `y`, `z`;
/// the `face` element, its index list and its `layer_id`, if any; the `layer` element, if any.
#[derive(Clone, Copy, Debug, PartialEq, Eq, Structural)]
pub struct Layout {
    pub vertex_el: usize,
    pub face_el: usize,
    pub layer_el: Option<usize>,
    pub ix: usize,
    pub iy: usize,
    pub iz: usize,
    pub idx: usize,
    pub layer_prop: Option<usize>,
}

/// One row as the reader keeps it.
#[verifier::ext_equal]
pub ghost struct RowV {
    pub x: Value,
    pub y: Value,
    pub z: Value,
    pub indices: Seq<u32>,
    pub layer: i64,
    pub name: Seq<Value>,
}

/// A row before any property is read.
pub open spec fn empty_row() -> RowV {
    RowV { x: Value::Int(0), y: Value::Int(0), z: Value::Int(0), indices: seq![], layer: 0, name: seq![] }
}

/// What the reader keeps of all rows read: vertices, faces (indices and layer) and layer names.
#[verifier::ext_equal]
pub ghost struct Acc {
    pub verts: Seq<(Value, Value, Value)>,
    pub faces: Seq<(Seq<u32>, i64)>,
    pub names: Seq<Seq<Value>>,
}

/// A face index a list item gives: an integer in `u32`.
pub open spec fn index_ok(v: Value) -> bool {
    v matches Value::Int(i) && 0 <= i <= u32::MAX
}

/// The items of a list from `p` on, `n` of them, after `acc`; with `keep` (the face's index
/// list), an item that is not a `u32` is invalid, as soon as it is read.
pub open spec fn list_items(d: Seq<u8>, enc: Encoding, p: int, item: Scalar, n: nat, keep: bool, acc: Seq<Value>) -> Result<
    (Seq<Value>, int),
    Fault,
>
    decreases n,
{
    if n == 0 {
        Ok((acc, p))
    } else {
        match value_at(d, enc, p, item) {
            Err(f) => Err(f),
            Ok((v, q)) => if keep && !index_ok(v) {
                Err(Fault::Invalid)
            } else {
                list_items(d, enc, q, item, (n - 1) as nat, keep, acc.push(v))
            },
        }
    }
}

/// The face indices of checked items.
pub open spec fn as_indices(vs: Seq<Value>) -> Seq<u32> {
    vs.map_values(|v: Value| match v {
        Value::Int(i) => i as u32,
        _ => 0u32,
    })
}

/// A scalar value put where its property's role says.
pub open spec fn scalar_put(row: RowV, l: Layout, ei: int, k: int, v: Value) -> RowV {
    if ei == l.vertex_el {
        if k == l.ix {
            RowV { x: v, ..row }
        } else if k == l.iy {
            RowV { y: v, ..row }
        } else if k == l.iz {
            RowV { z: v, ..row }
        } else {
            row
        }
    } else if ei == l.face_el && l.layer_prop == Some(k as usize) && v is Int {
        RowV { layer: v->Int_0, ..row }
    } else {
        row
    }
}

/// The list is the face's index list.
pub open spec fn keeps_indices(l: Layout, ei: int, k: int) -> bool {
    ei == l.face_el && k == l.idx
}

/// The list is a layer's name.
pub open spec fn keeps_name(l: Layout, ei: int, name: Seq<u8>) -> bool {
    l.layer_el == Some(ei as usize) && name == "layer_name".spec_bytes()
}

/// A list's items put where its role says.
pub open spec fn list_put(row: RowV, l: Layout, ei: int, k: int, name: Seq<u8>, vs: Seq<Value>) -> RowV {
    if keeps_indices(l, ei, k) {
        RowV { indices: row.indices + as_indices(vs), ..row }
    } else if keeps_name(l, ei, name) {
        RowV { name: row.name + vs, ..row }
    } else {
        row
    }
}

/// The properties of a row of element `ei` from property `k` on: a list's count must be an
/// integer of 0 or more (else invalid) whose items fit in what is left (else truncation).
pub open spec fn read_props(d: Seq<u8>, enc: Encoding, p: int, l: Layout, ei: int, el: ElementV, k: int, row: RowV) -> Result<
    (RowV, int),
    Fault,
>
    decreases el.properties.len() - k,
{
    if k < 0 || k >= el.properties.len() {
        Ok((row, p))
    } else {
        match el.properties[k].1 {
            PropKind::Scalar(t) => match value_at(d, enc, p, t) {
                Err(f) => Err(f),
                Ok((v, q)) => read_props(d, enc, q, l, ei, el, k + 1, scalar_put(row, l, ei, k, v)),
            },
            PropKind::List(c, item) => match value_at(d, enc, p, c) {
                Err(f) => Err(f),
                Ok((cv, q)) => match cv {
                    Value::Int(n) => if n < 0 {
                        Err(Fault::Invalid)
                    } else if !list_room(d, enc, q, n as int, item) {
                        Err(Fault::Truncated)
                    } else {
                        match list_items(d, enc, q, item, n as nat, keeps_indices(l, ei, k), seq![]) {
                            Err(f) => Err(f),
                            Ok((vs, q2)) => read_props(
                                d,
                                enc,
                                q2,
                                l,
                                ei,
                                el,
                                k + 1,
                                list_put(row, l, ei, k, el.properties[k].0, vs),
                            ),
                        }
                    },
                    _ => Err(Fault::Invalid),
                },
            },
        }
    }
}

/// A row kept as its element's role says.
pub open spec fn acc_push(acc: Acc, l: Layout, ei: int, row: RowV) -> Acc {
    if ei == l.vertex_el {
        Acc { verts: acc.verts.push((row.x, row.y, row.z)), ..acc }
    } else if ei == l.face_el {
        Acc { faces: acc.faces.push((row.indices, row.layer)), ..acc }
    } else if l.layer_el == Some(ei as usize) {
        Acc { names: acc.names.push(row.name), ..acc }
    } else {
        acc
    }
}

/// The last `r` rows of element `ei`.
pub open spec fn read_rows(d: Seq<u8>, enc: Encoding, p: int, l: Layout, ei: int, el: ElementV, r: nat, acc: Acc) -> Result<
    (Acc, int),
    Fault,
>
    decreases r,
{
    if r == 0 {
        Ok((acc, p))
    } else {
        match read_props(d, enc, p, l, ei, el, 0, empty_row()) {
            Err(f) => Err(f),
            Ok((row, q)) => read_rows(d, enc, q, l, ei, el, (r - 1) as nat, acc_push(acc, l, ei, row)),
        }
    }
}

/// The elements from `ei` on, each first checked for room.
pub open spec fn read_elements(d: Seq<u8>, enc: Encoding, p: int, l: Layout, els: Seq<ElementV>, ei: int, acc: Acc) -> Result<
    (Acc, int),
    Fault,
>
    decreases els.len() - ei,
{
    if ei < 0 || ei >= els.len() {
        Ok((acc, p))
    } else {
        match room(d, enc, p, els[ei]) {
            Err(f) => Err(f),
            Ok(()) => match read_rows(d, enc, p, l, ei, els[ei], els[ei].count as nat, acc) {
                Err(f) => Err(f),
                Ok((acc2, q)) => read_elements(d, enc, q, l, els, ei + 1, acc2),
            },
        }
    }
}

/// One row as the reader keeps it.
pub struct Row {
    pub x: Value,
    pub y: Value,
    pub z: Value,
    pub indices: Vec<u32>,
    pub layer: i64,
    pub name: Vec<Value>,
}

impl View for Row {
    type V = RowV;

    open spec fn view(&self) -> RowV {
        RowV { x: self.x, y: self.y, z: self.z, indices: self.indices@, layer: self.layer, name: self.name@ }
    }
}

/// Reads `n` list items ([`list_items`]) onto `out` (as face indices onto `idx` when `keep`).
fn read_items(
    d: &[u8],
    enc: Encoding,
    p: usize,
    item: Scalar,
    n: usize,
    keep: bool,
    name: &[u8],
    row: usize,
) -> (r: Result<(Vec<Value>, usize), ImportError>)
    requires
        p <= d@.len(),
    ensures
        match (r, list_items(d@, enc, p as int, item, n as nat, keep, seq![])) {
            (Ok((vs, q)), Ok((vs2, q2))) => vs@ == vs2 && q == q2 && q <= d@.len(),
            (Err(e), Err(f)) => is_fault(e, f),
            _ => false,
        },
{
    let mut out: Vec<Value> = Vec::new();
    let mut q = p;
    let mut k: usize = 0;
    while k < n
        invariant
            k <= n,
            q <= d@.len(),
            list_items(d@, enc, p as int, item, n as nat, keep, seq![]) == list_items(
                d@,
                enc,
                q as int,
                item,
                (n - k) as nat,
                keep,
                out@,
            ),
        decreases n - k,
    {
        let (v, q2) = match read_value(d, enc, q, item, name, row) {
            Err(e) => return Err(e),
            Ok(x) => x,
        };
        if keep {
            let ok = match v {
                Value::Int(i) => 0 <= i && i <= 4294967295,
                _ => false,
            };
            if !ok {
                return Err(ImportError::invalid(FMT, message_str(what(name, row).as_str(), ": a vertex index is out of range", "")));
            }
        }
        out.push(v);
        q = q2;
        k = k + 1;
    }
    Ok((out, q))
}

/// [`scalar_put`].
fn put_scalar(row: &mut Row, l: Layout, ei: usize, k: usize, v: Value)
    ensures
        final(row)@ == scalar_put(old(row)@, l, ei as int, k as int, v),
{
    if ei == l.vertex_el {
        if k == l.ix {
            row.x = v;
        } else if k == l.iy {
            row.y = v;
        } else if k == l.iz {
            row.z = v;
        }
    } else if ei == l.face_el && l.layer_prop == Some(k) {
        if let Value::Int(i) = v {
            row.layer = i;
        }
    }
}

/// [`list_put`].
fn put_list(row: &mut Row, l: Layout, ei: usize, k: usize, name: &[u8], vs: Vec<Value>)
    ensures
        final(row)@ == list_put(old(row)@, l, ei as int, k as int, name@, vs@),
{
    let keep_name = l.layer_el == Some(ei) && bytes_are(name, "layer_name");
    if ei == l.face_el && k == l.idx {
        let ghost before = row.indices@;
        let mut j: usize = 0;
        while j < vs.len()
            invariant
                j <= vs@.len(),
                row.indices@ == before + as_indices(vs@.subrange(0, j as int)),
                row@ == (RowV { indices: row.indices@, ..old(row)@ }),
                before == old(row)@.indices,
            decreases vs@.len() - j,
        {
            let i: u32 = match vs[j] {
                Value::Int(i) => i as u32,
                _ => 0,
            };
            row.indices.push(i);
            assert(as_indices(vs@.subrange(0, j + 1)) =~= as_indices(vs@.subrange(0, j as int)).push(i));
            j = j + 1;
        }
        assert(vs@.subrange(0, vs@.len() as int) =~= vs@);
        assert(row@ =~= list_put(old(row)@, l, ei as int, k as int, name@, vs@));
    } else if keep_name {
        let ghost before = row.name@;
        let ghost vv = vs@;
        let mut vs = vs;
        row.name.append(&mut vs);
        assert(row.name@ =~= before + vv);
        assert(row@ =~= list_put(old(row)@, l, ei as int, k as int, name@, vv));
    }
}

/// Reads one row of element `ei` ([`read_props`] from its first property).
fn read_row(d: &[u8], enc: Encoding, p: usize, l: Layout, ei: usize, el: &Element, row_no: usize) -> (r: Result<
    (Row, usize),
    ImportError,
>)
    requires
        p <= d@.len(),
    ensures
        match (r, read_props(d@, enc, p as int, l, ei as int, el@, 0, empty_row())) {
            (Ok((row, q)), Ok((row2, q2))) => row@ == row2 && q == q2 && q <= d@.len(),
            (Err(e), Err(f)) => is_fault(e, f),
            _ => false,
        },
{
    let mut row = Row {
        x: Value::Int(0),
        y: Value::Int(0),
        z: Value::Int(0),
        indices: Vec::new(),
        layer: 0,
        name: Vec::new(),
    };
    assert(row@ =~= empty_row());
    let mut q = p;
    let mut k: usize = 0;
    let np = el.properties.len();
    while k < np
        invariant
            k <= np == el.properties@.len() == el@.properties.len(),
            q <= d@.len(),
            read_props(d@, enc, p as int, l, ei as int, el@, 0, empty_row()) == read_props(
                d@,
                enc,
                q as int,
                l,
                ei as int,
                el@,
                k as int,
                row@,
            ),
        decreases np - k,
    {
        let prop = &el.properties[k];
        assert(el@.properties[k as int] == (prop.name@, prop.kind));
        match prop.kind {
            PropKind::Scalar(t) => {
                let (v, q2) = match read_value(d, enc, q, t, el.name.as_slice(), row_no) {
                    Err(e) => return Err(e),
                    Ok(x) => x,
                };
                put_scalar(&mut row, l, ei, k, v);
                q = q2;
            },
            PropKind::List(c, item) => {
                let (cv, q2) = match read_value(d, enc, q, c, el.name.as_slice(), row_no) {
                    Err(e) => return Err(e),
                    Ok(x) => x,
                };
                let n: i64 = match cv {
                    Value::Int(n) => n,
                    _ => {
                        return Err(ImportError::invalid(FMT, message_str(what(el.name.as_slice(), row_no).as_str(), ": a list has a count that is not an integer", "")));
                    },
                };
                if n < 0 {
                    return Err(
                        ImportError::invalid(
                            FMT,
                            message_str(
                                what(el.name.as_slice(), row_no).as_str(),
                                ": list `",
                                message_str(string_from_utf8_lossy(prop.name.as_slice()).as_str(), "` has a negative count", "").as_str(),
                            ),
                        ),
                    );
                }
                let n_usize: usize = if n as u64 <= usize::MAX as u64 {
                    n as usize
                } else {
                    proof {
                        let per: int = if enc == Encoding::Ascii {
                            2
                        } else {
                            scalar_size(item) as int
                        };
                        assert(n * per >= n) by (nonlinear_arith)
                            requires
                                n >= 0,
                                per >= 1,
                        ;
                    }
                    return Err(ImportError::truncated(FMT, message_str("the list items of ", what(el.name.as_slice(), row_no).as_str(), "")));
                };
                if let Err(e) = check_list_room(d, enc, q2, n_usize, item, el.name.as_slice(), row_no) {
                    return Err(e);
                }
                let keep = ei == l.face_el && k == l.idx;
                let (vs, q3) = match read_items(d, enc, q2, item, n_usize, keep, el.name.as_slice(), row_no) {
                    Err(e) => return Err(e),
                    Ok(x) => x,
                };
                put_list(&mut row, l, ei, k, prop.name.as_slice(), vs);
                q = q3;
            },
        }
        k = k + 1;
    }
    Ok((row, q))
}

/// What the reader kept, as values.
pub open spec fn acc_of(verts: Seq<(Value, Value, Value)>, faces: Seq<(Vec<u32>, i64)>, names: Seq<Vec<Value>>) -> Acc {
    Acc {
        verts,
        faces: faces.map_values(|f: (Vec<u32>, i64)| (f.0@, f.1)),
        names: names.map_values(|n: Vec<Value>| n@),
    }
}

/// Reads the elements' rows ([`read_elements`] from the first), from `p` on.
fn read_body(d: &[u8], enc: Encoding, p: usize, l: Layout, els: &Vec<Element>) -> (r: Result<
    (Vec<(Value, Value, Value)>, Vec<(Vec<u32>, i64)>, Vec<Vec<Value>>, usize),
    ImportError,
>)
    requires
        p <= d@.len(),
    ensures
        match (r, read_elements(d@, enc, p as int, l, elements_view(els@), 0, Acc { verts: seq![], faces: seq![], names: seq![] })) {
            (Ok((v, f, n, q)), Ok((acc, q2))) => acc_of(v@, f@, n@) == acc && q == q2 && q <= d@.len(),
            (Err(e), Err(fault)) => is_fault(e, fault),
            _ => false,
        },
{
    let ghost ev = elements_view(els@);
    let mut verts: Vec<(Value, Value, Value)> = Vec::new();
    let mut faces: Vec<(Vec<u32>, i64)> = Vec::new();
    let mut names: Vec<Vec<Value>> = Vec::new();
    let mut q = p;
    let mut ei: usize = 0;
    assert(acc_of(verts@, faces@, names@) =~= Acc { verts: seq![], faces: seq![], names: seq![] });
    while ei < els.len()
        invariant
            ei <= els@.len() == ev.len(),
            ev == elements_view(els@),
            q <= d@.len(),
            read_elements(d@, enc, p as int, l, ev, 0, Acc { verts: seq![], faces: seq![], names: seq![] })
                == read_elements(d@, enc, q as int, l, ev, ei as int, acc_of(verts@, faces@, names@)),
        decreases els@.len() - ei,
    {
        let el = &els[ei];
        assert(ev[ei as int] == el@);
        if let Err(e) = check_room(d, enc, q, el) {
            return Err(e);
        }
        let ghost start_acc = acc_of(verts@, faces@, names@);
        let ghost q0 = q;
        let mut row_no: usize = 0;
        while row_no < el.count
            invariant
                row_no <= el.count,
                q <= d@.len(),
                ev[ei as int] == el@,
                ev == elements_view(els@),
                ei < ev.len(),
                room(d@, enc, q0 as int, el@) is Ok,
                read_elements(d@, enc, p as int, l, ev, 0, Acc { verts: seq![], faces: seq![], names: seq![] })
                    == read_elements(d@, enc, q0 as int, l, ev, ei as int, start_acc),
                read_rows(d@, enc, q0 as int, l, ei as int, el@, el.count as nat, start_acc) == read_rows(
                    d@,
                    enc,
                    q as int,
                    l,
                    ei as int,
                    el@,
                    (el.count - row_no) as nat,
                    acc_of(verts@, faces@, names@),
                ),
            decreases el.count - row_no,
        {
            let ghost res = read_props(d@, enc, q as int, l, ei as int, el@, 0, empty_row());
            let (row, q2) = match read_row(d, enc, q, l, ei, el, row_no) {
                Err(e) => {
                    proof {
                        let acc = acc_of(verts@, faces@, names@);
                        assert(res is Err);
                        assert(read_rows(d@, enc, q as int, l, ei as int, el@, (el.count - row_no) as nat, acc) == Err::<
                            (Acc, int),
                            Fault,
                        >(res->Err_0));
                        assert(read_elements(d@, enc, q0 as int, l, ev, ei as int, start_acc) == read_rows(
                            d@,
                            enc,
                            q0 as int,
                            l,
                            ei as int,
                            el@,
                            el.count as nat,
                            start_acc,
                        ));
                    }
                    return Err(e);
                },
                Ok(x) => x,
            };
            let ghost rv = row@;
            let ghost before = acc_of(verts@, faces@, names@);
            if ei == l.vertex_el {
                verts.push((row.x, row.y, row.z));
                assert(acc_of(verts@, faces@, names@) =~= acc_push(before, l, ei as int, rv));
            } else if ei == l.face_el {
                faces.push((row.indices, row.layer));
                assert(acc_of(verts@, faces@, names@).faces =~= before.faces.push((rv.indices, rv.layer)));
                assert(acc_of(verts@, faces@, names@) =~= acc_push(before, l, ei as int, rv));
            } else if l.layer_el == Some(ei) {
                names.push(row.name);
                assert(acc_of(verts@, faces@, names@).names =~= before.names.push(rv.name));
                assert(acc_of(verts@, faces@, names@) =~= acc_push(before, l, ei as int, rv));
            } else {
                assert(acc_of(verts@, faces@, names@) =~= acc_push(before, l, ei as int, rv));
            }
            q = q2;
            row_no = row_no + 1;
        }
        ei = ei + 1;
    }
    Ok((verts, faces, names, q))
}

// ---------------------------------------------------------------------------------------------
// The file
// ---------------------------------------------------------------------------------------------
/// The first element from `i` on named `name`.
pub open spec fn el_named(els: Seq<ElementV>, name: Seq<u8>, i: int) -> Option<int>
    decreases els.len() - i,
{
    if i < 0 || i >= els.len() {
        None
    } else if els[i].name == name {
        Some(i)
    } else {
        el_named(els, name, i + 1)
    }
}

/// The first property from `i` on named `name`.
pub open spec fn prop_named(ps: Seq<(Seq<u8>, PropKind)>, name: Seq<u8>, i: int) -> Option<int>
    decreases ps.len() - i,
{
    if i < 0 || i >= ps.len() {
        None
    } else if ps[i].0 == name {
        Some(i)
    } else {
        prop_named(ps, name, i + 1)
    }
}

/// The vertex property of an axis: it must exist and not be a list.
pub open spec fn coord(vx: ElementV, axis: Seq<u8>) -> Result<int, Fault> {
    match prop_named(vx.properties, axis, 0) {
        None => Err(Fault::Invalid),
        Some(i) => if vx.properties[i].1 is Scalar {
            Ok(i)
        } else {
            Err(Fault::Invalid)
        },
    }
}

/// Which elements and properties the reader keeps ([`Layout`]): a `vertex` and a `face` element
/// are needed; the vertex's `x`, `y`, `z` must be scalars; the face's `vertex_indices` (or else
/// `vertex_index`) a list of integers; its `layer_id`, if any, an integer. Anything else missing
/// or wrong is invalid.
pub open spec fn spec_layout(els: Seq<ElementV>) -> Result<Layout, Fault> {
    match (el_named(els, "vertex".spec_bytes(), 0), el_named(els, "face".spec_bytes(), 0)) {
        (Some(v), Some(f)) => match coord(els[v], "x".spec_bytes()) {
            Err(e) => Err(e),
            Ok(ix) => match coord(els[v], "y".spec_bytes()) {
                Err(e) => Err(e),
                Ok(iy) => match coord(els[v], "z".spec_bytes()) {
                    Err(e) => Err(e),
                    Ok(iz) => {
                        let ps = els[f].properties;
                        let idx = match prop_named(ps, "vertex_indices".spec_bytes(), 0) {
                            Some(i) => Some(i),
                            None => prop_named(ps, "vertex_index".spec_bytes(), 0),
                        };
                        match idx {
                            None => Err(Fault::Invalid),
                            Some(i) => if !(ps[i].1 matches PropKind::List(_, item) && integer(item)) {
                                Err(Fault::Invalid)
                            } else {
                                let lp = prop_named(ps, "layer_id".spec_bytes(), 0);
                                if lp matches Some(j) && !(ps[j].1 matches PropKind::Scalar(t) && integer(t)) {
                                    Err(Fault::Invalid)
                                } else {
                                    Ok(
                                        Layout {
                                            vertex_el: v as usize,
                                            face_el: f as usize,
                                            layer_el: match el_named(els, "layer".spec_bytes(), 0) {
                                                Some(k) => Some(k as usize),
                                                None => None,
                                            },
                                            ix: ix as usize,
                                            iy: iy as usize,
                                            iz: iz as usize,
                                            idx: i as usize,
                                            layer_prop: match lp {
                                                Some(j) => Some(j as usize),
                                                None => None,
                                            },
                                        },
                                    )
                                }
                            },
                        }
                    },
                },
            },
        },
        _ => Err(Fault::Invalid),
    }
}

/// How many tokens are left from `p` on.
pub open spec fn tokens_left(d: Seq<u8>, p: int) -> nat
    decreases d.len() - p,
{
    match next_tok(d, p) {
        None => 0,
        Some((s, e)) => if p < e <= d.len() {
            1 + tokens_left(d, e)
        } else {
            0
        },
    }
}

/// What is left after the last element: tokens in an ASCII body, bytes in a binary one.
pub open spec fn trailing_of(d: Seq<u8>, enc: Encoding, p: int) -> nat {
    if enc == Encoding::Ascii {
        tokens_left(d, p)
    } else {
        left(d, p) as nat
    }
}

/// A PLY file's rows: the header, the layout, every element's rows, and where they end.
pub open spec fn spec_rows(b: Seq<u8>) -> Result<(Encoding, Layout, Acc, int), Fault> {
    match spec_header(b) {
        Err(f) => Err(f),
        Ok((enc, els, body)) => match spec_layout(els) {
            Err(f) => Err(f),
            Ok(l) => match read_elements(b, enc, body, l, els, 0, Acc { verts: seq![], faces: seq![], names: seq![] }) {
                Err(f) => Err(f),
                Ok((acc, q)) => Ok((enc, l, acc, q)),
            },
        },
    }
}

/// The rows of a PLY file, values as the file holds them.
pub struct PlyRows {
    pub encoding: Encoding,
    /// Per vertex, its `x`, `y`, `z`.
    pub vertices: Vec<(Value, Value, Value)>,
    /// Per face, its vertex indices and its `layer_id` (0 without one).
    pub faces: Vec<(Vec<u32>, i64)>,
    /// Per `layer` row, the items of its `layer_name`.
    pub layer_names: Vec<Vec<Value>>,
    /// The faces have a `layer_id`.
    pub layered: bool,
    /// Tokens (ASCII) or bytes (binary) after the last element.
    pub trailing: usize,
}

/// The first element named `name` ([`el_named`]).
fn find_element(els: &Vec<Element>, name: &str) -> (r: Option<usize>)
    ensures
        match r {
            Some(i) => el_named(elements_view(els@), name.spec_bytes(), 0) == Some(i as int) && i < els@.len(),
            None => el_named(elements_view(els@), name.spec_bytes(), 0) is None,
        },
{
    let ghost ev = elements_view(els@);
    let mut i: usize = 0;
    while i < els.len()
        invariant
            i <= els@.len() == ev.len(),
            ev == elements_view(els@),
            el_named(ev, name.spec_bytes(), 0) == el_named(ev, name.spec_bytes(), i as int),
        decreases els@.len() - i,
    {
        assert(ev[i as int].name == els@[i as int].name@);
        if bytes_are(els[i].name.as_slice(), name) {
            return Some(i);
        }
        i = i + 1;
    }
    None
}

/// The first property named `name` ([`prop_named`]).
fn find_property(el: &Element, name: &str) -> (r: Option<usize>)
    ensures
        match r {
            Some(i) => prop_named(el@.properties, name.spec_bytes(), 0) == Some(i as int) && i < el.properties@.len(),
            None => prop_named(el@.properties, name.spec_bytes(), 0) is None,
        },
{
    let ghost ps = el@.properties;
    let mut i: usize = 0;
    while i < el.properties.len()
        invariant
            i <= el.properties@.len() == ps.len(),
            ps == el@.properties,
            prop_named(ps, name.spec_bytes(), 0) == prop_named(ps, name.spec_bytes(), i as int),
        decreases el.properties@.len() - i,
    {
        assert(ps[i as int].0 == el.properties@[i as int].name@);
        if bytes_are(el.properties[i].name.as_slice(), name) {
            return Some(i);
        }
        i = i + 1;
    }
    None
}

/// [`coord`].
fn coord_of(vx: &Element, axis: &str) -> (r: Result<usize, ImportError>)
    ensures
        match (r, coord(vx@, axis.spec_bytes())) {
            (Ok(i), Ok(j)) => i == j && i < vx.properties@.len(),
            (Err(e), Err(f)) => is_fault(e, f),
            _ => false,
        },
{
    match find_property(vx, axis) {
        None => Err(ImportError::invalid(FMT, message_str("the vertex element has no `", axis, "` property"))),
        Some(i) => {
            assert(vx@.properties[i as int].1 == vx.properties@[i as int].kind);
            match vx.properties[i].kind {
                PropKind::Scalar(_) => Ok(i),
                PropKind::List(_, _) => Err(ImportError::invalid(FMT, message_str("vertex property `", axis, "` is a list"))),
            }
        },
    }
}

/// [`spec_layout`].
fn layout_of(els: &Vec<Element>) -> (r: Result<Layout, ImportError>)
    ensures
        match (r, spec_layout(elements_view(els@))) {
            (Ok(l), Ok(l2)) => l == l2,
            (Err(e), Err(f)) => is_fault(e, f),
            _ => false,
        },
{
    let ghost ev = elements_view(els@);
    let (v, f) = match (find_element(els, "vertex"), find_element(els, "face")) {
        (Some(v), Some(f)) => (v, f),
        _ => return Err(ImportError::invalid(FMT, "the header declares no `vertex` or no `face` element".to_owned())),
    };
    let vx = &els[v];
    assert(ev[v as int] == vx@);
    let ix = coord_of(vx, "x")?;
    let iy = coord_of(vx, "y")?;
    let iz = coord_of(vx, "z")?;
    let fc = &els[f];
    assert(ev[f as int] == fc@);
    let idx = match find_property(fc, "vertex_indices") {
        Some(i) => i,
        None => match find_property(fc, "vertex_index") {
            Some(i) => i,
            None => return Err(
                ImportError::invalid(FMT, "the face element has no `vertex_indices` or `vertex_index` list".to_owned()),
            ),
        },
    };
    assert(fc@.properties[idx as int].1 == fc.properties@[idx as int].kind);
    match fc.properties[idx].kind {
        PropKind::List(_, item) if item.is_integer() => {},
        _ => return Err(ImportError::invalid(FMT, "the face vertex index property is not a list of integers".to_owned())),
    }
    let lp = find_property(fc, "layer_id");
    if let Some(j) = lp {
        assert(fc@.properties[j as int].1 == fc.properties@[j as int].kind);
        match fc.properties[j].kind {
            PropKind::Scalar(t) if t.is_integer() => {},
            _ => return Err(ImportError::invalid(FMT, "face property `layer_id` is not an integer".to_owned())),
        }
    }
    let layer_el = find_element(els, "layer");
    Ok(Layout { vertex_el: v, face_el: f, layer_el, ix, iy, iz, idx, layer_prop: lp })
}

/// [`trailing_of`].
fn trailing_at(d: &[u8], enc: Encoding, p: usize) -> (r: usize)
    requires
        p <= d@.len(),
    ensures
        r == trailing_of(d@, enc, p as int),
{
    if enc != Encoding::Ascii {
        return d.len() - p;
    }
    let mut n: usize = 0;
    let mut q = p;
    loop
        invariant
            enc == Encoding::Ascii,
            p <= q <= d@.len(),
            n <= q - p,
            tokens_left(d@, p as int) == n + tokens_left(d@, q as int),
        decreases d@.len() - q,
    {
        match next_token(d, q) {
            None => {
                assert(tokens_left(d@, q as int) == 0);
                return n;
            },
            Some((_, e)) => {
                n = n + 1;
                q = e;
            },
        }
    }
}

/// Reads a PLY file's rows ([`spec_rows`]): its header, which elements and properties it keeps,
/// every element's rows, and what is left after the last one.
pub fn read_ply_rows(bytes: &[u8]) -> (r: Result<PlyRows, ImportError>)
    ensures
        match (r, spec_rows(bytes@)) {
            (Ok(rows), Ok((enc, l, acc, q))) => {
                &&& rows.encoding == enc
                &&& acc_of(rows.vertices@, rows.faces@, rows.layer_names@) == acc
                &&& rows.layered == (l.layer_prop is Some)
                &&& rows.trailing == trailing_of(bytes@, enc, q)
            },
            (Err(e), Err(f)) => is_fault(e, f),
            _ => false,
        },
{
    let (enc, els, body) = header(bytes)?;
    proof {
        assert(body <= bytes@.len()) by {
            lemma_header_body(bytes@);
        }
    }
    let l = layout_of(&els)?;
    let (vertices, faces, layer_names, q) = read_body(bytes, enc, body, l, &els)?;
    let trailing = trailing_at(bytes, enc, q);
    Ok(PlyRows { encoding: enc, vertices, faces, layer_names, layered: l.layer_prop.is_some(), trailing })
}

/// The body starts within the file.
proof fn lemma_header_body(b: Seq<u8>)
    ensures
        spec_header(b) matches Ok((_, _, p)) ==> 0 <= p <= b.len(),
{
    if b.len() > 0 && line_at(b, 0) == "ply".spec_bytes() {
        lemma_header_from_body(b, next_pos(b, 0), Head { encoding: None, elements: seq![] });
    }
}

proof fn lemma_header_from_body(b: Seq<u8>, pos: int, h: Head)
    ensures
        header_from(b, pos, h) matches Ok((_, _, p)) ==> 0 <= p <= b.len(),
    decreases b.len() - pos,
{
    if 0 <= pos < b.len() {
        lemma_line_end(b, pos);
        let line = line_at(b, pos);
        if vstd::utf8::valid_utf8(line) {
            match header_step(h, tokens(line)) {
                Ok(Some(h2)) => if next_pos(b, pos) > pos {
                    lemma_header_from_body(b, next_pos(b, pos), h2);
                },
                _ => {},
            }
        }
    }
}

// ---------------------------------------------------------------------------------------------
// Groups
// ---------------------------------------------------------------------------------------------
/// Strictly ascending.
pub open spec fn ascending_ids(s: Seq<i64>) -> bool {
    forall|i: int, j: int| 0 <= i < j < s.len() ==> s[i] < s[j]
}

/// `r` lists the faces' layer ids, ascending, each once.
pub open spec fn is_layer_ids(r: Seq<i64>, faces: Seq<(Seq<u32>, i64)>) -> bool {
    &&& ascending_ids(r)
    &&& forall|x: i64| r.contains(x) <==> exists|k: int| 0 <= k < faces.len() && #[trigger] faces[k].1 == x
}

/// The faces' layer ids, ascending, each once.
pub open spec fn layer_ids(faces: Seq<(Seq<u32>, i64)>) -> Seq<i64> {
    choose|r: Seq<i64>| is_layer_ids(r, faces)
}

/// A face needs 3 vertices or more, each one of the `n`.
pub open spec fn face_ok(idx: Seq<u32>, n: int) -> bool {
    idx.len() >= 3 && forall|j: int| 0 <= j < idx.len() ==> idx[j] < n
}

/// The group a layer id gives: the layer's name, or `Layer <id>` when it has none.
pub open spec fn group_name(names: Seq<Seq<char>>, id: i64) -> Seq<char> {
    if 0 <= id < names.len() {
        names[id as int]
    } else {
        "Layer "@ + dec_signed(id as int)
    }
}

/// The note for a layer id without a name.
pub open spec fn unnamed_note(id: i64) -> Seq<char> {
    "layer_id "@ + dec_signed(id as int) + " has no layer_name; its group is named `Layer "@ + dec_signed(id as int)
        + "`"@
}

/// The notes for the first `k` ids, those without a name.
pub open spec fn unnamed_notes(names: Seq<Seq<char>>, ids: Seq<i64>, k: int) -> Seq<Seq<char>>
    decreases k,
{
    if k <= 0 {
        seq![]
    } else if 0 <= ids[k - 1] < names.len() {
        unnamed_notes(names, ids, k - 1)
    } else {
        unnamed_notes(names, ids, k - 1).push(unnamed_note(ids[k - 1]))
    }
}

/// The notes for the first `k` layer names, those whose layer holds no face.
pub open spec fn empty_layer_notes(names: Seq<Seq<char>>, ids: Seq<i64>, k: int) -> Seq<Seq<char>>
    decreases k,
{
    if k <= 0 {
        seq![]
    } else if ids.contains((k - 1) as i64) {
        empty_layer_notes(names, ids, k - 1)
    } else {
        empty_layer_notes(names, ids, k - 1).push(
            "layer "@ + dec((k - 1) as nat) + " `"@ + names[k - 1] + "` holds no face"@,
        )
    }
}

/// The note for what follows the last element.
pub open spec fn trailing_notes(enc: Encoding, trailing: nat) -> Seq<Seq<char>> {
    if trailing == 0 {
        seq![]
    } else if enc == Encoding::Ascii {
        seq![dec(trailing) + " values after the last element were ignored"@]
    } else {
        seq![dec(trailing) + " bytes after the last element were ignored"@]
    }
}

/// The polygons, groups and notes of a PLY model. With `layer_id`, each layer holding faces is
/// a group, in id order, named by its `layer_name` or `Layer <id>` (with a note); a negative id
/// is invalid; layer names whose layer holds no face are noted. Without it, the model is one
/// group, `model`, and layer names are noted as ignored. A face with fewer than 3 vertices, or
/// one past the `n` vertices, is invalid.
pub open spec fn spec_assemble(
    faces: Seq<(Seq<u32>, i64)>,
    layered: bool,
    names: Seq<Seq<char>>,
    n: int,
    enc: Encoding,
    trailing: nat,
) -> Result<(Seq<(Seq<u32>, u32)>, Seq<Seq<char>>, Seq<Seq<char>>), Fault> {
    let ids = layer_ids(faces);
    if layered && ids.len() > 0 && ids[0] < 0 {
        Err(Fault::Invalid)
    } else if exists|k: int| 0 <= k < faces.len() && !face_ok(#[trigger] faces[k].0, n) {
        Err(Fault::Invalid)
    } else if layered {
        Ok(
            (
                faces.map_values(|f: (Seq<u32>, i64)| (f.0, ids.index_of(f.1) as u32)),
                ids.map_values(|id: i64| group_name(names, id)),
                trailing_notes(enc, trailing) + unnamed_notes(names, ids, ids.len() as int) + empty_layer_notes(
                    names,
                    ids,
                    names.len() as int,
                ),
            ),
        )
    } else {
        Ok(
            (
                faces.map_values(|f: (Seq<u32>, i64)| (f.0, 0u32)),
                seq!["model"@],
                trailing_notes(enc, trailing) + (if names.len() > 0 {
                    seq![dec(names.len()) + " layer names were ignored: faces have no layer_id"@]
                } else {
                    seq![]
                }),
            ),
        )
    }
}

/// Two strictly ascending lists of the same ids are the same list.
pub proof fn lemma_ids_unique(a: Seq<i64>, b: Seq<i64>)
    requires
        ascending_ids(a),
        ascending_ids(b),
        forall|x: i64| a.contains(x) <==> b.contains(x),
    ensures
        a == b,
    decreases a.len(),
{
    if a.len() == 0 {
        if b.len() > 0 {
            assert(b.contains(b[0]));
        }
        assert(a =~= b);
    } else {
        assert(a.contains(a[0]));
        assert(b.contains(a[0]));
        assert(b.contains(b[0]));
        assert(a.contains(b[0]));
        let i = choose|i: int| 0 <= i < a.len() && a[i] == b[0];
        let j = choose|j: int| 0 <= j < b.len() && b[j] == a[0];
        assert(a[0] == b[0]) by {
            if i > 0 {
                assert(a[0] < a[i]);
            }
            if j > 0 {
                assert(b[0] < b[j]);
            }
        }
        let a1 = a.drop_first();
        let b1 = b.drop_first();
        assert forall|x: i64| a1.contains(x) <==> b1.contains(x) by {
            if a1.contains(x) {
                let k = choose|k: int| 0 <= k < a1.len() && a1[k] == x;
                assert(a[k + 1] == x);
                assert(a[0] < a[k + 1]);
                assert(b.contains(x));
                let m = choose|m: int| 0 <= m < b.len() && b[m] == x;
                assert(m != 0);
                assert(b1[m - 1] == x);
            }
            if b1.contains(x) {
                let k = choose|k: int| 0 <= k < b1.len() && b1[k] == x;
                assert(b[k + 1] == x);
                assert(b[0] < b[k + 1]);
                assert(a.contains(x));
                let m = choose|m: int| 0 <= m < a.len() && a[m] == x;
                assert(m != 0);
                assert(a1[m - 1] == x);
            }
        }
        lemma_ids_unique(a1, b1);
        assert(a =~= seq![a[0]] + a1);
        assert(b =~= seq![b[0]] + b1);
    }
}

/// Adds `m` to the ascending list `v`, unless it is there.
fn insert_id(v: &mut Vec<i64>, m: i64)
    requires
        ascending_ids(old(v)@),
    ensures
        ascending_ids(final(v)@),
        forall|x: i64| #[trigger] final(v)@.contains(x) <==> (old(v)@.contains(x) || x == m),
{
    let mut i: usize = 0;
    while i < v.len() && v[i] < m
        invariant
            i <= v@.len(),
            forall|k: int| 0 <= k < i ==> v@[k] < m,
        decreases v@.len() - i,
    {
        i = i + 1;
    }
    if i < v.len() && v[i] == m {
        return;
    }
    let ghost before = v@;
    assert(before == old(v)@);
    v.insert(i, m);
    assert forall|x: i64| #[trigger] v@.contains(x) <==> (before.contains(x) || x == m) by {
        if v@.contains(x) {
            let k = choose|k: int| 0 <= k < v@.len() && v@[k] == x;
            if k < i {
                assert(before[k] == x);
            } else if k > i {
                assert(before[k - 1] == x);
            }
        }
        if before.contains(x) {
            let k = choose|k: int| 0 <= k < before.len() && before[k] == x;
            if k < i {
                assert(v@[k] == x);
            } else {
                assert(v@[k + 1] == x);
            }
        }
        if x == m {
            assert(v@[i as int] == m);
        }
    }
}

/// The faces as values.
pub open spec fn faces_view(f: Seq<(Vec<u32>, i64)>) -> Seq<(Seq<u32>, i64)> {
    f.map_values(|x: (Vec<u32>, i64)| (x.0@, x.1))
}

/// The texts of `s`.
pub open spec fn strings_view(s: Seq<String>) -> Seq<Seq<char>> {
    s.map_values(|x: String| x@)
}

/// [`layer_ids`].
fn layer_ids_of(faces: &Vec<(Vec<u32>, i64)>) -> (r: Vec<i64>)
    ensures
        r@ == layer_ids(faces_view(faces@)),
        is_layer_ids(r@, faces_view(faces@)),
{
    let ghost fv = faces_view(faces@);
    let mut ids: Vec<i64> = Vec::new();
    let mut k: usize = 0;
    while k < faces.len()
        invariant
            k <= faces@.len() == fv.len(),
            fv == faces_view(faces@),
            ascending_ids(ids@),
            forall|x: i64| ids@.contains(x) <==> exists|j: int| 0 <= j < k && #[trigger] fv[j].1 == x,
        decreases faces@.len() - k,
    {
        assert(fv[k as int].1 == faces@[k as int].1);
        insert_id(&mut ids, faces[k].1);
        assert forall|x: i64| ids@.contains(x) <==> exists|j: int| 0 <= j < k + 1 && #[trigger] fv[j].1 == x by {
            if exists|j: int| 0 <= j < k + 1 && #[trigger] fv[j].1 == x {
                let j = choose|j: int| 0 <= j < k + 1 && #[trigger] fv[j].1 == x;
                if j < k {
                    assert(exists|j2: int| 0 <= j2 < k && #[trigger] fv[j2].1 == x);
                }
            }
        }
        k = k + 1;
    }
    proof {
        let c = layer_ids(fv);
        assert(is_layer_ids(ids@, fv));
        assert(is_layer_ids(c, fv));
        lemma_ids_unique(c, ids@);
    }
    ids
}

/// Whether face `idx` is usable with `n` vertices ([`face_ok`]).
fn check_face(idx: &Vec<u32>, n: usize) -> (r: bool)
    ensures
        r == face_ok(idx@, n as int),
{
    if idx.len() < 3 {
        return false;
    }
    let mut j: usize = 0;
    while j < idx.len()
        invariant
            j <= idx@.len(),
            forall|m: int| 0 <= m < j ==> idx@[m] < n,
        decreases idx@.len() - j,
    {
        if idx[j] as usize >= n {
            return false;
        }
        j = j + 1;
    }
    true
}

/// The first vertex of face `idx` past the `n` vertices, where it has one.
fn first_past(idx: &Vec<u32>, n: usize) -> (r: u32)
    requires
        exists|j: int| 0 <= j < idx@.len() && idx@[j] >= n,
    ensures
        exists|j: int| 0 <= j < idx@.len() && idx@[j] == r && r >= n && forall|m: int| 0 <= m < j ==> idx@[m] < n,
{
    let mut j: usize = 0;
    while j < idx.len()
        invariant
            j <= idx@.len(),
            forall|m: int| 0 <= m < j ==> idx@[m] < n,
            exists|k: int| 0 <= k < idx@.len() && idx@[k] >= n,
        decreases idx@.len() - j,
    {
        if idx[j] as usize >= n {
            return idx[j];
        }
        j = j + 1;
    }
    proof {
        let k = choose|k: int| 0 <= k < idx@.len() && idx@[k] >= n;
        assert(idx@[k] < n);
    }
    0
}

/// The polygons as values.
pub open spec fn polys_view(p: Seq<(Vec<u32>, u32)>) -> Seq<(Seq<u32>, u32)> {
    p.map_values(|x: (Vec<u32>, u32)| (x.0@, x.1))
}

/// A copy of `v`.
fn copy_u32s(v: &Vec<u32>) -> (r: Vec<u32>)
    ensures
        r@ == v@,
{
    let mut out: Vec<u32> = Vec::new();
    let mut i: usize = 0;
    while i < v.len()
        invariant
            i <= v@.len(),
            out@ == v@.subrange(0, i as int),
        decreases v@.len() - i,
    {
        out.push(v[i]);
        assert(v@.subrange(0, i + 1) =~= v@.subrange(0, i as int).push(v@[i as int]));
        i = i + 1;
    }
    assert(v@.subrange(0, v@.len() as int) =~= v@);
    out
}

/// [`trailing_notes`].
fn trailing_note(enc: Encoding, trailing: usize) -> (r: Vec<String>)
    ensures
        strings_view(r@) == trailing_notes(enc, trailing as nat),
{
    let mut out: Vec<String> = Vec::new();
    if trailing > 0 {
        let m = if enc == Encoding::Ascii {
            message_u64("", trailing as u64, " values after the last element were ignored")
        } else {
            message_u64("", trailing as u64, " bytes after the last element were ignored")
        };
        proof {
            reveal_strlit("");
        }
        out.push(m);
    }
    assert(strings_view(out@) =~= trailing_notes(enc, trailing as nat));
    out
}

/// The polygons, groups and notes of a PLY model ([`spec_assemble`]): `faces` and `layered` as
/// [`read_ply_rows`] read them, `names` the layer names as text, `n` the vertex count.
pub fn assemble(
    faces: &Vec<(Vec<u32>, i64)>,
    layered: bool,
    names: &Vec<String>,
    n: usize,
    enc: Encoding,
    trailing: usize,
) -> (r: Result<(Vec<(Vec<u32>, u32)>, Vec<String>, Vec<String>), ImportError>)
    ensures
        match (r, spec_assemble(faces_view(faces@), layered, strings_view(names@), n as int, enc, trailing as nat)) {
            (Ok((p, g, notes)), Ok((p2, g2, notes2))) => polys_view(p@) == p2 && strings_view(g@) == g2
                && strings_view(notes@) == notes2,
            (Err(e), Err(f)) => is_fault(e, f),
            _ => false,
        },
        is_layer_ids(layer_ids(faces_view(faces@)), faces_view(faces@)),
{
    let ghost fv = faces_view(faces@);
    let ghost nv = strings_view(names@);
    let ids = layer_ids_of(faces);
    if layered && ids.len() > 0 && ids[0] < 0 {
        return Err(ImportError::invalid(FMT, message_i64("layer_id ", ids[0], " is negative")));
    }
    let mut notes = trailing_note(enc, trailing);
    let mut groups: Vec<String> = Vec::new();
    if layered {
        let mut k: usize = 0;
        while k < ids.len()
            invariant
                k <= ids@.len(),
                nv == strings_view(names@),
                strings_view(groups@) == ids@.subrange(0, k as int).map_values(|id: i64| group_name(nv, id)),
                strings_view(notes@) == trailing_notes(enc, trailing as nat) + unnamed_notes(nv, ids@, k as int),
            decreases ids@.len() - k,
        {
            let id = ids[k];
            let ghost gb = strings_view(groups@);
            let ghost nb = strings_view(notes@);
            if 0 <= id && (id as u64) < names.len() as u64 {
                let g = names[id as usize].clone();
                assert(nv[id as int] == names@[id as int]@);
                groups.push(g);
            } else {
                proof {
                    reveal_strlit("");
                }
                groups.push(message_i64("Layer ", id, ""));
                let s1 = message_i64("layer_id ", id, " has no layer_name; its group is named `Layer ");
                let s2 = message_i64(s1.as_str(), id, "`");
                notes.push(s2);
                assert(strings_view(notes@) =~= nb.push(unnamed_note(id)));
            }
            assert(strings_view(groups@) =~= gb.push(group_name(nv, id)));
            assert(ids@.subrange(0, k + 1).map_values(|id: i64| group_name(nv, id)) =~= ids@.subrange(0, k as int).map_values(
                |id: i64| group_name(nv, id),
            ).push(group_name(nv, id)));
            k = k + 1;
        }
        assert(ids@.subrange(0, ids@.len() as int) =~= ids@);
        let ghost after_unnamed = strings_view(notes@);
        let mut i: usize = 0;
        while i < names.len()
            invariant
                i <= names@.len(),
                nv == strings_view(names@),
                strings_view(notes@) == after_unnamed + empty_layer_notes(nv, ids@, i as int),
            decreases names@.len() - i,
        {
            let mut found = false;
            let mut j: usize = 0;
            while j < ids.len()
                invariant
                    j <= ids@.len(),
                    found == exists|m: int| 0 <= m < j && ids@[m] == i as i64,
                decreases ids@.len() - j,
            {
                if ids[j] == i as i64 {
                    found = true;
                }
                j = j + 1;
            }
            assert(found == ids@.contains(i as i64));
            if !found {
                let ghost nb = strings_view(notes@);
                let s1 = message_u64("layer ", i as u64, " `");
                let s2 = message_str(s1.as_str(), names[i].as_str(), "` holds no face");
                notes.push(s2);
                assert(nv[i as int] == names@[i as int]@);
                assert(strings_view(notes@) =~= nb.push(
                    "layer "@ + dec(i as nat) + " `"@ + nv[i as int] + "` holds no face"@,
                ));
            }
            i = i + 1;
        }
    } else {
        proof {
            reveal_strlit("");
        }
        groups.push("model".to_owned());
        if names.len() > 0 {
            let ghost nb = strings_view(notes@);
            notes.push(message_u64("", names.len() as u64, " layer names were ignored: faces have no layer_id"));
            assert(strings_view(notes@) =~= nb + seq![dec(nv.len()) + " layer names were ignored: faces have no layer_id"@]);
        } else {
            assert(strings_view(notes@) =~= strings_view(notes@) + seq![]);
        }
        assert(strings_view(groups@) =~= seq!["model"@]);
    }
    let mut polys: Vec<(Vec<u32>, u32)> = Vec::new();
    let mut fi: usize = 0;
    while fi < faces.len()
        invariant
            fi <= faces@.len() == fv.len(),
            fv == faces_view(faces@),
            ascending_ids(ids@),
            ids@ == layer_ids(fv),
            is_layer_ids(ids@, fv),
            forall|k: int| 0 <= k < fi ==> face_ok(#[trigger] fv[k].0, n as int),
            polys_view(polys@) == fv.subrange(0, fi as int).map_values(|f: (Seq<u32>, i64)| (
                f.0,
                if layered {
                    ids@.index_of(f.1) as u32
                } else {
                    0u32
                },
            )),
        decreases faces@.len() - fi,
    {
        let idx = &faces[fi].0;
        assert(fv[fi as int].0 == idx@);
        if !check_face(idx, n) {
            if idx.len() < 3 {
                return Err(
                    ImportError::invalid(
                        FMT,
                        message_u64(
                            message_u64("face ", fi as u64, " has ").as_str(),
                            idx.len() as u64,
                            " vertices; a face needs 3 or more",
                        ),
                    ),
                );
            }
            let bad = first_past(idx, n);
            let m1 = message_u64("face ", fi as u64, " uses vertex ");
            let m2 = message_u64(m1.as_str(), bad as u64, ", but there are ");
            return Err(ImportError::invalid(FMT, message_u64(m2.as_str(), n as u64, " vertices")));
        }
        let layer = faces[fi].1;
        assert(fv[fi as int].1 == layer);
        let g: u32 = if layered {
            let mut j: usize = 0;
            proof {
                assert(exists|k: int| 0 <= k < fv.len() && #[trigger] fv[k].1 == layer);
                assert(ids@.contains(layer));
            }
            while j < ids.len() && ids[j] != layer
                invariant
                    j <= ids@.len(),
                    ids@.contains(layer),
                    forall|m: int| 0 <= m < j ==> ids@[m] != layer,
                decreases ids@.len() - j,
            {
                j = j + 1;
            }
            proof {
                if j == ids@.len() {
                    let m = choose|m: int| 0 <= m < ids@.len() && ids@[m] == layer;
                    assert(false);
                }
                let c = ids@.index_of(layer);
                assert(0 <= c < ids@.len() && ids@[c] == layer);
                if c != j {
                    if c < j {
                        assert(ids@[c] < ids@[j as int]);
                    } else {
                        assert(ids@[j as int] < ids@[c]);
                    }
                }
            }
            assert(j == ids@.index_of(layer));
            j as u32
        } else {
            0
        };
        assert(g == (if layered {
            ids@.index_of(layer) as u32
        } else {
            0u32
        }));
        let ghost pb = polys_view(polys@);
        polys.push((copy_u32s(idx), g));
        proof {
            assert(polys_view(polys@) =~= pb.push((fv[fi as int].0, g)));
            assert(fv.subrange(0, fi + 1) =~= fv.subrange(0, fi as int).push(fv[fi as int]));
        }
        fi = fi + 1;
    }
    assert(fv.subrange(0, fv.len() as int) =~= fv);
    Ok((polys, groups, notes))
}


/// A layer's name from the bytes of its `layer_name` list, invalid UTF-8 replaced
/// ([`lossy_text`]).
pub fn layer_name(bytes: &[u8]) -> (r: String)
    ensures
        r@ == lossy_text(bytes@),
        vstd::utf8::valid_utf8(bytes@) ==> r@ == vstd::utf8::decode_utf8(bytes@),
{
    string_from_utf8_lossy(bytes)
}

} // verus!
