//! STL, ASCII and binary.
//!
//! Binary: an 80-byte header, a `u32` triangle count, then 50-byte records (a normal, three
//! vertices, an attribute count), little-endian; the three vertices of each record are read in
//! order, normals and attribute bytes ignored. One group, `model`.
//!
//! ASCII is read by its structure (`solid`, `facet normal`, `outer loop`, three `vertex` lines,
//! `endloop`, `endfacet`, `endsolid`), line by line, blank lines skipped; each `solid` becomes a
//! group named after it (`solid <n>` when it has no name).
//!
//! Which one: a file whose length is exactly `84 + 50 n`, `n` the count at byte 80, is binary,
//! unless it starts with `solid` and also reads as ASCII; otherwise a file that starts with
//! `solid` is ASCII. Anything else is refused.
//!
//! STL has no shared vertices: every facet carries its own three. Binary coordinates are kept as
//! the bits of their `f32`, ASCII ones as their text.
use crate::chars::{string_of, trim, trim_of};
use crate::import::{ImportError, is_invalid, is_syntax, is_truncated, is_unsupported};
use crate::proj::{le_u32, read_u32};
use crate::scene::triple;
use crate::text::{dec, is_utf8, message_u64, string_from_utf8_lossy};
use crate::words::{
    first_word, float_word, is_float_word, lines, lines_of, same_chars, starts_with_words, words,
    words_of, words_start,
};
use vstd::prelude::*;

verus! {

/// The format's name in errors.
pub const FMT: &'static str = "stl";

/// What kind of refusal a malformed file gets.
#[derive(Clone, Copy, Debug, PartialEq, Eq, Structural)]
pub enum StlFault {
    Syntax,
    Truncated,
    Invalid,
    Unsupported,
}

/// `e` is an error of the kind `f`, of STL.
pub open spec fn is_stl_fault(e: ImportError, f: StlFault) -> bool {
    match f {
        StlFault::Syntax => is_syntax(e, FMT),
        StlFault::Truncated => is_truncated(e, FMT),
        StlFault::Invalid => is_invalid(e, FMT),
        StlFault::Unsupported => is_unsupported(e, FMT),
    }
}

/// The rows of an STL file: per vertex its coordinates (the bits of a binary file's `f32`s, or
/// an ASCII file's text), the triangles over them with their group, the groups, and a note on the
/// kind of file.
#[derive(Debug)]
pub struct StlRows {
    pub binary: bool,
    pub bits: Vec<[u32; 3]>,
    pub texts: Vec<(String, String, String)>,
    pub polygons: Vec<(Vec<u32>, u32)>,
    pub groups: Vec<String>,
    pub notes: Vec<String>,
}

// ---------------------------------------------------------------------------------------------
// Which one
// ---------------------------------------------------------------------------------------------
/// ASCII white space as `u8::is_ascii_whitespace` takes it: space, tab, line feed, form feed,
/// carriage return.
pub open spec fn ascii_ws(b: u8) -> bool {
    b == 32 || b == 9 || b == 10 || b == 12 || b == 13
}

/// The first position from `i` on that holds no ASCII white space.
pub open spec fn skip_ws(b: Seq<u8>, i: int) -> int
    decreases b.len() - i,
{
    if 0 <= i < b.len() && ascii_ws(b[i]) {
        skip_ws(b, i + 1)
    } else {
        i
    }
}

/// After any ASCII white space, the file starts with `solid` (115, 111, 108, 105, 100).
pub open spec fn spec_starts_solid(b: Seq<u8>) -> bool {
    let i = skip_ws(b, 0);
    i + 5 <= b.len() && b.subrange(i, i + 5) == seq![115u8, 111, 108, 105, 100]
}

/// The file's length is `84 + 50 n`, `n` the count at byte 80.
pub open spec fn spec_binary_size(b: Seq<u8>) -> bool {
    b.len() >= 84 && 84 + 50 * le_u32(b, 80) == b.len()
}

/// [`spec_starts_solid`].
pub fn starts_solid(b: &[u8]) -> (r: bool)
    ensures
        r == spec_starts_solid(b@),
{
    let l = b.len();
    let mut i: usize = 0;
    while i < l && (b[i] == 32 || b[i] == 9 || b[i] == 10 || b[i] == 12 || b[i] == 13)
        invariant
            l == b@.len(),
            i <= l,
            skip_ws(b@, 0) == skip_ws(b@, i as int),
        decreases l - i,
    {
        i = i + 1;
    }
    if l - i < 5 {
        return false;
    }
    let r = b[i] == 115 && b[i + 1] == 111 && b[i + 2] == 108 && b[i + 3] == 105 && b[i + 4] == 100;
    proof {
        if r {
            assert(b@.subrange(i as int, i + 5) =~= seq![115u8, 111, 108, 105, 100]);
        } else {
            if b@.subrange(i as int, i + 5) == seq![115u8, 111, 108, 105, 100] {
                assert(b@.subrange(i as int, i + 5)[0] == b@[i as int]);
                assert(b@.subrange(i as int, i + 5)[1] == b@[i + 1]);
                assert(b@.subrange(i as int, i + 5)[2] == b@[i + 2]);
                assert(b@.subrange(i as int, i + 5)[3] == b@[i + 3]);
                assert(b@.subrange(i as int, i + 5)[4] == b@[i + 4]);
            }
        }
    }
    r
}

/// [`spec_binary_size`].
pub fn binary_size(b: &[u8]) -> (r: bool)
    ensures
        r == spec_binary_size(b@),
{
    if b.len() < 84 {
        return false;
    }
    let n = read_u32(b, 80) as u64;
    84 + 50 * n == b.len() as u64
}

/// The refusal of a file that is neither: too short for a binary header, or of another length
/// than its count calls for.
pub fn neither(b: &[u8]) -> (r: ImportError)
    requires
        !spec_binary_size(b@),
        !spec_starts_solid(b@),
    ensures
        b@.len() >= 84 ==> is_invalid(r, FMT),
        b@.len() < 84 ==> is_truncated(r, FMT),
{
    if b.len() >= 84 {
        let n = read_u32(b, 80) as u64;
        let m1 = message_u64("not ASCII (no leading `solid`), and not binary: ", n, " triangles need ");
        let m2 = message_u64(m1.as_str(), 84 + 50 * n, " bytes, the file has ");
        ImportError::invalid(FMT, message_u64(m2.as_str(), b.len() as u64, ""))
    } else {
        ImportError::truncated(FMT, "the 84-byte binary header".to_owned())
    }
}

// ---------------------------------------------------------------------------------------------
// Binary
// ---------------------------------------------------------------------------------------------
/// The triangles `[3t, 3t + 1, 3t + 2]` of `groups.len()` facets, facet `t` in group `groups[t]`.
pub open spec fn facet_polygons(groups: Seq<u32>) -> Seq<(Seq<u32>, u32)> {
    Seq::new(groups.len(), |t: int| (seq![(3 * t) as u32, (3 * t + 1) as u32, (3 * t + 2) as u32], groups[t]))
}

/// The polygons as values.
pub open spec fn polys_view(p: Seq<(Vec<u32>, u32)>) -> Seq<(Seq<u32>, u32)> {
    p.map_values(|x: (Vec<u32>, u32)| (x.0@, x.1))
}

/// The texts as values.
pub open spec fn texts_view(s: Seq<String>) -> Seq<Seq<char>> {
    s.map_values(|x: String| x@)
}

/// A binary file's vertices: vertex `i` is vertex `i % 3` of record `i / 3`.
pub open spec fn binary_vertices(b: Seq<u8>, n: int) -> Seq<[u32; 3]> {
    Seq::new((3 * n) as nat, |i: int| triple(b, 84 + 50 * (i / 3) + 12 + 12 * (i % 3)))
}

/// A binary file of `n` triangles has a vertex index past `u32::MAX`.
pub open spec fn too_many_binary(n: int) -> bool {
    n > 0 && 3 * (n - 1) + 2 > u32::MAX
}

/// Reads a binary STL file: its vertices, one triangle per record, one group `model` and a note.
pub fn binary(b: &[u8]) -> (r: Result<StlRows, ImportError>)
    requires
        spec_binary_size(b@),
    ensures
        ({
            let n = le_u32(b@, 80);
            match r {
                Ok(rows) => {
                    &&& !too_many_binary(n)
                    &&& rows.binary
                    &&& rows.bits@ == binary_vertices(b@, n)
                    &&& rows.texts@.len() == 0
                    &&& polys_view(rows.polygons@) == facet_polygons(Seq::new(n as nat, |t: int| 0u32))
                    &&& texts_view(rows.groups@) == seq!["model"@]
                    &&& texts_view(rows.notes@) == seq!["binary STL"@]
                },
                Err(e) => too_many_binary(n) && is_unsupported(e, FMT),
            }
        }),
{
    let l = b.len();
    let n = read_u32(b, 80) as usize;
    let mut bits: Vec<[u32; 3]> = Vec::new();
    let mut polygons: Vec<(Vec<u32>, u32)> = Vec::new();
    let mut t: usize = 0;
    while t < n
        invariant
            l == b@.len(),
            n == le_u32(b@, 80),
            84 + 50 * n == l,
            t <= n,
            t == 0 || 3 * (t - 1) + 2 <= u32::MAX,
            bits@ =~= binary_vertices(b@, t as int),
            polys_view(polygons@) =~= facet_polygons(Seq::new(t as nat, |q: int| 0u32)),
        decreases n - t,
    {
        if (t as u64) * 3 + 2 > 4294967295 {
            return Err(ImportError::unsupported(FMT, "more than 4,294,967,295 vertices".to_owned()));
        }
        let base = (t * 3) as u32;
        let rec = 84 + 50 * t;
        let ghost before = bits@;
        let mut v: usize = 0;
        while v < 3
            invariant
                l == b@.len(),
                rec == 84 + 50 * t,
                t < n,
                84 + 50 * n == l,
                v <= 3,
                bits@.len() == 3 * t + v,
                forall|i: int| 0 <= i < 3 * t ==> bits@[i] == before[i],
                before.len() == 3 * t,
                forall|i: int| 3 * t <= i < 3 * t + v ==> bits@[i] == triple(b@, rec + 12 + 12 * (i - 3 * t)),
            decreases 3 - v,
        {
            bits.push([read_u32(b, rec + 12 + 12 * v), read_u32(b, rec + 16 + 12 * v), read_u32(b, rec + 20 + 12 * v)]);
            v = v + 1;
        }
        proof {
            assert forall|i: int| 0 <= i < 3 * (t + 1) implies bits@[i] == triple(
                b@,
                84 + 50 * (i / 3) + 12 + 12 * (i % 3),
            ) by {
                if i >= 3 * t {
                    assert(i / 3 == t && i % 3 == i - 3 * t);
                } else {
                    assert(bits@[i] == before[i]);
                    assert(before[i] == binary_vertices(b@, t as int)[i]);
                }
            }
        }
        let ghost pb = polys_view(polygons@);
        polygons.push((vec![base, base + 1, base + 2], 0));
        proof {
            let s = polys_view(polygons@);
            assert(s =~= pb.push((seq![base, (base + 1) as u32, (base + 2) as u32], 0u32)));
        }
        t = t + 1;
    }
    let groups = vec!["model".to_owned()];
    let notes = vec!["binary STL".to_owned()];
    assert(texts_view(groups@) =~= seq!["model"@]);
    assert(texts_view(notes@) =~= seq!["binary STL"@]);
    Ok(StlRows { binary: true, bits, texts: Vec::new(), polygons, groups, notes })
}

// ---------------------------------------------------------------------------------------------
// ASCII
// ---------------------------------------------------------------------------------------------
/// The lines of `ls` from `k` on that hold more than white space, trimmed, with their numbers
/// (from 1).
pub open spec fn nonblank(ls: Seq<Seq<char>>, k: int) -> Seq<(int, Seq<char>)>
    decreases ls.len() - k,
{
    if k < 0 || k >= ls.len() {
        seq![]
    } else if trim(ls[k]).len() == 0 {
        nonblank(ls, k + 1)
    } else {
        seq![(k + 1, trim(ls[k]))] + nonblank(ls, k + 1)
    }
}

/// What the facets read so far gave: per vertex its coordinates' text, per facet its group, the
/// groups.
#[verifier::ext_equal]
pub ghost struct AsciiState {
    pub verts: Seq<(Seq<char>, Seq<char>, Seq<char>)>,
    pub facets: Seq<u32>,
    pub groups: Seq<Seq<char>>,
}

/// The words a line must start with.
pub open spec fn solid_words() -> Seq<Seq<char>> {
    seq!["solid"@]
}

pub open spec fn facet_words() -> Seq<Seq<char>> {
    seq!["facet"@, "normal"@]
}

pub open spec fn loop_words() -> Seq<Seq<char>> {
    seq!["outer"@, "loop"@]
}

pub open spec fn endloop_words() -> Seq<Seq<char>> {
    seq!["endloop"@]
}

pub open spec fn endfacet_words() -> Seq<Seq<char>> {
    seq!["endfacet"@]
}

/// Line `i` is missing, or does not start with `what`.
pub open spec fn line_fault(t: Seq<(int, Seq<char>)>, i: int, what: Seq<Seq<char>>) -> Option<StlFault> {
    if i >= t.len() {
        Some(StlFault::Truncated)
    } else if !starts_with_words(t[i].1, what) {
        Some(StlFault::Syntax)
    } else {
        None
    }
}

/// `vertex` and three numbers.
pub open spec fn vertex_ok(l: Seq<char>) -> bool {
    let w = words(l);
    w.len() >= 4 && w[0] == "vertex"@ && float_word(w[1]) && float_word(w[2]) && float_word(w[3])
}

/// Line `i` is missing, or is not a vertex.
pub open spec fn vertex_fault(t: Seq<(int, Seq<char>)>, i: int) -> Option<StlFault> {
    if i >= t.len() {
        Some(StlFault::Truncated)
    } else if !vertex_ok(t[i].1) {
        Some(StlFault::Syntax)
    } else {
        None
    }
}

/// The first of two faults.
pub open spec fn first_of(a: Option<StlFault>, b: Option<StlFault>) -> Option<StlFault> {
    if a is Some {
        a
    } else {
        b
    }
}

/// What is wrong with the facet at line `k`, `nv` vertices read before it: its seven lines in
/// order, and room for its vertices' indices.
pub open spec fn facet_fault(t: Seq<(int, Seq<char>)>, k: int, nv: int) -> Option<StlFault> {
    first_of(
        line_fault(t, k, facet_words()),
        first_of(
            line_fault(t, k + 1, loop_words()),
            first_of(
                if nv + 2 > u32::MAX {
                    Some(StlFault::Unsupported)
                } else {
                    None
                },
                first_of(
                    vertex_fault(t, k + 2),
                    first_of(
                        vertex_fault(t, k + 3),
                        first_of(
                            vertex_fault(t, k + 4),
                            first_of(line_fault(t, k + 5, endloop_words()), line_fault(t, k + 6, endfacet_words())),
                        ),
                    ),
                ),
            ),
        ),
    )
}

/// A vertex line's three coordinates.
pub open spec fn coords(l: Seq<char>) -> (Seq<char>, Seq<char>, Seq<char>) {
    let w = words(l);
    (w[1], w[2], w[3])
}

/// A `solid` line's name: what follows `solid`, trimmed.
pub open spec fn solid_name(l: Seq<char>) -> Seq<char> {
    if l.len() >= 5 {
        trim(l.subrange(5, l.len() as int))
    } else {
        seq![]
    }
}

/// The group a `solid` line names, `g` groups before it.
pub open spec fn group_of(l: Seq<char>, g: nat) -> Seq<char> {
    if solid_name(l).len() == 0 {
        "solid "@ + dec(g + 1)
    } else {
        solid_name(l)
    }
}

/// The solids from line `k` on.
pub open spec fn solids(t: Seq<(int, Seq<char>)>, k: int, st: AsciiState) -> Result<AsciiState, StlFault>
    decreases t.len() - k,
{
    if k < 0 || k >= t.len() {
        Ok(st)
    } else if !starts_with_words(t[k].1, solid_words()) {
        Err(StlFault::Syntax)
    } else {
        facets(
            t,
            k + 1,
            AsciiState { groups: st.groups.push(group_of(t[k].1, st.groups.len())), ..st },
            st.groups.len() as u32,
        )
    }
}

/// The facets of group `g` from line `k` on, to its `endsolid`, then the solids after it.
pub open spec fn facets(t: Seq<(int, Seq<char>)>, k: int, st: AsciiState, g: u32) -> Result<AsciiState, StlFault>
    decreases t.len() - k,
{
    if k < 0 || k >= t.len() {
        Err(StlFault::Truncated)
    } else if first_word(t[k].1) == "endsolid"@ {
        solids(t, k + 1, st)
    } else {
        match facet_fault(t, k, st.verts.len() as int) {
            Some(f) => Err(f),
            None => facets(
                t,
                k + 7,
                AsciiState {
                    verts: st.verts.push(coords(t[k + 2].1)).push(coords(t[k + 3].1)).push(coords(t[k + 4].1)),
                    facets: st.facets.push(g),
                    ..st
                },
                g,
            ),
        }
    }
}

/// An ASCII STL file's content: its text (UTF-8, else a syntax error), its non-blank lines read
/// as solids.
pub open spec fn spec_ascii(b: Seq<u8>) -> Result<AsciiState, StlFault> {
    if !vstd::utf8::valid_utf8(b) {
        Err(StlFault::Syntax)
    } else {
        solids(
            nonblank(lines(vstd::utf8::decode_utf8(b)), 0),
            0,
            AsciiState { verts: seq![], facets: seq![], groups: seq![] },
        )
    }
}

/// The texts of the vertices as values.
pub open spec fn coords_view(v: Seq<(String, String, String)>) -> Seq<(Seq<char>, Seq<char>, Seq<char>)> {
    v.map_values(|x: (String, String, String)| (x.0@, x.1@, x.2@))
}

/// The non-blank lines of `ls`, trimmed, with their numbers ([`nonblank`]).
fn nonblank_of(ls: &Vec<Vec<char>>) -> (r: Vec<(usize, Vec<char>)>)
    ensures
        r@.map_values(|x: (usize, Vec<char>)| (x.0 as int, x.1@)) == nonblank(ls@.map_values(|w: Vec<char>| w@), 0),
{
    let ghost lv = ls@.map_values(|w: Vec<char>| w@);
    let mut out: Vec<(usize, Vec<char>)> = Vec::new();
    let mut k: usize = 0;
    assert(out@.map_values(|x: (usize, Vec<char>)| (x.0 as int, x.1@)) + nonblank(lv, 0) =~= nonblank(lv, 0));
    while k < ls.len()
        invariant
            k <= ls@.len(),
            lv == ls@.map_values(|w: Vec<char>| w@),
            out@.map_values(|x: (usize, Vec<char>)| (x.0 as int, x.1@)) + nonblank(lv, k as int) == nonblank(lv, 0),
            forall|j: int| 0 <= j < out@.len() ==> out@[j].0 <= k,
        decreases ls@.len() - k,
    {
        let t = trim_of(ls[k].as_slice());
        assert(lv[k as int] == ls@[k as int]@);
        let ghost ob = out@.map_values(|x: (usize, Vec<char>)| (x.0 as int, x.1@));
        if t.len() > 0 {
            out.push((k + 1, vstd::slice::slice_to_vec(t)));
            assert(out@.map_values(|x: (usize, Vec<char>)| (x.0 as int, x.1@)) =~= ob.push(((k + 1) as int, t@)));
            assert(ob.push(((k + 1) as int, t@)) + nonblank(lv, k + 1) =~= ob + nonblank(lv, k as int));
        }
        k = k + 1;
    }
    assert(out@.map_values(|x: (usize, Vec<char>)| (x.0 as int, x.1@)) + seq![] =~= out@.map_values(
        |x: (usize, Vec<char>)| (x.0 as int, x.1@),
    ));
    out
}

/// The line numbers and lines as values.
pub open spec fn lines_view(t: Seq<(usize, Vec<char>)>) -> Seq<(int, Seq<char>)> {
    t.map_values(|x: (usize, Vec<char>)| (x.0 as int, x.1@))
}

/// `line <n>`.
fn line_at(n: usize) -> (r: String)
    ensures
        r@ == "line "@ + dec(n as nat),
{
    proof {
        reveal_strlit("");
    }
    let r = message_u64("line ", n as u64, "");
    assert(r@ =~= "line "@ + dec(n as nat));
    r
}

/// Checks that line `i` is there and starts with `what` ([`line_fault`]); `shown` is `what` as
/// the messages give it.
fn check_line(t: &Vec<(usize, Vec<char>)>, k: usize, d: usize, what: &[&str], shown: &str) -> (r: Result<(), ImportError>)
    requires
        k < t@.len(),
    ensures
        match (r, line_fault(lines_view(t@), k + d, what@.map_values(|x: &str| x@))) {
            (Ok(_), None) => true,
            (Err(e), Some(f)) => is_stl_fault(e, f),
            _ => false,
        },
{
    if d >= t.len() - k {
        return Err(ImportError::truncated(FMT, crate::text::message_str("`", shown, "`")));
    }
    let i = k + d;
    let w = words_of(t[i].1.as_slice());
    assert(lines_view(t@)[i as int].1 == t@[i as int].1@);
    if !words_start(&w, what) {
        return Err(
            ImportError::syntax(FMT, line_at(t[i].0), crate::text::message_str("expected `", shown, "`")),
        );
    }
    Ok(())
}

/// Reads the vertex at line `i` ([`vertex_fault`], [`coords`]).
fn check_vertex(t: &Vec<(usize, Vec<char>)>, k: usize, d: usize) -> (r: Result<(String, String, String), ImportError>)
    requires
        k < t@.len(),
    ensures
        match (r, vertex_fault(lines_view(t@), k + d)) {
            (Ok(x), None) => (x.0@, x.1@, x.2@) == coords(lines_view(t@)[k + d].1),
            (Err(e), Some(f)) => is_stl_fault(e, f),
            _ => false,
        },
{
    if d >= t.len() - k {
        return Err(ImportError::truncated(FMT, "`vertex`".to_owned()));
    }
    let i = k + d;
    let n = t[i].0;
    let w = words_of(t[i].1.as_slice());
    let ghost wv = w@.map_values(|x: Vec<char>| x@);
    assert(lines_view(t@)[i as int].1 == t@[i as int].1@);
    if !(w.len() >= 1 && same_chars(w[0].as_slice(), "vertex")) {
        proof {
            if wv.len() >= 1 {
                assert(wv[0] == w@[0]@);
            }
        }
        return Err(ImportError::syntax(FMT, line_at(n), "expected `vertex`".to_owned()));
    }
    assert(wv[0] == w@[0]@);
    let ghost tv = lines_view(t@);
    assert(wv == words(tv[i as int].1));
    let mut c: usize = 1;
    while c <= 3
        invariant
            1 <= c <= 4,
            i < t@.len(),
            i == k + d,
            tv == lines_view(t@),
            wv == words(tv[i as int].1),
            wv.len() >= 1 && wv[0] == "vertex"@,
            wv == w@.map_values(|x: Vec<char>| x@),
            forall|j: int| 1 <= j < c ==> j < wv.len() && float_word(#[trigger] wv[j]),
        decreases 4 - c,
    {
        if c >= w.len() {
            return Err(ImportError::syntax(FMT, line_at(n), "a vertex needs 3 values".to_owned()));
        }
        if !is_float_word(w[c].as_slice()) {
            assert(wv[c as int] == w@[c as int]@);
            let shown = string_of(w[c].as_slice());
            return Err(
                ImportError::syntax(
                    FMT,
                    line_at(n),
                    crate::text::message_str("`", shown.as_str(), "` is not a number"),
                ),
            );
        }
        assert(wv[c as int] == w@[c as int]@);
        c = c + 1;
    }
    assert(wv[0] == w@[0]@);
    assert(float_word(wv[1]) && float_word(wv[2]) && float_word(wv[3]));
    assert(wv[1] == w@[1]@ && wv[2] == w@[2]@ && wv[3] == w@[3]@);
    Ok((string_of(w[1].as_slice()), string_of(w[2].as_slice()), string_of(w[3].as_slice())))
}

/// Reads the facet at line `k`, `nv` vertices read before it ([`facet_fault`]): its three
/// vertices' coordinates.
fn read_facet(t: &Vec<(usize, Vec<char>)>, k: usize, nv: usize) -> (r: Result<
    ((String, String, String), (String, String, String), (String, String, String)),
    ImportError,
>)
    requires
        k < t@.len(),
    ensures
        match (r, facet_fault(lines_view(t@), k as int, nv as int)) {
            (Ok((a, b, c)), None) => {
                &&& (a.0@, a.1@, a.2@) == coords(lines_view(t@)[k + 2].1)
                &&& (b.0@, b.1@, b.2@) == coords(lines_view(t@)[k + 3].1)
                &&& (c.0@, c.1@, c.2@) == coords(lines_view(t@)[k + 4].1)
            },
            (Err(e), Some(f)) => is_stl_fault(e, f),
            _ => false,
        },
{
    assert(["facet", "normal"]@.map_values(|x: &str| x@) =~= facet_words());
    assert(["outer", "loop"]@.map_values(|x: &str| x@) =~= loop_words());
    assert(["endloop"]@.map_values(|x: &str| x@) =~= endloop_words());
    assert(["endfacet"]@.map_values(|x: &str| x@) =~= endfacet_words());
    check_line(t, k, 0, &["facet", "normal"], "facet normal")?;
    check_line(t, k, 1, &["outer", "loop"], "outer loop")?;
    if nv as u64 > 4294967293 {
        return Err(ImportError::unsupported(FMT, "more than 4,294,967,295 vertices".to_owned()));
    }
    let a = check_vertex(t, k, 2)?;
    let b = check_vertex(t, k, 3)?;
    let c = check_vertex(t, k, 4)?;
    check_line(t, k, 5, &["endloop"], "endloop")?;
    check_line(t, k, 6, &["endfacet"], "endfacet")?;
    Ok((a, b, c))
}

/// The state the exec variables hold.
pub open spec fn state_of(texts: Seq<(String, String, String)>, facets: Seq<u32>, groups: Seq<String>) -> AsciiState {
    AsciiState { verts: coords_view(texts), facets, groups: texts_view(groups) }
}

/// The triangles of the facets ([`facet_polygons`]).
fn polygons_of(groups: &Vec<u32>) -> (r: Vec<(Vec<u32>, u32)>)
    requires
        3 * groups@.len() <= u32::MAX + 1,
    ensures
        polys_view(r@) == facet_polygons(groups@),
{
    let mut out: Vec<(Vec<u32>, u32)> = Vec::new();
    let mut t: usize = 0;
    while t < groups.len()
        invariant
            t <= groups@.len(),
            3 * groups@.len() <= u32::MAX + 1,
            polys_view(out@) =~= facet_polygons(groups@.subrange(0, t as int)),
        decreases groups@.len() - t,
    {
        let base = (3 * t) as u32;
        let ghost ob = polys_view(out@);
        out.push((vec![base, base + 1, base + 2], groups[t]));
        assert(polys_view(out@) =~= ob.push((seq![base, (base + 1) as u32, (base + 2) as u32], groups@[t as int])));
        t = t + 1;
    }
    assert(groups@.subrange(0, groups@.len() as int) =~= groups@);
    out
}

/// Reads an ASCII STL file ([`spec_ascii`]): its vertices' text, one triangle per facet, one group
/// per solid, and a note.
#[verifier::rlimit(60)]
pub fn ascii(b: &[u8]) -> (r: Result<StlRows, ImportError>)
    ensures
        match (r, spec_ascii(b@)) {
            (Ok(rows), Ok(st)) => {
                &&& !rows.binary
                &&& rows.bits@.len() == 0
                &&& coords_view(rows.texts@) == st.verts
                &&& polys_view(rows.polygons@) == facet_polygons(st.facets)
                &&& texts_view(rows.groups@) == st.groups
                &&& texts_view(rows.notes@) == seq!["ASCII STL"@]
            },
            (Err(e), Err(f)) => is_stl_fault(e, f),
            _ => false,
        },
{
    if !is_utf8(b) {
        return Err(ImportError::syntax(FMT, "file".to_owned(), "an ASCII STL must be text".to_owned()));
    }
    let text = string_from_utf8_lossy(b);
    let cs = crate::chars::chars_of(text.as_str());
    let ls = lines_of(cs.as_slice());
    let t = nonblank_of(&ls);
    let ghost tv = lines_view(t@);
    assert(tv == nonblank(lines(vstd::utf8::decode_utf8(b@)), 0));
    let ghost init = AsciiState { verts: seq![], facets: seq![], groups: seq![] };
    let ghost result = solids(tv, 0, init);
    let mut texts: Vec<(String, String, String)> = Vec::new();
    let mut fgroups: Vec<u32> = Vec::new();
    let mut groups: Vec<String> = Vec::new();
    let mut cur: Option<u32> = None;
    let mut k: usize = 0;
    assert(state_of(texts@, fgroups@, groups@) =~= init);
    while k < t.len()
        invariant
            tv == lines_view(t@),
            vstd::utf8::valid_utf8(b@),
            tv == nonblank(lines(vstd::utf8::decode_utf8(b@)), 0),
            result == solids(tv, 0, init),
            init == (AsciiState { verts: seq![], facets: seq![], groups: seq![] }),
            texts@.len() == 3 * fgroups@.len(),
            3 * fgroups@.len() <= u32::MAX + 1,
            groups@.len() <= k,
            result == match cur {
                None => solids(tv, k as int, state_of(texts@, fgroups@, groups@)),
                Some(g) => facets(tv, k as int, state_of(texts@, fgroups@, groups@), g),
            },
        decreases t@.len() - k,
    {
        let ghost st = state_of(texts@, fgroups@, groups@);
        match cur {
            None => {
                let w = words_of(t[k].1.as_slice());
                assert(tv[k as int].1 == t@[k as int].1@);
                assert(["solid"]@.map_values(|x: &str| x@) =~= solid_words());
                if !words_start(&w, &["solid"]) {
                    return Err(ImportError::syntax(FMT, line_at(t[k].0), "expected `solid`".to_owned()));
                }
                let l = t[k].1.as_slice();
                let name = if l.len() >= 5 {
                    trim_of(vstd::slice::slice_subrange(l, 5, l.len()))
                } else {
                    vstd::slice::slice_subrange(l, 0, 0)
                };
                assert(name@ == solid_name(tv[k as int].1));
                let g = #[verifier::truncate] (groups.len() as u32);
                let ghost gb = texts_view(groups@);
                if name.len() == 0 {
                    proof {
                        reveal_strlit("");
                    }
                    groups.push(message_u64("solid ", (groups.len() as u64) + 1, ""));
                } else {
                    groups.push(string_of(name));
                }
                assert(texts_view(groups@) =~= gb.push(group_of(tv[k as int].1, gb.len())));
                cur = Some(g);
            },
            Some(g) => {
                let w = words_of(t[k].1.as_slice());
                assert(tv[k as int].1 == t@[k as int].1@);
                let ghost wv = w@.map_values(|x: Vec<char>| x@);
                if w.len() > 0 && same_chars(w[0].as_slice(), "endsolid") {
                    assert(wv[0] == w@[0]@);
                    cur = None;
                } else {
                    proof {
                        if wv.len() > 0 {
                            assert(wv[0] == w@[0]@);
                        }
                        reveal_strlit("endsolid");
                        assert(first_word(tv[k as int].1) != "endsolid"@);
                    }
                    let (a, b2, c) = read_facet(&t, k, texts.len())?;
                    let ghost tb = coords_view(texts@);
                    texts.push(a);
                    texts.push(b2);
                    texts.push(c);
                    fgroups.push(g);
                    assert(coords_view(texts@) =~= tb.push(coords(tv[k + 2].1)).push(coords(tv[k + 3].1)).push(
                        coords(tv[k + 4].1),
                    ));
                    k = k + 6;
                }
            },
        }
        k = k + 1;
    }
    if cur.is_some() {
        return Err(ImportError::truncated(FMT, "`endsolid`".to_owned()));
    }
    let polygons = polygons_of(&fgroups);
    let notes = vec!["ASCII STL".to_owned()];
    assert(texts_view(notes@) =~= seq!["ASCII STL"@]);
    Ok(StlRows { binary: false, bits: Vec::new(), texts, polygons, groups, notes })
}

/// The facets read so far name existing groups, and a facet never names a group before an
/// earlier facet's.
pub open spec fn facets_grouped(st: AsciiState) -> bool {
    &&& forall|k: int| 0 <= k < st.facets.len() ==> #[trigger] st.facets[k] < st.groups.len()
    &&& forall|k: int, j: int| 0 <= k < j < st.facets.len() ==> #[trigger] st.facets[k] <= #[trigger] st.facets[j]
}

proof fn lemma_solids_grow(t: Seq<(int, Seq<char>)>, k: int, st: AsciiState)
    ensures
        solids(t, k, st) matches Ok(s2) ==> s2.groups.len() >= st.groups.len(),
    decreases t.len() - k, 1int,
{
    if !(k < 0 || k >= t.len()) && starts_with_words(t[k].1, solid_words()) {
        let s1 = AsciiState { groups: st.groups.push(group_of(t[k].1, st.groups.len())), ..st };
        lemma_facets_grow(t, k + 1, s1, st.groups.len() as u32);
    }
}

proof fn lemma_facets_grow(t: Seq<(int, Seq<char>)>, k: int, st: AsciiState, g: u32)
    ensures
        facets(t, k, st, g) matches Ok(s2) ==> s2.groups.len() >= st.groups.len(),
    decreases t.len() - k, 0int,
{
    if k < 0 || k >= t.len() {
    } else if first_word(t[k].1) == "endsolid"@ {
        lemma_solids_grow(t, k + 1, st);
    } else if facet_fault(t, k, st.verts.len() as int) is None {
        let s1 = AsciiState {
            verts: st.verts.push(coords(t[k + 2].1)).push(coords(t[k + 3].1)).push(coords(t[k + 4].1)),
            facets: st.facets.push(g),
            ..st
        };
        lemma_facets_grow(t, k + 7, s1, g);
    }
}

proof fn lemma_solids_grouped(t: Seq<(int, Seq<char>)>, k: int, st: AsciiState)
    requires
        facets_grouped(st),
    ensures
        solids(t, k, st) matches Ok(s2) ==> (s2.groups.len() <= u32::MAX ==> facets_grouped(s2)),
    decreases t.len() - k, 1int,
{
    if !(k < 0 || k >= t.len()) && starts_with_words(t[k].1, solid_words()) {
        let g = st.groups.len() as u32;
        let s1 = AsciiState { groups: st.groups.push(group_of(t[k].1, st.groups.len())), ..st };
        if st.groups.len() < u32::MAX {
            assert forall|q: int| 0 <= q < s1.facets.len() implies #[trigger] s1.facets[q] <= g by {}
            lemma_facets_grouped(t, k + 1, s1, g);
        } else {
            lemma_facets_grow(t, k + 1, s1, g);
        }
    }
}

proof fn lemma_facets_grouped(t: Seq<(int, Seq<char>)>, k: int, st: AsciiState, g: u32)
    requires
        facets_grouped(st),
        g + 1 == st.groups.len(),
        forall|q: int| 0 <= q < st.facets.len() ==> #[trigger] st.facets[q] <= g,
    ensures
        facets(t, k, st, g) matches Ok(s2) ==> (s2.groups.len() <= u32::MAX ==> facets_grouped(s2)),
    decreases t.len() - k, 0int,
{
    if k < 0 || k >= t.len() {
    } else if first_word(t[k].1) == "endsolid"@ {
        lemma_solids_grouped(t, k + 1, st);
    } else if facet_fault(t, k, st.verts.len() as int) is None {
        let s1 = AsciiState {
            verts: st.verts.push(coords(t[k + 2].1)).push(coords(t[k + 3].1)).push(coords(t[k + 4].1)),
            facets: st.facets.push(g),
            ..st
        };
        assert(facets_grouped(s1)) by {
            assert forall|a: int, b: int| 0 <= a < b < s1.facets.len() implies #[trigger] s1.facets[a] <= #[trigger] s1.facets[b] by {
                if b == s1.facets.len() - 1 {
                    assert(s1.facets[a] == st.facets[a]);
                } else {
                    assert(s1.facets[a] == st.facets[a] && s1.facets[b] == st.facets[b]);
                }
            }
        }
        lemma_facets_grouped(t, k + 7, s1, g);
    }
}

/// Every facet of an ASCII STL names the group of the solid it lies in: each facet's group is
/// one of the groups read, and facets name groups in file order, so facets of one solid share
/// its group and a later solid's facets never name an earlier group. (Group indices are `u32`,
/// so at most `u32::MAX` groups are named.)
pub proof fn lemma_ascii_facet_groups(b: Seq<u8>)
    requires
        spec_ascii(b) is Ok,
        spec_ascii(b)->Ok_0.groups.len() <= u32::MAX,
    ensures
        forall|k: int|
            0 <= k < spec_ascii(b)->Ok_0.facets.len() ==> #[trigger] spec_ascii(b)->Ok_0.facets[k] < spec_ascii(
                b,
            )->Ok_0.groups.len(),
        forall|k: int, j: int|
            0 <= k < j < spec_ascii(b)->Ok_0.facets.len() ==> #[trigger] spec_ascii(b)->Ok_0.facets[k]
                <= #[trigger] spec_ascii(b)->Ok_0.facets[j],
{
    let t = nonblank(lines(vstd::utf8::decode_utf8(b)), 0);
    lemma_solids_grouped(t, 0, AsciiState { verts: seq![], facets: seq![], groups: seq![] });
}

} // verus!
