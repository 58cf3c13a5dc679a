//! The intersecting facets TetGen reports on its stdout, mapped to `.poly` facet markers.
//!
//! I-Simpa's debug mode (`tetgen -d`) parses two messages:
//! `  Facet (a, b, c) (n) is not a valid polygon.` and
//! ` Facet #i intersects facet #j at triangles:`, both with 1-based facet numbers.
//! Those are TetGen 1.4's. TetGen 1.6.0 prints neither: it prints a
//! `Warning:` line naming the kind of intersection, then one or two lines naming each element by
//! its points (the `.poly` node numbers) and, for a facet triangle, its marker, `tag(n)`. Both
//! forms are read. A segment's tag is TetGen's segment mark, -1 for the edges of facets, so a
//! segment is mapped to the markers of every facet that has it as an edge.
//!
//! TetGen 1.5.0 speaks a third way:
//! - **It stops at the first self-intersection it meets** with exit code 3 and the line
//!   [`SELF_INTERSECTION_STOP`], and writes no `_skipped.face`. Before the stop it usually names
//!   the pair ([`stop_pair`]): `Found two facets intersect each other.` (or `two duplicated
//!   facets`, `two segments`, `a segment and a subface`) followed by `  1st: [..] n` and
//!   `  2nd: [..] n`. A facet there is `[a, b, c]` with its 1-based position in the `.poly`, so it
//!   maps to that facet's marker; a segment is `[a, b]` with its segment mark, so it maps by its
//!   points.
//! - **`-d` detects every intersecting pair and exits 0**: it prints
//!   `  Facet #i intersects facet #j at triangles:` (or `duplicates facet #j at triangle:`), each
//!   pair as often as its search meets it, with the same 1-based facet positions.
//!
//! Every reader here works on the characters of a line; its contract is stated over them with
//! the `str` operations of [`crate::chars`].
use crate::chars::{
    chars_of, contains, ends, ends_with, equals, find, find_c, find_char, has, int_list,
    int_list_of, parse_int, parse_int_of, split_once, split_once_of, starts, starts_with,
    strip_end, strip_end_of, strip_prefix_of, strip_start, strip_start_of, string_of, trim,
    trim_of, trim_start, trim_start_of,
};
use crate::poly::{Face, Model};
use vstd::prelude::*;
use vstd::slice::slice_subrange;

verus! {

/// The line TetGen 1.5.0 prints whenever it stops with exit code 3.
pub const SELF_INTERSECTION_STOP: &'static str = "A self-intersection was detected. Program stopped.";

/// One element of an intersection.
#[derive(Clone, Debug, PartialEq, Eq, Hash)]
pub struct Element {
    /// `facet`, `segment` or `vertex`; `unknown` when TetGen printed no detail (`  ...`).
    pub kind: String,
    /// The `.poly` node numbers TetGen printed (1-based as in the file).
    pub points: Vec<i64>,
    /// The printed `tag(n)`, when there is one.
    pub tag: Option<i64>,
    /// The facet markers the element belongs to.
    pub markers: Vec<u32>,
}

/// Two elements TetGen found intersecting.
#[derive(Clone, Debug, PartialEq, Eq, Hash)]
pub struct Intersection {
    /// The warning, e.g. `A segment and a facet intersect.`
    pub message: String,
    pub first: Element,
    pub second: Option<Element>,
}

/// An [`Element`] as values.
#[verifier::ext_equal]
pub ghost struct ElementV {
    pub kind: Seq<char>,
    pub points: Seq<i64>,
    pub tag: Option<i64>,
    pub markers: Seq<u32>,
}

/// An [`Intersection`] as values.
#[verifier::ext_equal]
pub ghost struct IntersectionV {
    pub message: Seq<char>,
    pub first: ElementV,
    pub second: Option<ElementV>,
}

impl View for Element {
    type V = ElementV;

    open spec fn view(&self) -> ElementV {
        ElementV {
            kind: self.kind@,
            points: self.points@,
            tag: self.tag,
            markers: self.markers@,
        }
    }
}

impl View for Intersection {
    type V = IntersectionV;

    open spec fn view(&self) -> IntersectionV {
        IntersectionV {
            message: self.message@,
            first: self.first@,
            second: match self.second {
                Some(e) => Some(e@),
                None => None,
            },
        }
    }
}

// ---------------------------------------------------------------------------------------------
// Markers
// ---------------------------------------------------------------------------------------------
/// Strictly ascending.
pub open spec fn ascending(s: Seq<u32>) -> bool {
    forall|i: int, j: int| 0 <= i < j < s.len() ==> s[i] < s[j]
}

/// Facet `f` holds node number `p` (1-based).
pub open spec fn has_point(f: Face, p: i64) -> bool {
    exists|v: int| 0 <= v < 3 && f.vertices@[v] + 1 == p
}

/// Facet `f` holds every one of `points`.
pub open spec fn holds_all(f: Face, points: Seq<i64>) -> bool {
    forall|k: int| 0 <= k < points.len() ==> #[trigger] has_point(f, points[k])
}

/// `m` is the marker of a facet of `faces` that holds every one of `points`.
pub open spec fn marks(faces: Seq<Face>, points: Seq<i64>, m: u32) -> bool {
    exists|j: int| 0 <= j < faces.len() && holds_all(faces[j], points) && faces[j].face_index == m
}

/// `r` lists, ascending and each once, the markers of the facets that hold every one of
/// `points`.
pub open spec fn is_markers_of(r: Seq<u32>, faces: Seq<Face>, points: Seq<i64>) -> bool {
    &&& ascending(r)
    &&& forall|m: u32| r.contains(m) <==> marks(faces, points, m)
}

/// The markers of the facets of `faces` that hold every one of `points`, ascending, each once.
pub open spec fn facets_with(faces: Seq<Face>, points: Seq<i64>) -> Seq<u32> {
    choose|r: Seq<u32>| is_markers_of(r, faces, points)
}

/// The marker of the facet at 1-based position `n`, TetGen's `shellmark` of a facet; none when
/// `n` is out of range.
pub open spec fn marker_at(faces: Seq<Face>, n: i64) -> Seq<u32> {
    if 1 <= n <= faces.len() {
        seq![faces[n - 1].face_index]
    } else {
        seq![]
    }
}

// ---------------------------------------------------------------------------------------------
// The pieces of a line
// ---------------------------------------------------------------------------------------------
/// `[a,b,c]` or `[a, b]` after the first `[`.
pub open spec fn bracket_ints(s: Seq<char>) -> Option<Seq<i64>> {
    match find_char(s, '[') {
        None => None,
        Some(open) => match find_char(s.subrange(open, s.len() as int), ']') {
            None => None,
            Some(c) => int_list(s.subrange(open + 1, open + c)),
        },
    }
}

/// The `n` of `tag(n)`.
pub open spec fn tag_of(s: Seq<char>) -> Option<i64> {
    match find(s, "tag("@) {
        None => None,
        Some(i) => {
            let at = i + "tag("@.len();
            match find_char(s.subrange(at, s.len() as int), ')') {
                None => None,
                Some(e) => parse_int(trim(s.subrange(at, at + e))),
            }
        },
    }
}

/// A detail line names a facet triangle.
pub open spec fn names_facet(line: Seq<char>) -> bool {
    contains(trim_start(line), "facet triangle"@)
}

/// One detail line of a 1.6 warning: `  segment: [9,10] tag(-1).`,
/// `  facet triangle: [1,4,6] tag(8)`, `  vertex : [5]`. A facet triangle with a tag of 0 or more
/// maps to that marker (none past `u32::MAX`); anything else to the facets holding its points.
pub open spec fn element(line: Seq<char>, faces: Seq<Face>) -> Option<ElementV> {
    match bracket_ints(line) {
        None => None,
        Some(points) => {
            let head = trim_start(line);
            let kind = if names_facet(line) {
                "facet"@
            } else if starts_with(head, "vertex"@) {
                "vertex"@
            } else {
                "segment"@
            };
            let tag = tag_of(line);
            let markers = if names_facet(line) && tag is Some && tag.unwrap() >= 0 {
                if tag.unwrap() <= u32::MAX {
                    seq![tag.unwrap() as u32]
                } else {
                    seq![]
                }
            } else {
                facets_with(faces, points)
            };
            Some(ElementV { kind, points, tag, markers })
        },
    }
}

/// A facet named by its 1-based position (`n`, trimmed): I-Simpa subtracts 1 (TetGen
/// counts faces from 1); the number maps to the marker of the facet
/// there.
pub open spec fn facet_number(n: Seq<char>, faces: Seq<Face>) -> Option<ElementV> {
    match parse_int(trim(n)) {
        None => None,
        Some(k) => Some(ElementV { kind: "facet"@, points: seq![], tag: Some(k), markers: marker_at(faces, k) }),
    }
}

/// One `Facet #i <verb> facet #j<tail>` form after `Facet #`: `None` when the line is not of
/// this form; `Some(None)` when it is but a number does not read.
pub open spec fn numbered_form(
    line: Seq<char>,
    rest: Seq<char>,
    verb: Seq<char>,
    tail: Seq<char>,
    faces: Seq<Face>,
) -> Option<Option<IntersectionV>> {
    match split_once(rest, verb) {
        None => None,
        Some((i, rest2)) => match split_once(rest2, tail) {
            None => None,
            Some((j, _)) => Some(
                match (facet_number(i, faces), facet_number(j, faces)) {
                    (Some(a), Some(b)) => Some(IntersectionV { message: trim(line), first: a, second: Some(b) }),
                    _ => None,
                },
            ),
        },
    }
}

/// `Facet (a, b, c) (n) is not a valid polygon.`
pub open spec fn polygon_form(line: Seq<char>, faces: Seq<Face>) -> Option<IntersectionV> {
    let head = trim_start(line);
    if starts_with(head, "Facet ("@) {
        let rest = head.subrange("Facet ("@.len() as int, head.len() as int);
        match split_once(rest, ") ("@) {
            None => None,
            Some((_, rest2)) => match split_once(rest2, ") is not a valid polygon."@) {
                None => None,
                Some((n, _)) => match facet_number(n, faces) {
                    Some(a) => Some(IntersectionV { message: trim(line), first: a, second: None }),
                    None => None,
                },
            },
        }
    } else {
        None
    }
}

/// The legacy forms I-Simpa's debug log reads, which TetGen 1.5.0's `-d` also prints
/// (with two leading spaces, and `duplicates facet #j at triangle:` for a repeated triangle).
pub open spec fn legacy(line: Seq<char>, faces: Seq<Face>) -> Option<IntersectionV> {
    let head = trim_start(line);
    let numbered = if starts_with(head, "Facet #"@) {
        let rest = head.subrange("Facet #"@.len() as int, head.len() as int);
        match numbered_form(line, rest, " intersects facet #"@, " at triangles:"@, faces) {
            Some(r) => Some(r),
            None => numbered_form(line, rest, " duplicates facet #"@, " at triangle:"@, faces),
        }
    } else {
        None
    };
    match numbered {
        Some(r) => r,
        None => polygon_form(line, faces),
    }
}

/// One of the two lines after a 1.5.0 `Found ...` report: `  1st: [9, 10] 1.`,
/// `  2nd: [1,4,6] 9`, `  1st: [608, 611, 610] #554`. Three points are a facet, whose number is
/// its 1-based position; two are a segment, mapped by its points.
pub open spec fn stop_element(line: Seq<char>, faces: Seq<Face>) -> Option<ElementV> {
    match bracket_ints(line) {
        None => None,
        Some(points) => match find_char(line, ']') {
            None => None,
            Some(b) => {
                let after = line.subrange(b + 1, line.len() as int);
                let tag = parse_int(trim(strip_end(strip_start(trim(after), '#'), '.')));
                if points.len() == 3 {
                    Some(
                        ElementV {
                            kind: "facet"@,
                            points,
                            tag,
                            markers: match tag {
                                Some(n) => marker_at(faces, n),
                                None => seq![],
                            },
                        },
                    )
                } else if points.len() == 2 {
                    Some(ElementV { kind: "segment"@, points, tag, markers: facets_with(faces, points) })
                } else {
                    None
                }
            },
        },
    }
}

/// The integers of each `(..)` group of `s`, in order; a group that does not read is left out.
pub open spec fn paren_groups(s: Seq<char>) -> Seq<Seq<i64>>
    decreases s.len(),
{
    match find_char(s, '(') {
        None => seq![],
        Some(open) => match find_char(s.subrange(open, s.len() as int), ')') {
            None => seq![],
            Some(c) => {
                let close = open + c;
                if 0 <= open < close < s.len() {
                    let rest = paren_groups(s.subrange(close + 1, s.len() as int));
                    match int_list(s.subrange(open + 1, close)) {
                        Some(v) => seq![v] + rest,
                        None => rest,
                    }
                } else {
                    seq![]
                }
            },
        },
    }
}

/// An element named by its points only: three points a facet, two a segment.
pub open spec fn by_points(points: Seq<i64>, faces: Seq<Face>) -> ElementV {
    ElementV {
        kind: if points.len() == 3 {
            "facet"@
        } else {
            "segment"@
        },
        points,
        tag: None,
        markers: facets_with(faces, points),
    }
}

// ---------------------------------------------------------------------------------------------
// TetGen 1.5.0's stop
// ---------------------------------------------------------------------------------------------
/// TetGen's stdout ends in 1.5.0's stop on a self-intersection.
pub open spec fn spec_stopped(lines: Seq<Seq<char>>) -> bool {
    exists|k: int| 0 <= k < lines.len() && trim(#[trigger] lines[k]) == SELF_INTERSECTION_STOP@
}

/// A `Found ...` report line.
pub open spec fn found_line(t: Seq<char>) -> bool {
    &&& starts_with(t, "Found "@)
    &&& (ends_with(t, " intersect each other."@) || ends_with(t, " intersect."@) || t
        == "Found two duplicated facets."@)
}

/// The pair a `Found ...` report at line `k` names with its `1st:` and `2nd:` lines.
pub open spec fn found_pair(lines: Seq<Seq<char>>, k: int, faces: Seq<Face>) -> Option<IntersectionV> {
    let t = trim(lines[k]);
    if found_line(t) && k + 2 < lines.len() && starts_with(trim_start(lines[k + 1]), "1st:"@)
        && starts_with(trim_start(lines[k + 2]), "2nd:"@) {
        match (stop_element(lines[k + 1], faces), stop_element(lines[k + 2], faces)) {
            (Some(a), Some(b)) => Some(IntersectionV { message: t, first: a, second: Some(b) }),
            _ => None,
        }
    } else {
        None
    }
}

/// `  Two segments (a, b) and (c, d) intersect.` (`tetgen.cxx:13246`).
pub open spec fn two_segments(t: Seq<char>, faces: Seq<Face>) -> Option<IntersectionV> {
    let g = paren_groups(t);
    if starts_with(t, "Two segments ("@) && ends_with(t, ") intersect."@) && g.len() >= 2 {
        Some(IntersectionV { message: t, first: by_points(g[0], faces), second: Some(by_points(g[1], faces)) })
    } else {
        None
    }
}

/// `      subface: (a, b, c) edge: (d, e)` after `A non-valid facet - edge intersection`
/// (`tetgen.cxx:15690`).
pub open spec fn subface_edge(t: Seq<char>, faces: Seq<Face>) -> Option<IntersectionV> {
    let g = paren_groups(t);
    if starts_with(t, "subface: ("@) && contains(t, " edge: ("@) && g.len() >= 2 {
        Some(
            IntersectionV {
                message: "A non-valid facet - edge intersection"@,
                first: by_points(g[0], faces),
                second: Some(by_points(g[1], faces)),
            },
        )
    } else {
        None
    }
}

/// The pair line `k` names, in any of the three forms.
pub open spec fn pair_at(lines: Seq<Seq<char>>, k: int, faces: Seq<Face>) -> Option<IntersectionV> {
    match found_pair(lines, k, faces) {
        Some(i) => Some(i),
        None => match two_segments(trim(lines[k]), faces) {
            Some(i) => Some(i),
            None => subface_edge(trim(lines[k]), faces),
        },
    }
}

/// The first pair named from line `k` on.
pub open spec fn stop_pair_from(lines: Seq<Seq<char>>, k: int, faces: Seq<Face>) -> Option<IntersectionV>
    decreases lines.len() - k,
{
    if k < 0 || k >= lines.len() {
        None
    } else {
        match pair_at(lines, k, faces) {
            Some(i) => Some(i),
            None => stop_pair_from(lines, k + 1, faces),
        }
    }
}

/// The lines of `lines`, as characters.
pub open spec fn texts(lines: Seq<String>) -> Seq<Seq<char>> {
    lines.map_values(|l: String| l@)
}

// ---------------------------------------------------------------------------------------------
// Every intersection reported
// ---------------------------------------------------------------------------------------------
/// What the reader holds between lines: the intersections done, and one whose details it still
/// reads.
pub ghost struct Scan {
    pub out: Seq<IntersectionV>,
    pub open: Option<IntersectionV>,
}

/// The intersections done, with the open one closed.
pub open spec fn flushed(st: Scan) -> Seq<IntersectionV> {
    match st.open {
        Some(i) => st.out.push(i),
        None => st.out,
    }
}

/// An element not read yet.
pub open spec fn no_element() -> ElementV {
    ElementV { kind: seq![], points: seq![], tag: None, markers: seq![] }
}

/// A warning that opens an intersection: one naming an intersection, a crossing or a point on
/// a facet.
pub open spec fn opens(m: Seq<char>) -> bool {
    contains(m, "intersect"@) || contains(m, "crossing"@) || contains(m, "lies on a facet"@)
}

/// Reads one line.
pub open spec fn step(st: Scan, line: Seq<char>, faces: Seq<Face>) -> Scan {
    match legacy(line, faces) {
        Some(i) => Scan { out: flushed(st).push(i), open: None },
        None => {
            let t = trim(line);
            if starts_with(t, "Warning:"@) {
                let m = trim(t.subrange("Warning:"@.len() as int, t.len() as int));
                if opens(m) {
                    Scan {
                        out: flushed(st),
                        open: Some(IntersectionV { message: m, first: no_element(), second: None }),
                    }
                } else {
                    Scan { out: flushed(st), open: None }
                }
            } else if st.open is Some && starts_with(line, "  "@) {
                let i = st.open.unwrap();
                match element(line, faces) {
                    None => st,
                    Some(e) => if i.first.kind.len() == 0 {
                        Scan { out: st.out, open: Some(IntersectionV { first: e, ..i }) }
                    } else if i.second is None {
                        Scan { out: st.out.push(IntersectionV { second: Some(e), ..i }), open: None }
                    } else {
                        st
                    },
                }
            } else {
                Scan { out: flushed(st), open: None }
            }
        },
    }
}

/// The reader after the first `k` lines.
pub open spec fn scan(lines: Seq<Seq<char>>, k: int, faces: Seq<Face>) -> Scan
    decreases k,
{
    if k <= 0 {
        Scan { out: seq![], open: None }
    } else {
        step(scan(lines, k - 1, faces), lines[k - 1], faces)
    }
}

/// A warning whose detail lines were `  ...` names nothing: it is kept, marked `unknown`.
pub open spec fn named(i: IntersectionV) -> IntersectionV {
    if i.first.kind.len() == 0 {
        IntersectionV { first: ElementV { kind: "unknown"@, ..i.first }, ..i }
    } else {
        i
    }
}

/// `s` from position `k` on, each value once, where it first occurs, after those of `acc`.
pub open spec fn dedup_from(s: Seq<IntersectionV>, k: int, acc: Seq<IntersectionV>) -> Seq<IntersectionV>
    decreases s.len() - k,
{
    if k < 0 || k >= s.len() {
        acc
    } else if acc.contains(s[k]) {
        dedup_from(s, k + 1, acc)
    } else {
        dedup_from(s, k + 1, acc.push(s[k]))
    }
}

/// Every intersection `lines` report, each once, in the order first reported.
pub open spec fn spec_intersections(lines: Seq<Seq<char>>, faces: Seq<Face>) -> Seq<IntersectionV> {
    dedup_from(flushed(scan(lines, lines.len() as int, faces)).map_values(|i: IntersectionV| named(i)), 0, seq![])
}

// ---------------------------------------------------------------------------------------------
// Marker pairs
// ---------------------------------------------------------------------------------------------
/// `p` comes before `q`, comparing the first markers, then the second.
pub open spec fn pair_lt(p: [u32; 2], q: [u32; 2]) -> bool {
    p@[0] < q@[0] || (p@[0] == q@[0] && p@[1] < q@[1])
}

/// Strictly ascending pairs.
pub open spec fn ascending_pairs(s: Seq<[u32; 2]>) -> bool {
    forall|i: int, j: int| 0 <= i < j < s.len() ==> pair_lt(s[i], s[j])
}

/// `p` pairs marker `a` of the first element of intersection `k` of `items` with marker `b` of
/// its second, the two different, the smaller first.
pub open spec fn pair_of(items: Seq<IntersectionV>, k: int, a: int, b: int, p: [u32; 2]) -> bool {
    &&& 0 <= k < items.len()
    &&& items[k].second is Some
    &&& 0 <= a < items[k].first.markers.len()
    &&& 0 <= b < items[k].second.unwrap().markers.len()
    &&& items[k].first.markers[a] != items[k].second.unwrap().markers[b]
    &&& p@[0] == min_u32(items[k].first.markers[a], items[k].second.unwrap().markers[b])
    &&& p@[1] == max_u32(items[k].first.markers[a], items[k].second.unwrap().markers[b])
}

/// `p` pairs two different markers of an intersection in `items`, one of its first element, one
/// of its second, the smaller first.
pub open spec fn pairs_markers(items: Seq<IntersectionV>, p: [u32; 2]) -> bool {
    exists|k: int, a: int, b: int| #[trigger] pair_of(items, k, a, b, p)
}

pub open spec fn min_u32(a: u32, b: u32) -> u32 {
    if a < b {
        a
    } else {
        b
    }
}

pub open spec fn max_u32(a: u32, b: u32) -> u32 {
    if a < b {
        b
    } else {
        a
    }
}

/// `r` lists the marker pairs of `items`, ascending, each once.
pub open spec fn is_pairs_of(r: Seq<[u32; 2]>, items: Seq<IntersectionV>) -> bool {
    &&& ascending_pairs(r)
    &&& forall|p: [u32; 2]| r.contains(p) <==> pairs_markers(items, p)
}

/// The distinct unordered pairs of different facet markers `items` name, ascending: each marker
/// of an intersection's first element with each of its second's.
pub open spec fn spec_marker_pairs(items: Seq<IntersectionV>) -> Seq<[u32; 2]> {
    choose|r: Seq<[u32; 2]>| is_pairs_of(r, items)
}

// ---------------------------------------------------------------------------------------------
// Proofs about ascending lists
// ---------------------------------------------------------------------------------------------
/// Two strictly ascending lists of the same values are the same list.
pub proof fn lemma_ascending_unique(a: Seq<u32>, b: Seq<u32>)
    requires
        ascending(a),
        ascending(b),
        forall|x: u32| a.contains(x) <==> b.contains(x),
    ensures
        a == b,
    decreases a.len(),
{
    if a.len() == 0 {
        if b.len() > 0 {
            assert(b.contains(b[0]));
        }
        assert(a =~= b);
    } else {
        assert(a.contains(a[0]));
        assert(b.contains(a[0]));
        assert(b.contains(b[0]));
        assert(a.contains(b[0]));
        let i = choose|i: int| 0 <= i < a.len() && a[i] == b[0];
        let j = choose|j: int| 0 <= j < b.len() && b[j] == a[0];
        assert(a[0] == b[0]) by {
            if i > 0 {
                assert(a[0] < a[i]);
            }
            if j > 0 {
                assert(b[0] < b[j]);
            }
        }
        let a1 = a.drop_first();
        let b1 = b.drop_first();
        assert forall|x: u32| a1.contains(x) <==> b1.contains(x) by {
            if a1.contains(x) {
                let k = choose|k: int| 0 <= k < a1.len() && a1[k] == x;
                assert(a[k + 1] == x);
                assert(a[0] < a[k + 1]);
                assert(b.contains(x));
                let m = choose|m: int| 0 <= m < b.len() && b[m] == x;
                assert(m != 0);
                assert(b1[m - 1] == x);
            }
            if b1.contains(x) {
                let k = choose|k: int| 0 <= k < b1.len() && b1[k] == x;
                assert(b[k + 1] == x);
                assert(b[0] < b[k + 1]);
                assert(a.contains(x));
                let m = choose|m: int| 0 <= m < a.len() && a[m] == x;
                assert(m != 0);
                assert(a1[m - 1] == x);
            }
        }
        lemma_ascending_unique(a1, b1);
        assert(a =~= seq![a[0]] + a1);
        assert(b =~= seq![b[0]] + b1);
    }
}

/// A list meeting [`is_markers_of`] is [`facets_with`].
pub proof fn lemma_facets_with(r: Seq<u32>, faces: Seq<Face>, points: Seq<i64>)
    requires
        is_markers_of(r, faces, points),
    ensures
        facets_with(faces, points) == r,
{
    let c = facets_with(faces, points);
    assert(is_markers_of(c, faces, points));
    lemma_ascending_unique(c, r);
}

/// Two strictly ascending lists of the same pairs are the same list.
pub proof fn lemma_ascending_pairs_unique(a: Seq<[u32; 2]>, b: Seq<[u32; 2]>)
    requires
        ascending_pairs(a),
        ascending_pairs(b),
        forall|x: [u32; 2]| a.contains(x) <==> b.contains(x),
    ensures
        a == b,
    decreases a.len(),
{
    if a.len() == 0 {
        if b.len() > 0 {
            assert(b.contains(b[0]));
        }
        assert(a =~= b);
    } else {
        assert(a.contains(a[0]));
        assert(b.contains(a[0]));
        assert(b.contains(b[0]));
        assert(a.contains(b[0]));
        let i = choose|i: int| 0 <= i < a.len() && a[i] == b[0];
        let j = choose|j: int| 0 <= j < b.len() && b[j] == a[0];
        assert(a[0] == b[0]) by {
            if i > 0 {
                assert(pair_lt(a[0], a[i]));
            }
            if j > 0 {
                assert(pair_lt(b[0], b[j]));
            }
            if i > 0 && j > 0 {
                assert(false);
            }
            assert(a[0]@ =~= b[0]@);
        }
        let a1 = a.drop_first();
        let b1 = b.drop_first();
        assert forall|x: [u32; 2]| a1.contains(x) <==> b1.contains(x) by {
            if a1.contains(x) {
                let k = choose|k: int| 0 <= k < a1.len() && a1[k] == x;
                assert(a[k + 1] == x);
                assert(pair_lt(a[0], a[k + 1]));
                assert(b.contains(x));
                let m = choose|m: int| 0 <= m < b.len() && b[m] == x;
                assert(m != 0);
                assert(b1[m - 1] == x);
            }
            if b1.contains(x) {
                let k = choose|k: int| 0 <= k < b1.len() && b1[k] == x;
                assert(b[k + 1] == x);
                assert(pair_lt(b[0], b[k + 1]));
                assert(a.contains(x));
                let m = choose|m: int| 0 <= m < a.len() && a[m] == x;
                assert(m != 0);
                assert(a1[m - 1] == x);
            }
        }
        lemma_ascending_pairs_unique(a1, b1);
        assert(a =~= seq![a[0]] + a1);
        assert(b =~= seq![b[0]] + b1);
    }
}

// ---------------------------------------------------------------------------------------------
// Markers, executable
// ---------------------------------------------------------------------------------------------
/// Adds `m` to the ascending list `v`, unless it is there.
fn insert_sorted(v: &mut Vec<u32>, m: u32)
    requires
        ascending(old(v)@),
    ensures
        ascending(final(v)@),
        forall|x: u32| final(v)@.contains(x) <==> (old(v)@.contains(x) || x == m),
{
    let mut i: usize = 0;
    while i < v.len() && v[i] < m
        invariant
            i <= v@.len(),
            forall|k: int| 0 <= k < i ==> v@[k] < m,
        decreases v@.len() - i,
    {
        i = i + 1;
    }
    if i < v.len() && v[i] == m {
        return;
    }
    let ghost before = v@;
    assert(before == old(v)@);
    v.insert(i, m);
    assert forall|x: u32| #[trigger] v@.contains(x) <==> (before.contains(x) || x == m) by {
        if v@.contains(x) {
            let k = choose|k: int| 0 <= k < v@.len() && v@[k] == x;
            if k < i {
                assert(before[k] == x);
            } else if k > i {
                assert(before[k - 1] == x);
            }
        }
        if before.contains(x) {
            let k = choose|k: int| 0 <= k < before.len() && before[k] == x;
            if k < i {
                assert(v@[k] == x);
            } else {
                assert(v@[k + 1] == x);
            }
        }
        if x == m {
            assert(v@[i as int] == m);
        }
    }
}

/// Whether facet `f` holds node number `p` ([`has_point`]).
fn holds_point(f: &Face, p: i64) -> (r: bool)
    ensures
        r == has_point(*f, p),
{
    let r = f.vertices[0] as i64 + 1 == p || f.vertices[1] as i64 + 1 == p || f.vertices[2] as i64
        + 1 == p;
    proof {
        if !r {
            assert forall|v: int| 0 <= v < 3 implies f.vertices@[v] + 1 != p by {
                assert(v == 0 || v == 1 || v == 2);
            }
        }
    }
    r
}

/// [`facets_with`].
pub fn facets_with_of(faces: &[Face], points: &[i64]) -> (r: Vec<u32>)
    ensures
        is_markers_of(r@, faces@, points@),
        r@ == facets_with(faces@, points@),
{
    let mut out: Vec<u32> = Vec::new();
    let mut j: usize = 0;
    while j < faces.len()
        invariant
            j <= faces@.len(),
            ascending(out@),
            forall|m: u32| out@.contains(m) <==> marks(faces@.subrange(0, j as int), points@, m),
        decreases faces@.len() - j,
    {
        let f = &faces[j];
        let mut all = true;
        let mut k: usize = 0;
        while k < points.len()
            invariant
                k <= points@.len(),
                *f == faces@[j as int],
                all == forall|q: int| 0 <= q < k ==> #[trigger] has_point(*f, points@[q]),
            decreases points@.len() - k,
        {
            if !holds_point(f, points[k]) {
                all = false;
            }
            k = k + 1;
        }
        let ghost before = out@;
        if all {
            insert_sorted(&mut out, f.face_index);
        }
        assert forall|m: u32| out@.contains(m) <==> marks(faces@.subrange(0, j + 1), points@, m) by {
            let sj = faces@.subrange(0, j as int);
            let sj1 = faces@.subrange(0, j + 1);
            if marks(sj1, points@, m) {
                let w = choose|w: int| 0 <= w < sj1.len() && holds_all(sj1[w], points@) && sj1[w].face_index == m;
                if w < j {
                    assert(sj[w] == sj1[w]);
                    assert(marks(sj, points@, m));
                } else {
                    assert(holds_all(faces@[j as int], points@));
                }
            }
            if marks(sj, points@, m) {
                let w = choose|w: int| 0 <= w < sj.len() && holds_all(sj[w], points@) && sj[w].face_index == m;
                assert(sj1[w] == sj[w]);
            }
            if all && m == f.face_index {
                assert(sj1[j as int] == *f);
            }
        }
        j = j + 1;
    }
    assert(faces@.subrange(0, faces@.len() as int) =~= faces@);
    proof {
        lemma_facets_with(out@, faces@, points@);
    }
    out
}

/// [`marker_at`].
fn marker_at_of(faces: &[Face], n: i64) -> (r: Vec<u32>)
    ensures
        r@ == marker_at(faces@, n),
{
    let len = faces.len();
    if 1 <= n && n as u64 <= len as u64 {
        let f = faces[(n - 1) as usize];
        let r = vec![f.face_index];
        assert(r@ =~= seq![f.face_index]);
        r
    } else {
        let r: Vec<u32> = Vec::new();
        assert(r@ =~= seq![]);
        r
    }
}

// ---------------------------------------------------------------------------------------------
// The pieces of a line, executable
// ---------------------------------------------------------------------------------------------
/// An optional element as values.
pub open spec fn el_view(r: Option<Element>) -> Option<ElementV> {
    match r {
        Some(e) => Some(e@),
        None => None,
    }
}

/// An optional intersection as values.
pub open spec fn is_view(r: Option<Intersection>) -> Option<IntersectionV> {
    match r {
        Some(i) => Some(i@),
        None => None,
    }
}

/// [`bracket_ints`].
fn bracket_ints_of(s: &[char]) -> (r: Option<Vec<i64>>)
    ensures
        r matches Some(v) ==> bracket_ints(s@) == Some(v@),
        r is None ==> bracket_ints(s@) is None,
{
    let n = s.len();
    let open = match find_c(s, '[') {
        None => return None,
        Some(o) => o,
    };
    let t = slice_subrange(s, open, n);
    let c = match find_c(t, ']') {
        None => return None,
        Some(c) => c,
    };
    assert(t@[0] == '[');
    int_list_of(slice_subrange(s, open + 1, open + c))
}

/// [`tag_of`].
fn tag_of_line(s: &[char]) -> (r: Option<i64>)
    ensures
        r == tag_of(s@),
{
    let n = s.len();
    let p = chars_of("tag(");
    let i = match find_in_of(s, &p) {
        None => return None,
        Some(i) => i,
    };
    let at = i + p.len();
    let t = slice_subrange(s, at, n);
    match find_c(t, ')') {
        None => None,
        Some(e) => parse_int_of(trim_of(slice_subrange(s, at, at + e))),
    }
}

/// [`crate::chars::find_in`] with a pattern given as characters.
fn find_in_of(s: &[char], p: &Vec<char>) -> (r: Option<usize>)
    ensures
        r matches Some(i) ==> (find(s@, p@) == Some(i as int) && i + p@.len() <= s@.len()),
        r is None ==> find(s@, p@) is None,
{
    crate::chars::find_in(s, p.as_slice())
}

/// [`element`].
fn element_of(line: &[char], faces: &[Face]) -> (r: Option<Element>)
    ensures
        el_view(r) == element(line@, faces@),
{
    let points = match bracket_ints_of(line) {
        None => return None,
        Some(p) => p,
    };
    let head = trim_start_of(line);
    let facet = has(head, "facet triangle");
    let kind = if facet {
        "facet".to_owned()
    } else if starts(head, "vertex") {
        "vertex".to_owned()
    } else {
        "segment".to_owned()
    };
    let tag = tag_of_line(line);
    let markers = match tag {
        Some(t) if facet && t >= 0 => {
            if t <= 4294967295 {
                let m = vec![t as u32];
                assert(m@ =~= seq![t as u32]);
                m
            } else {
                let m: Vec<u32> = Vec::new();
                assert(m@ =~= seq![]);
                m
            }
        },
        _ => facets_with_of(faces, points.as_slice()),
    };
    let e = Element { kind, points, tag, markers };
    assert(e@ =~= element(line@, faces@).unwrap());
    Some(e)
}

/// [`facet_number`].
fn facet_number_of(n: &[char], faces: &[Face]) -> (r: Option<Element>)
    ensures
        el_view(r) == facet_number(n@, faces@),
{
    match parse_int_of(trim_of(n)) {
        None => None,
        Some(k) => {
            let e = Element {
                kind: "facet".to_owned(),
                points: Vec::new(),
                tag: Some(k),
                markers: marker_at_of(faces, k),
            };
            assert(e@ =~= facet_number(n@, faces@).unwrap());
            Some(e)
        },
    }
}

/// [`numbered_form`].
fn numbered_form_of(line: &[char], rest: &[char], verb: &str, tail: &str, faces: &[Face]) -> (r: Option<
    Option<Intersection>,
>)
    ensures
        r matches Some(x) ==> numbered_form(line@, rest@, verb@, tail@, faces@) == Some(is_view(x)),
        r is None ==> numbered_form(line@, rest@, verb@, tail@, faces@) is None,
{
    let (i, rest2) = match split_once_of(rest, verb) {
        None => return None,
        Some(x) => x,
    };
    let (j, _) = match split_once_of(rest2, tail) {
        None => return None,
        Some(x) => x,
    };
    let a = match facet_number_of(i, faces) {
        None => return Some(None),
        Some(a) => a,
    };
    let b = match facet_number_of(j, faces) {
        None => return Some(None),
        Some(b) => b,
    };
    let it = Intersection { message: string_of(trim_of(line)), first: a, second: Some(b) };
    Some(Some(it))
}

/// [`polygon_form`].
fn polygon_form_of(line: &[char], faces: &[Face]) -> (r: Option<Intersection>)
    ensures
        is_view(r) == polygon_form(line@, faces@),
{
    let head = trim_start_of(line);
    let rest = match strip_prefix_of(head, "Facet (") {
        None => return None,
        Some(r) => r,
    };
    let (_, rest2) = match split_once_of(rest, ") (") {
        None => return None,
        Some(x) => x,
    };
    let (n, _) = match split_once_of(rest2, ") is not a valid polygon.") {
        None => return None,
        Some(x) => x,
    };
    match facet_number_of(n, faces) {
        None => None,
        Some(a) => Some(Intersection { message: string_of(trim_of(line)), first: a, second: None }),
    }
}

/// [`legacy`].
fn legacy_of(line: &[char], faces: &[Face]) -> (r: Option<Intersection>)
    ensures
        is_view(r) == legacy(line@, faces@),
{
    let head = trim_start_of(line);
    let numbered = match strip_prefix_of(head, "Facet #") {
        Some(rest) => match numbered_form_of(line, rest, " intersects facet #", " at triangles:", faces) {
            Some(r) => Some(r),
            None => numbered_form_of(line, rest, " duplicates facet #", " at triangle:", faces),
        },
        None => None,
    };
    match numbered {
        Some(r) => r,
        None => polygon_form_of(line, faces),
    }
}

/// [`stop_element`].
fn stop_element_of(line: &[char], faces: &[Face]) -> (r: Option<Element>)
    ensures
        el_view(r) == stop_element(line@, faces@),
{
    let n = line.len();
    let points = match bracket_ints_of(line) {
        None => return None,
        Some(p) => p,
    };
    let b = match find_c(line, ']') {
        None => return None,
        Some(b) => b,
    };
    let after = slice_subrange(line, b + 1, n);
    let tag = parse_int_of(trim_of(strip_end_of(strip_start_of(trim_of(after), '#'), '.')));
    if points.len() == 3 {
        let markers = match tag {
            Some(k) => marker_at_of(faces, k),
            None => {
                let m: Vec<u32> = Vec::new();
                assert(m@ =~= seq![]);
                m
            },
        };
        let e = Element { kind: "facet".to_owned(), points, tag, markers };
        assert(e@ =~= stop_element(line@, faces@).unwrap());
        Some(e)
    } else if points.len() == 2 {
        let markers = facets_with_of(faces, points.as_slice());
        let e = Element { kind: "segment".to_owned(), points, tag, markers };
        assert(e@ =~= stop_element(line@, faces@).unwrap());
        Some(e)
    } else {
        None
    }
}

/// The groups as values.
pub open spec fn groups_view(g: Seq<Vec<i64>>) -> Seq<Seq<i64>> {
    g.map_values(|v: Vec<i64>| v@)
}

/// [`paren_groups`].
fn paren_groups_of(s: &[char]) -> (r: Vec<Vec<i64>>)
    ensures
        groups_view(r@) == paren_groups(s@),
    decreases s@.len(),
{
    let n = s.len();
    let open = match find_c(s, '(') {
        None => {
            let r: Vec<Vec<i64>> = Vec::new();
            assert(groups_view(r@) =~= seq![]);
            return r;
        },
        Some(o) => o,
    };
    let t = slice_subrange(s, open, n);
    let c = match find_c(t, ')') {
        None => {
            let r: Vec<Vec<i64>> = Vec::new();
            assert(groups_view(r@) =~= seq![]);
            return r;
        },
        Some(c) => c,
    };
    assert(t@[0] == '(');
    let close = open + c;
    let mut rest = paren_groups_of(slice_subrange(s, close + 1, n));
    let ghost r0 = rest@;
    match int_list_of(slice_subrange(s, open + 1, close)) {
        Some(v) => {
            rest.insert(0, v);
            assert(groups_view(rest@) =~= seq![v@] + groups_view(r0));
            rest
        },
        None => rest,
    }
}

/// [`by_points`].
fn by_points_of(points: Vec<i64>, faces: &[Face]) -> (r: Element)
    ensures
        r@ == by_points(points@, faces@),
{
    let kind = if points.len() == 3 {
        "facet".to_owned()
    } else {
        "segment".to_owned()
    };
    let markers = facets_with_of(faces, points.as_slice());
    let e = Element { kind, points, tag: None, markers };
    assert(e@ =~= by_points(points@, faces@));
    e
}

// ---------------------------------------------------------------------------------------------
// Reading TetGen's stdout
// ---------------------------------------------------------------------------------------------
/// Whether TetGen's stdout ends in 1.5.0's stop on a self-intersection ([`SELF_INTERSECTION_STOP`]):
/// some line, trimmed, is that line.
pub fn stopped_on_self_intersection(lines: &[String]) -> (r: bool)
    ensures
        r == spec_stopped(texts(lines@)),
{
    let mut k: usize = 0;
    while k < lines.len()
        invariant
            k <= lines@.len(),
            forall|j: int| 0 <= j < k ==> trim(#[trigger] texts(lines@)[j]) != SELF_INTERSECTION_STOP@,
        decreases lines@.len() - k,
    {
        let cs = chars_of(lines[k].as_str());
        assert(texts(lines@)[k as int] == lines@[k as int]@);
        if equals(trim_of(cs.as_slice()), SELF_INTERSECTION_STOP) {
            return true;
        }
        k = k + 1;
    }
    false
}

/// [`found_line`].
fn found_line_of(t: &[char]) -> (r: bool)
    ensures
        r == found_line(t@),
{
    starts(t, "Found ") && (ends(t, " intersect each other.") || ends(t, " intersect.") || equals(
        t,
        "Found two duplicated facets.",
    ))
}

/// [`found_pair`].
fn found_pair_of(lines: &[String], k: usize, faces: &[Face]) -> (r: Option<Intersection>)
    requires
        k < lines@.len(),
    ensures
        is_view(r) == found_pair(texts(lines@), k as int, faces@),
{
    let ghost ls = texts(lines@);
    let cs = chars_of(lines[k].as_str());
    assert(ls[k as int] == cs@);
    let t = trim_of(cs.as_slice());
    if !found_line_of(t) || lines.len() - k <= 2 {
        return None;
    }
    let a = chars_of(lines[k + 1].as_str());
    let b = chars_of(lines[k + 2].as_str());
    assert(ls[k + 1] == a@);
    assert(ls[k + 2] == b@);
    if !starts(trim_start_of(a.as_slice()), "1st:") || !starts(trim_start_of(b.as_slice()), "2nd:") {
        return None;
    }
    match (stop_element_of(a.as_slice(), faces), stop_element_of(b.as_slice(), faces)) {
        (Some(x), Some(y)) => Some(Intersection { message: string_of(t), first: x, second: Some(y) }),
        _ => None,
    }
}

/// [`two_segments`].
fn two_segments_of(t: &[char], faces: &[Face]) -> (r: Option<Intersection>)
    ensures
        is_view(r) == two_segments(t@, faces@),
{
    if !(starts(t, "Two segments (") && ends(t, ") intersect.")) {
        return None;
    }
    let mut g = paren_groups_of(t);
    if g.len() < 2 {
        return None;
    }
    let ghost gv = groups_view(g@);
    let second = g.remove(1);
    let first = g.remove(0);
    assert(first@ == gv[0]);
    assert(second@ == gv[1]);
    Some(Intersection { message: string_of(t), first: by_points_of(first, faces), second: Some(by_points_of(second, faces)) })
}

/// [`subface_edge`].
fn subface_edge_of(t: &[char], faces: &[Face]) -> (r: Option<Intersection>)
    ensures
        is_view(r) == subface_edge(t@, faces@),
{
    if !(starts(t, "subface: (") && has(t, " edge: (")) {
        return None;
    }
    let mut g = paren_groups_of(t);
    if g.len() < 2 {
        return None;
    }
    let ghost gv = groups_view(g@);
    let second = g.remove(1);
    let first = g.remove(0);
    assert(first@ == gv[0]);
    assert(second@ == gv[1]);
    Some(
        Intersection {
            message: "A non-valid facet - edge intersection".to_owned(),
            first: by_points_of(first, faces),
            second: Some(by_points_of(second, faces)),
        },
    )
}

/// The pair TetGen 1.5.0 names before it stops on a self-intersection, mapped to the markers of
/// `model`, the `.poly` it read ([`stop_pair_from`]). The forms, from `tetgen.cxx`:
/// - `Found two facets intersect each other.`, `Found two duplicated facets.`,
///   `Found two segments intersect each other.` and `Found a segment and a subface intersect.`,
///   each followed by a `1st:` and a `2nd:` line (13571-13583, 19264-19273, 19603-19609);
/// - `  Two segments (a, b) and (c, d) intersect.` (13246);
/// - `      subface: (a, b, c) edge: (d, e)` after `A non-valid facet - edge intersection` (15690).
///
/// `None` when the stop names no pair: several of its paths print nothing before it.
pub fn stop_pair(lines: &[String], model: &Model) -> (r: Option<Intersection>)
    ensures
        is_view(r) == stop_pair_from(texts(lines@), 0, model.model_faces@),
{
    let faces = model.model_faces.as_slice();
    let ghost ls = texts(lines@);
    let mut k: usize = 0;
    while k < lines.len()
        invariant
            k <= lines@.len(),
            ls == texts(lines@),
            ls.len() == lines@.len(),
            faces@ == model.model_faces@,
            stop_pair_from(ls, 0, faces@) == stop_pair_from(ls, k as int, faces@),
        decreases lines@.len() - k,
    {
        let cs = chars_of(lines[k].as_str());
        assert(ls[k as int] == cs@);
        let t = trim_of(cs.as_slice());
        let found = match found_pair_of(lines, k, faces) {
            Some(i) => Some(i),
            None => match two_segments_of(t, faces) {
                Some(i) => Some(i),
                None => subface_edge_of(t, faces),
            },
        };
        if found.is_some() {
            return found;
        }
        k = k + 1;
    }
    None
}

/// The intersections as values.
pub open spec fn views(s: Seq<Intersection>) -> Seq<IntersectionV> {
    s.map_values(|i: Intersection| i@)
}

/// Whether `a` and `b` hold the same integers.
fn same_i64s(a: &Vec<i64>, b: &Vec<i64>) -> (r: bool)
    ensures
        r == (a@ == b@),
{
    if a.len() != b.len() {
        return false;
    }
    let mut k: usize = 0;
    while k < a.len()
        invariant
            a@.len() == b@.len(),
            k <= a@.len(),
            forall|j: int| 0 <= j < k ==> a@[j] == b@[j],
        decreases a@.len() - k,
    {
        if a[k] != b[k] {
            return false;
        }
        k = k + 1;
    }
    assert(a@ =~= b@);
    true
}

/// Whether `a` and `b` hold the same markers.
fn same_u32s(a: &Vec<u32>, b: &Vec<u32>) -> (r: bool)
    ensures
        r == (a@ == b@),
{
    if a.len() != b.len() {
        return false;
    }
    let mut k: usize = 0;
    while k < a.len()
        invariant
            a@.len() == b@.len(),
            k <= a@.len(),
            forall|j: int| 0 <= j < k ==> a@[j] == b@[j],
        decreases a@.len() - k,
    {
        if a[k] != b[k] {
            return false;
        }
        k = k + 1;
    }
    assert(a@ =~= b@);
    true
}

/// Whether two elements are the same values.
fn same_element(a: &Element, b: &Element) -> (r: bool)
    ensures
        r == (a@ == b@),
{
    let tags = match (a.tag, b.tag) {
        (Some(x), Some(y)) => x == y,
        (None, None) => true,
        _ => false,
    };
    let r = a.kind == b.kind && same_i64s(&a.points, &b.points) && tags && same_u32s(&a.markers, &b.markers);
    proof {
        if r {
            assert(a@ =~= b@);
        }
    }
    r
}

/// Whether two intersections are the same values.
fn same_intersection(a: &Intersection, b: &Intersection) -> (r: bool)
    ensures
        r == (a@ == b@),
{
    let seconds = match (&a.second, &b.second) {
        (Some(x), Some(y)) => same_element(x, y),
        (None, None) => true,
        _ => false,
    };
    let r = a.message == b.message && same_element(&a.first, &b.first) && seconds;
    proof {
        if r {
            assert(a@ =~= b@);
        }
    }
    r
}

/// Moves the open intersection, if any, to `out`.
fn flush(out: &mut Vec<Intersection>, open: &mut Option<Intersection>)
    ensures
        views(final(out)@) == flushed(Scan { out: views(old(out)@), open: is_view(*old(open)) }),
        *final(open) is None,
{
    let ghost before = views(out@);
    match open.take() {
        Some(i) => {
            out.push(i);
            assert(views(out@) =~= before.push(i@));
        },
        None => {},
    }
}

/// Reads one line into `out` and `open` ([`step`]).
fn read_line(line: &[char], faces: &[Face], out: &mut Vec<Intersection>, open: &mut Option<Intersection>)
    ensures
        (Scan { out: views(final(out)@), open: is_view(*final(open)) }) == step(
            Scan { out: views(old(out)@), open: is_view(*old(open)) },
            line@,
            faces@,
        ),
{
    let ghost st = Scan { out: views(out@), open: is_view(*open) };
    if let Some(i) = legacy_of(line, faces) {
        flush(out, open);
        let ghost before = views(out@);
        out.push(i);
        assert(views(out@) =~= before.push(legacy(line@, faces@).unwrap()));
        return;
    }
    let t = trim_of(line);
    if let Some(rest) = strip_prefix_of(t, "Warning:") {
        flush(out, open);
        let m = trim_of(rest);
        if has(m, "intersect") || has(m, "crossing") || has(m, "lies on a facet") {
            let e = Element { kind: String::new(), points: Vec::new(), tag: None, markers: Vec::new() };
            assert(e@ =~= no_element());
            *open = Some(Intersection { message: string_of(m), first: e, second: None });
        }
        return;
    }
    if open.is_some() && starts(line, "  ") {
        match element_of(line, faces) {
            None => {},
            Some(e) => {
                let mut i = match open.take() {
                    Some(i) => i,
                    None => {
                        return;
                    },
                };
                let ghost iv = i@;
                if i.first.kind.as_str().is_empty() {
                    i.first = e;
                    assert(i@ =~= IntersectionV { first: element(line@, faces@).unwrap(), ..iv });
                    *open = Some(i);
                } else if i.second.is_none() {
                    i.second = Some(e);
                    let ghost before = views(out@);
                    assert(i@ =~= IntersectionV { second: element(line@, faces@), ..iv });
                    out.push(i);
                    assert(views(out@) =~= before.push(IntersectionV { second: element(line@, faces@), ..iv }));
                } else {
                    *open = Some(i);
                }
            },
        }
        return;
    }
    flush(out, open);
}

/// [`named`] on every intersection.
fn name_all(items: Vec<Intersection>) -> (r: Vec<Intersection>)
    ensures
        views(r@) == views(items@).map_values(|i: IntersectionV| named(i)),
{
    let ghost all = views(items@);
    let mut out: Vec<Intersection> = Vec::new();
    let mut items = items;
    while items.len() > 0
        invariant
            views(out@) + views(items@) .map_values(|i: IntersectionV| named(i)) == all.map_values(
                |i: IntersectionV| named(i),
            ),
        decreases items@.len(),
    {
        let ghost rest = items@;
        let mut i = items.remove(0);
        let ghost iv = i@;
        if i.first.kind.as_str().is_empty() {
            i.first.kind = "unknown".to_owned();
        }
        assert(i@ =~= named(iv));
        let ghost before = views(out@);
        out.push(i);
        assert(views(out@) =~= before.push(named(iv)));
        assert(views(rest).map_values(|i: IntersectionV| named(i)) =~= seq![named(iv)] + views(items@).map_values(
            |i: IntersectionV| named(i),
        ));
        assert(views(out@) + views(items@).map_values(|i: IntersectionV| named(i)) =~= before + views(
            rest,
        ).map_values(|i: IntersectionV| named(i)));
    }
    assert(views(items@).map_values(|i: IntersectionV| named(i)) =~= seq![]);
    assert(views(out@) =~= views(out@) + views(items@).map_values(|i: IntersectionV| named(i)));
    out
}

/// Keeps the first of every run of equal intersections ([`dedup_from`]).
fn dedup(items: Vec<Intersection>) -> (r: Vec<Intersection>)
    ensures
        views(r@) == dedup_from(views(items@), 0, seq![]),
{
    let ghost all = views(items@);
    let mut out: Vec<Intersection> = Vec::new();
    let mut items = items;
    let ghost mut k: int = 0;
    assert(views(out@) =~= seq![]);
    assert(all.subrange(0, all.len() as int) =~= all);
    while items.len() > 0
        invariant
            0 <= k <= all.len(),
            views(items@) == all.subrange(k, all.len() as int),
            dedup_from(all, 0, seq![]) == dedup_from(all, k, views(out@)),
        decreases items@.len(),
    {
        let ghost rest = views(items@);
        let i = items.remove(0);
        assert(rest[0] == i@);
        assert(rest.len() == items@.len() + 1);
        assert(all.subrange(k, all.len() as int)[0] == all[k]);
        assert(i@ == all[k]);
        assert(views(items@) =~= rest.drop_first());
        let mut seen = false;
        let mut j: usize = 0;
        while j < out.len()
            invariant
                j <= out@.len(),
                seen == exists|m: int| 0 <= m < j && views(out@)[m] == i@,
            decreases out@.len() - j,
        {
            if same_intersection(&out[j], &i) {
                assert(views(out@)[j as int] == i@);
                seen = true;
            }
            j = j + 1;
        }
        assert(seen == views(out@).contains(i@));
        if !seen {
            let ghost before = views(out@);
            out.push(i);
            assert(views(out@) =~= before.push(all[k]));
        }
        proof {
            k = k + 1;
        }
        assert(views(items@) =~= all.subrange(k, all.len() as int));
    }
    assert(k == all.len());
    out
}

/// Every intersection reported in `lines` (TetGen's stdout), with the markers of `model`, the
/// `.poly` TetGen read, each once, in the order first reported ([`spec_intersections`]): TetGen
/// 1.5.0's `-d` prints one pair as often as its search meets it.
pub fn intersections(lines: &[String], model: &Model) -> (r: Vec<Intersection>)
    ensures
        views(r@) == spec_intersections(texts(lines@), model.model_faces@),
{
    let faces = model.model_faces.as_slice();
    let ghost ls = texts(lines@);
    let mut out: Vec<Intersection> = Vec::new();
    let mut open: Option<Intersection> = None;
    let mut k: usize = 0;
    assert(views(out@) =~= seq![]);
    while k < lines.len()
        invariant
            k <= lines@.len(),
            ls == texts(lines@),
            ls.len() == lines@.len(),
            faces@ == model.model_faces@,
            (Scan { out: views(out@), open: is_view(open) }) == scan(ls, k as int, faces@),
        decreases lines@.len() - k,
    {
        let cs = chars_of(lines[k].as_str());
        assert(ls[k as int] == cs@);
        read_line(cs.as_slice(), faces, &mut out, &mut open);
        k = k + 1;
    }
    flush(&mut out, &mut open);
    dedup(name_all(out))
}

/// Adds `p` to the ascending pairs `v`, unless it is there.
fn insert_pair(v: &mut Vec<[u32; 2]>, p: [u32; 2])
    requires
        ascending_pairs(old(v)@),
    ensures
        ascending_pairs(final(v)@),
        forall|x: [u32; 2]| #[trigger] final(v)@.contains(x) <==> (old(v)@.contains(x) || x == p),
{
    let mut i: usize = 0;
    while i < v.len() && (v[i][0] < p[0] || (v[i][0] == p[0] && v[i][1] < p[1]))
        invariant
            i <= v@.len(),
            forall|k: int| 0 <= k < i ==> pair_lt(v@[k], p),
        decreases v@.len() - i,
    {
        i = i + 1;
    }
    if i < v.len() && v[i][0] == p[0] && v[i][1] == p[1] {
        assert(v@[i as int] =~= p);
        return;
    }
    let ghost before = v@;
    assert(before == old(v)@);
    v.insert(i, p);
    assert(i < before.len() ==> pair_lt(p, before[i as int]));
    assert forall|a: int, b: int| 0 <= a < b < v@.len() implies pair_lt(v@[a], v@[b]) by {
        if b < i {
            assert(v@[a] == before[a] && v@[b] == before[b]);
        } else if b == i {
            assert(v@[a] == before[a]);
        } else if a == i {
            assert(v@[b] == before[b - 1]);
            if b - 1 > i {
                assert(pair_lt(before[i as int], before[b - 1]));
            }
        } else if a < i {
            assert(v@[a] == before[a] && v@[b] == before[b - 1]);
        } else {
            assert(v@[a] == before[a - 1] && v@[b] == before[b - 1]);
        }
    }
    assert forall|x: [u32; 2]| #[trigger] v@.contains(x) <==> (before.contains(x) || x == p) by {
        if v@.contains(x) {
            let k = choose|k: int| 0 <= k < v@.len() && v@[k] == x;
            if k < i {
                assert(before[k] == x);
            } else if k > i {
                assert(before[k - 1] == x);
            }
        }
        if before.contains(x) {
            let k = choose|k: int| 0 <= k < before.len() && before[k] == x;
            if k < i {
                assert(v@[k] == x);
            } else {
                assert(v@[k + 1] == x);
            }
        }
        if x == p {
            assert(v@[i as int] == p);
        }
    }
}

/// The pairs found before marker `b` of the second element, with marker `a` of the first, of
/// intersection `k`, in the order the reader goes.
pub open spec fn pairs_before(items: Seq<IntersectionV>, k: int, a: int, b: int, p: [u32; 2]) -> bool {
    exists|k2: int, a2: int, b2: int|
        #[trigger] pair_of(items, k2, a2, b2, p) && (k2 < k || (k2 == k && (a2 < a || (a2 == a && b2
            < b))))
}

/// The distinct unordered pairs of different facet markers `items` name, ascending
/// ([`spec_marker_pairs`]): each marker of an intersection's first element with each of its
/// second's.
pub fn marker_pairs(items: &[Intersection]) -> (r: Vec<[u32; 2]>)
    ensures
        is_pairs_of(r@, views(items@)),
        r@ == spec_marker_pairs(views(items@)),
{
    let ghost iv = views(items@);
    let mut out: Vec<[u32; 2]> = Vec::new();
    let mut k: usize = 0;
    while k < items.len()
        invariant
            k <= items@.len(),
            iv == views(items@),
            ascending_pairs(out@),
            forall|p: [u32; 2]| #[trigger] out@.contains(p) <==> pairs_before(iv, k as int, 0, 0, p),
        decreases items@.len() - k,
    {
        let it = &items[k];
        assert(iv[k as int] == it@);
        match &it.second {
            None => {
                assert forall|p: [u32; 2]| #[trigger] out@.contains(p) <==> pairs_before(iv, k + 1, 0, 0, p) by {
                    if pairs_before(iv, k + 1, 0, 0, p) {
                        let (k2, a2, b2) = choose|k2: int, a2: int, b2: int|
                            #[trigger] pair_of(iv, k2, a2, b2, p) && (k2 < k + 1 || (k2 == k + 1 && (a2 < 0 || (a2 == 0 && b2 < 0))));
                        assert(pair_of(iv, k2, a2, b2, p));
                        assert(k2 != k);
                        assert(pairs_before(iv, k as int, 0, 0, p));
                    }
                    if pairs_before(iv, k as int, 0, 0, p) {
                        let (k2, a2, b2) = choose|k2: int, a2: int, b2: int|
                            #[trigger] pair_of(iv, k2, a2, b2, p) && (k2 < k || (k2 == k && (a2 < 0 || (a2 == 0 && b2 < 0))));
                        assert(pair_of(iv, k2, a2, b2, p));
                    }
                }
            },
            Some(second) => {
                let firsts = &it.first.markers;
                let seconds = &second.markers;
                let mut a: usize = 0;
                while a < firsts.len()
                    invariant
                        a <= firsts@.len(),
                        iv == views(items@),
                        k < items@.len(),
                        iv[k as int] == it@,
                        it.second == Some(*second),
                        firsts@ == iv[k as int].first.markers,
                        seconds@ == iv[k as int].second.unwrap().markers,
                        ascending_pairs(out@),
                        forall|p: [u32; 2]| #[trigger] out@.contains(p) <==> pairs_before(iv, k as int, a as int, 0, p),
                    decreases firsts@.len() - a,
                {
                    let mut b: usize = 0;
                    while b < seconds.len()
                        invariant
                            a < firsts@.len(),
                            b <= seconds@.len(),
                            iv == views(items@),
                            k < items@.len(),
                            firsts@ == iv[k as int].first.markers,
                            seconds@ == iv[k as int].second.unwrap().markers,
                            iv[k as int].second is Some,
                            ascending_pairs(out@),
                            forall|p: [u32; 2]| #[trigger] out@.contains(p) <==> pairs_before(iv, k as int, a as int, b as int, p),
                        decreases seconds@.len() - b,
                    {
                        let x = firsts[a];
                        let y = seconds[b];
                        let ghost before = out@;
                        let q: [u32; 2] = if x < y {
                            [x, y]
                        } else {
                            [y, x]
                        };
                        if x != y {
                            insert_pair(&mut out, q);
                        }
                        assert forall|p: [u32; 2]| #[trigger] out@.contains(p) <==> pairs_before(iv, k as int, a as int, b + 1, p) by {
                            if pairs_before(iv, k as int, a as int, b + 1, p) {
                                let (k2, a2, b2) = choose|k2: int, a2: int, b2: int|
                                    #[trigger] pair_of(iv, k2, a2, b2, p) && (k2 < k || (k2 == k && (a2 < a || (a2 == a && b2 < b + 1))));
                                if k2 == k && a2 == a && b2 == b {
                                    assert(p =~= q);
                                } else {
                                    assert(pairs_before(iv, k as int, a as int, b as int, p));
                                }
                            }
                            if out@.contains(p) {
                                if before.contains(p) {
                                    let (k2, a2, b2) = choose|k2: int, a2: int, b2: int|
                                        #[trigger] pair_of(iv, k2, a2, b2, p) && (k2 < k || (k2 == k && (a2 < a || (a2 == a && b2 < b))));
                                    assert(pair_of(iv, k2, a2, b2, p));
                                } else {
                                    assert(p == q);
                                    assert(pair_of(iv, k as int, a as int, b as int, p));
                                }
                            }
                        }
                        b = b + 1;
                    }
                    assert forall|p: [u32; 2]| #[trigger] out@.contains(p) <==> pairs_before(iv, k as int, a + 1, 0, p) by {
                        if pairs_before(iv, k as int, a + 1, 0, p) {
                            let (k2, a2, b2) = choose|k2: int, a2: int, b2: int|
                                #[trigger] pair_of(iv, k2, a2, b2, p) && (k2 < k || (k2 == k && (a2 < a + 1 || (a2 == a + 1 && b2 < 0))));
                            assert(pairs_before(iv, k as int, a as int, seconds@.len() as int, p));
                        }
                        if pairs_before(iv, k as int, a as int, seconds@.len() as int, p) {
                            let (k2, a2, b2) = choose|k2: int, a2: int, b2: int|
                                #[trigger] pair_of(iv, k2, a2, b2, p) && (k2 < k || (k2 == k && (a2 < a || (a2 == a && b2 < seconds@.len()))));
                            assert(pair_of(iv, k2, a2, b2, p));
                        }
                    }
                    a = a + 1;
                }
                assert forall|p: [u32; 2]| #[trigger] out@.contains(p) <==> pairs_before(iv, k + 1, 0, 0, p) by {
                    if pairs_before(iv, k + 1, 0, 0, p) {
                        let (k2, a2, b2) = choose|k2: int, a2: int, b2: int|
                            #[trigger] pair_of(iv, k2, a2, b2, p) && (k2 < k + 1 || (k2 == k + 1 && (a2 < 0 || (a2 == 0 && b2 < 0))));
                        assert(pair_of(iv, k2, a2, b2, p));
                        assert(pairs_before(iv, k as int, firsts@.len() as int, 0, p));
                    }
                    if pairs_before(iv, k as int, firsts@.len() as int, 0, p) {
                        let (k2, a2, b2) = choose|k2: int, a2: int, b2: int|
                            #[trigger] pair_of(iv, k2, a2, b2, p) && (k2 < k || (k2 == k && (a2 < firsts@.len() || (a2 == firsts@.len() && b2 < 0))));
                        assert(pair_of(iv, k2, a2, b2, p));
                    }
                }
            },
        }
        k = k + 1;
    }
    proof {
        assert forall|p: [u32; 2]| #[trigger] out@.contains(p) <==> pairs_markers(iv, p) by {
            if pairs_markers(iv, p) {
                let (k2, a2, b2) = choose|k2: int, a2: int, b2: int| #[trigger] pair_of(iv, k2, a2, b2, p);
                assert(pairs_before(iv, k as int, 0, 0, p));
            }
            if pairs_before(iv, k as int, 0, 0, p) {
                let (k2, a2, b2) = choose|k2: int, a2: int, b2: int|
                    #[trigger] pair_of(iv, k2, a2, b2, p) && (k2 < k || (k2 == k && (a2 < 0 || (a2 == 0 && b2 < 0))));
                assert(pair_of(iv, k2, a2, b2, p));
            }
        }
        let c = spec_marker_pairs(iv);
        assert(is_pairs_of(out@, iv));
        assert(is_pairs_of(c, iv));
        lemma_ascending_pairs_unique(c, out@);
    }
    out
}

} // verus!
