//! The geometry check's vocabulary and its reasons: the verdict, the stable reason codes, the
//! findings a report lists, and the reasons with their messages from what the check found. What
//! the check decides on floating-point positions is left to this crate's callers.
use crate::text::{dec, message_u64};
use std::collections::BTreeMap;
use vstd::prelude::*;

verus! {

/// The overall outcome.
#[derive(Clone, Copy, Debug, PartialEq, Eq, Hash, Structural)]
pub enum Verdict {
    /// No reason applies: the geometry can go to meshing (serialised as `ok`).
    Passed,
    /// At least one reason applies.
    Refused,
}

/// Why a geometry is refused. The codes (their snake_case spelling) are stable API.
#[derive(Clone, Copy, Debug, PartialEq, Eq, Hash, PartialOrd, Ord, Structural)]
pub enum ReasonCode {
    /// The geometry has no faces.
    EmptyGeometry,
    /// Faces with a vertex index out of range or a non-finite vertex coordinate.
    InvalidFaces,
    /// Faces of zero area (repeated vertex or exactly collinear vertices). Repairable: removed.
    DegenerateFaces,
    /// Faces repeating an earlier face's three vertex positions. Repairable: removed.
    DuplicateFaces,
    /// Faces meeting other than along a shared edge or at a shared vertex.
    SelfIntersections,
    /// The outer shell is not closed: open edges and faces with the exterior on both sides.
    OpenBoundary,
    /// No face bounds an enclosed volume.
    NoEnclosedVolume,
    /// Faces whose normal points into the volume they bound. Repairable: flipped.
    InvertedFaces,
    /// A face-connected component could not be placed relative to the others.
    UnresolvedTopology,
}

/// The stable code of a reason.
pub open spec fn reason_text(c: ReasonCode) -> Seq<char> {
    match c {
        ReasonCode::EmptyGeometry => "empty_geometry"@,
        ReasonCode::InvalidFaces => "invalid_faces"@,
        ReasonCode::DegenerateFaces => "degenerate_faces"@,
        ReasonCode::DuplicateFaces => "duplicate_faces"@,
        ReasonCode::SelfIntersections => "self_intersections"@,
        ReasonCode::OpenBoundary => "open_boundary"@,
        ReasonCode::NoEnclosedVolume => "no_enclosed_volume"@,
        ReasonCode::InvertedFaces => "inverted_faces"@,
        ReasonCode::UnresolvedTopology => "unresolved_topology"@,
    }
}

impl ReasonCode {
    /// The stable code, as serialised.
    pub fn as_str(self) -> (r: &'static str)
        ensures
            r@ == reason_text(self),
    {
        match self {
            ReasonCode::EmptyGeometry => "empty_geometry",
            ReasonCode::InvalidFaces => "invalid_faces",
            ReasonCode::DegenerateFaces => "degenerate_faces",
            ReasonCode::DuplicateFaces => "duplicate_faces",
            ReasonCode::SelfIntersections => "self_intersections",
            ReasonCode::OpenBoundary => "open_boundary",
            ReasonCode::NoEnclosedVolume => "no_enclosed_volume",
            ReasonCode::InvertedFaces => "inverted_faces",
            ReasonCode::UnresolvedTopology => "unresolved_topology",
        }
    }

    /// Whether the repair fixes this reason by itself: degenerate, duplicate and inverted
    /// faces.
    pub fn repairable(self) -> (r: bool)
        ensures
            r == (self == ReasonCode::DegenerateFaces || self == ReasonCode::DuplicateFaces || self
                == ReasonCode::InvertedFaces),
    {
        match self {
            ReasonCode::DegenerateFaces | ReasonCode::DuplicateFaces | ReasonCode::InvertedFaces => true,
            _ => false,
        }
    }
}

/// One reason for refusal.
#[derive(Clone, Debug, PartialEq)]
pub struct Reason {
    pub code: ReasonCode,
    /// How many findings (faces, pairs or edges, as the message says).
    pub count: usize,
    /// Whether the repair fixes it.
    pub repairable: bool,
    /// The faces involved, ascending.
    pub faces: Vec<u32>,
    pub message: String,
}

/// Why a face is not analysed at all.
#[derive(Clone, Copy, Debug, PartialEq, Eq, Hash, Structural)]
pub enum InvalidCause {
    IndexOutOfRange,
    NonFiniteVertex,
}

/// A face that is not analysed, and why.
#[derive(Clone, Copy, Debug, PartialEq, Eq, Hash, Structural)]
pub struct InvalidFace {
    pub face: u32,
    pub cause: InvalidCause,
}

/// Why a face has zero area.
#[derive(Clone, Copy, Debug, PartialEq, Eq, Hash, Structural)]
pub enum DegenerateKind {
    /// Two of its vertex indices are equal.
    RepeatedVertex,
    /// Three distinct vertices, exactly collinear (or coincident).
    ZeroArea,
}

/// A face of zero area, and why.
#[derive(Clone, Copy, Debug, PartialEq, Eq, Hash, Structural)]
pub struct DegenerateFace {
    pub face: u32,
    pub kind: DegenerateKind,
}

/// A face with the same three vertex positions as an earlier one.
#[derive(Clone, Copy, Debug, PartialEq, Eq, Hash, Structural)]
pub struct DuplicateFace {
    pub face: u32,
    /// The first face with these positions (the one kept by repair).
    pub duplicate_of: u32,
    /// Same cyclic order, hence the same normal.
    pub same_orientation: bool,
    /// Same surface group, hence the same material.
    pub same_group: bool,
}

/// What an analysed face separates.
#[derive(Clone, Copy, Debug, PartialEq, Eq, Hash, Structural)]
pub enum FaceClass {
    Boundary,
    Partition,
    NestedShell,
    Sheet,
    Exterior,
}

/// An analysed face that is not on the outer shell.
#[derive(Clone, Copy, Debug, PartialEq, Eq, Hash, Structural)]
pub struct InternalFace {
    pub face: u32,
    pub class: FaceClass,
    /// The cell on the face's front (normal) side and on its back; 0 is the exterior.
    pub front_cell: u32,
    pub back_cell: u32,
}

/// What an edge that is not plainly manifold is, in the analysed mesh.
#[derive(Clone, Copy, Debug, PartialEq, Eq, Hash, Structural)]
pub enum EdgeClass {
    /// Used once, by a face with the exterior on both sides: a hole in the outer shell.
    BoundaryOpen,
    /// Used once, by a sheet inside a room: the free edge of a reflector.
    InternalFree,
    /// Used 3+ times, with the exterior in exactly one wedge.
    BoundaryJunction,
    /// Used 3+ times, with the exterior in no wedge.
    InternalJunction,
    /// Used 3+ times, with the exterior in two or more wedges.
    PinchedBoundary,
    /// Used twice by analysed faces; the other uses are by faces not analysed.
    Manifold,
    /// Every face using it is not analysed (invalid, degenerate or duplicate).
    Unanalysed,
}

/// An edge whose use count is not 2, in the census or in the analysed mesh.
#[derive(Clone, Debug, PartialEq, Eq, Hash)]
pub struct EdgeFinding {
    /// Vertex indices, ascending.
    pub vertices: [u32; 2],
    /// Uses in the census (every face with in-range indices).
    pub uses: u32,
    /// Uses by analysed faces.
    pub analysed_uses: u32,
    /// Every face using it, ascending.
    pub faces: Vec<u32>,
    pub class: EdgeClass,
}

/// Sizes the check counts.
#[derive(Clone, Debug, PartialEq)]
pub struct Counts {
    pub vertices: usize,
    pub faces: usize,
    /// Faces neither invalid, degenerate nor duplicate.
    pub analysed_faces: usize,
    /// Distinct edges in the census.
    pub edges: usize,
    /// Census edges used exactly once.
    pub open_edges: usize,
    /// Census edges used exactly twice.
    pub manifold_edges: usize,
    /// Census edges used three times or more.
    pub nonmanifold_edges: usize,
    /// Census histogram: uses -> number of edges.
    pub edge_uses: BTreeMap<u32, usize>,
    pub invalid_faces: usize,
    pub degenerate_faces: usize,
    pub duplicate_faces: usize,
    pub self_intersecting_pairs: usize,
    pub self_intersecting_faces: usize,
    pub boundary_faces: usize,
    pub partition_faces: usize,
    pub nested_shell_faces: usize,
    pub sheet_faces: usize,
    pub exterior_faces: usize,
    pub inverted_faces: usize,
    /// Analysed edges of class [`EdgeClass::BoundaryOpen`].
    pub boundary_open_edges: usize,
    /// Analysed edges of class [`EdgeClass::InternalFree`].
    pub internal_free_edges: usize,
    /// Analysed edges used three times or more.
    pub junction_edges: usize,
    /// Edges used by exactly two analysed faces that run along it the same way.
    pub orientation_conflict_edges: usize,
    /// Face-connected components of the analysed faces.
    pub components: usize,
    /// Enclosed volumes (cells other than the exterior).
    pub cells: usize,
    /// Vertices at exactly the position of a lower-numbered vertex.
    pub coincident_vertices: usize,
    /// Vertices no face uses (informational).
    pub unreferenced_vertices: usize,
    pub non_finite_vertices: usize,
}


/// `n` and the noun for it: `one` when `n` is 1, else `many`.
pub open spec fn spec_plural(n: nat, one: Seq<char>, many: Seq<char>) -> Seq<char> {
    dec(n) + " "@ + if n == 1 {
        one
    } else {
        many
    }
}

/// `n` and the noun for it ([`spec_plural`]).
pub fn plural(n: usize, one: &str, many: &str) -> (r: String)
    ensures
        r@ == spec_plural(n as nat, one@, many@),
{
    proof {
        reveal_strlit("");
    }
    let mut m = message_u64("", n as u64, " ");
    assert(m@ =~= dec(n as nat) + " "@);
    if n == 1 {
        m.append(one);
    } else {
        m.append(many);
    }
    m
}

/// What the check found, as its reasons need it: the face count; the invalid, degenerate and
/// duplicate faces; the self-intersecting pairs and the faces in them; the open edges on the
/// exterior and the faces with the exterior on both sides; the vertices at another's position;
/// the cells (the exterior among them); the inverted faces; the components that could not be
/// placed.
pub struct Findings {
    pub faces: usize,
    pub invalid: Vec<u32>,
    pub degenerate: Vec<u32>,
    pub duplicates: Vec<u32>,
    pub pairs: usize,
    pub intersecting: Vec<u32>,
    pub open_edges: usize,
    pub exterior: Vec<u32>,
    pub coincident: usize,
    pub cells: usize,
    pub inverted: Vec<u32>,
    pub unplaced: usize,
}

/// A reason as values: code, count, whether the repair fixes it, faces, message.
pub open spec fn reason_view(r: Reason) -> (ReasonCode, usize, bool, Seq<u32>, Seq<char>) {
    (r.code, r.count, r.repairable, r.faces@, r.message@)
}

/// A reason of code `c` with its count, faces and message.
pub open spec fn mk(c: ReasonCode, count: usize, faces: Seq<u32>, message: Seq<char>) -> (ReasonCode, usize, bool, Seq<u32>, Seq<char>) {
    (c, count, c == ReasonCode::DegenerateFaces || c == ReasonCode::DuplicateFaces || c == ReasonCode::InvertedFaces, faces, message)
}

/// The open-boundary message: open edges and exterior faces, and, when vertices sit at another's
/// position, that welding closes the seams.
pub open spec fn open_message(x: Findings) -> Seq<char> {
    "the outer shell is not closed: "@ + spec_plural(x.open_edges as nat, "open edge faces"@, "open edges face"@)
        + " the exterior, and "@ + spec_plural(x.exterior@.len(), "face has"@, "faces have"@)
        + " the exterior on both sides"@ + if x.coincident > 0 {
        "; "@ + spec_plural(x.coincident as nat, "vertex is"@, "vertices are"@)
            + " at the position of another vertex, and welding them (repair) closes the edges that are only unwelded seams"@
    } else {
        seq![]
    }
}

/// The reasons, in code order: no faces; invalid faces; degenerate faces; duplicate faces;
/// self-intersections; an open outer shell; no enclosed volume (faces but at most the exterior
/// cell); inverted faces; components that could not be placed.
pub open spec fn spec_reasons(x: Findings) -> Seq<(ReasonCode, usize, bool, Seq<u32>, Seq<char>)> {
    face_reasons(x) + shape_reasons(x)
}

/// The reasons about faces on their own: none at all, invalid, degenerate, duplicate.
pub open spec fn face_reasons(x: Findings) -> Seq<(ReasonCode, usize, bool, Seq<u32>, Seq<char>)> {
    (if x.faces == 0 {
        seq![mk(ReasonCode::EmptyGeometry, 0, seq![], "the geometry has no faces"@)]
    } else {
        seq![]
    }) + (if x.invalid@.len() > 0 {
        seq![
            mk(
                ReasonCode::InvalidFaces,
                x.invalid@.len() as usize,
                x.invalid@,
                spec_plural(x.invalid@.len(), "face has"@, "faces have"@)
                    + " a vertex index out of range or a non-finite vertex coordinate"@,
            ),
        ]
    } else {
        seq![]
    }) + (if x.degenerate@.len() > 0 {
        seq![
            mk(
                ReasonCode::DegenerateFaces,
                x.degenerate@.len() as usize,
                x.degenerate@,
                spec_plural(x.degenerate@.len(), "face has"@, "faces have"@)
                    + " zero area (a repeated vertex, or three collinear vertices)"@,
            ),
        ]
    } else {
        seq![]
    }) + (if x.duplicates@.len() > 0 {
        seq![
            mk(
                ReasonCode::DuplicateFaces,
                x.duplicates@.len() as usize,
                x.duplicates@,
                spec_plural(x.duplicates@.len(), "face repeats"@, "faces repeat"@)
                    + " the three vertex positions of an earlier face"@,
            ),
        ]
    } else {
        seq![]
    })
}

/// The reasons about the shape: self-intersections, an open outer shell, no enclosed volume,
/// inverted faces, components that could not be placed.
pub open spec fn shape_reasons(x: Findings) -> Seq<(ReasonCode, usize, bool, Seq<u32>, Seq<char>)> {
    (if x.pairs > 0 {
        seq![
            mk(
                ReasonCode::SelfIntersections,
                x.pairs,
                x.intersecting@,
                spec_plural(x.pairs as nat, "pair"@, "pairs"@)
                    + " of faces meet other than along a shared edge or at a shared vertex ("@
                    + spec_plural(x.intersecting@.len(), "face"@, "faces"@) + ")"@,
            ),
        ]
    } else {
        seq![]
    }) + (if x.open_edges > 0 || x.exterior@.len() > 0 {
        seq![mk(ReasonCode::OpenBoundary, x.open_edges, x.exterior@, open_message(x))]
    } else {
        seq![]
    }) + (if x.faces > 0 && x.cells <= 1 {
        seq![mk(ReasonCode::NoEnclosedVolume, 0, seq![], "no face bounds an enclosed volume"@)]
    } else {
        seq![]
    }) + (if x.inverted@.len() > 0 {
        seq![
            mk(
                ReasonCode::InvertedFaces,
                x.inverted@.len() as usize,
                x.inverted@,
                spec_plural(x.inverted@.len(), "face points"@, "faces point"@)
                    + " into the volume it bounds (normals must point out of the room, and out of a nested shell)"@,
            ),
        ]
    } else {
        seq![]
    }) + (if x.unplaced > 0 {
        seq![
            mk(
                ReasonCode::UnresolvedTopology,
                x.unplaced,
                seq![],
                "the placement of "@ + spec_plural(
                    x.unplaced as nat,
                    "face-connected component"@,
                    "face-connected components"@,
                ) + " relative to the others could not be decided"@,
            ),
        ]
    } else {
        seq![]
    })
}

/// The reasons as values.
pub open spec fn views(rs: Seq<Reason>) -> Seq<(ReasonCode, usize, bool, Seq<u32>, Seq<char>)> {
    Seq::new(rs.len(), |k: int| reason_view(rs[k]))
}

/// A copy of `v`.
fn copy_faces(v: &Vec<u32>) -> (r: Vec<u32>)
    ensures
        r@ == v@,
{
    let mut out: Vec<u32> = Vec::new();
    let mut k: usize = 0;
    while k < v.len()
        invariant
            k <= v@.len(),
            out@ == v@.subrange(0, k as int),
        decreases v@.len() - k,
    {
        out.push(v[k]);
        assert(out@ =~= v@.subrange(0, k + 1));
        k = k + 1;
    }
    assert(v@.subrange(0, v@.len() as int) =~= v@);
    out
}

/// A reason, with whether the repair fixes it.
fn reason(code: ReasonCode, count: usize, faces: Vec<u32>, message: String) -> (r: Reason)
    ensures
        reason_view(r) == mk(code, count, faces@, message@),
{
    Reason { code, count, repairable: code.repairable(), faces, message }
}

/// `r` with one more reason.
fn push_reason(out: &mut Vec<Reason>, r: Reason)
    ensures
        views(final(out)@) == views(old(out)@).push(reason_view(r)),
{
    out.push(r);
    assert(views(out@) =~= views(old(out)@).push(reason_view(r)));
}

/// The reasons about faces on their own ([`face_reasons`]).
fn reasons_of_faces(x: &Findings) -> (r: Vec<Reason>)
    ensures
        views(r@) == face_reasons(*x),
{
    let mut out: Vec<Reason> = Vec::new();
    let ghost mut want: Seq<(ReasonCode, usize, bool, Seq<u32>, Seq<char>)> = seq![];
    assert(views(out@) =~= want);
    if x.faces == 0 {
        push_reason(&mut out, reason(ReasonCode::EmptyGeometry, 0, Vec::new(), "the geometry has no faces".to_string()));
        proof {
            want = want.push(mk(ReasonCode::EmptyGeometry, 0, seq![], "the geometry has no faces"@));
        }
    }
    if x.invalid.len() > 0 {
        let mut m = plural(x.invalid.len(), "face has", "faces have");
        m.append(" a vertex index out of range or a non-finite vertex coordinate");
        push_reason(&mut out, reason(ReasonCode::InvalidFaces, x.invalid.len(), copy_faces(&x.invalid), m));
        proof {
            want = want.push(
                mk(
                    ReasonCode::InvalidFaces,
                    x.invalid@.len() as usize,
                    x.invalid@,
                    spec_plural(x.invalid@.len(), "face has"@, "faces have"@)
                        + " a vertex index out of range or a non-finite vertex coordinate"@,
                ),
            );
        }
    }
    if x.degenerate.len() > 0 {
        let mut m = plural(x.degenerate.len(), "face has", "faces have");
        m.append(" zero area (a repeated vertex, or three collinear vertices)");
        push_reason(&mut out, reason(ReasonCode::DegenerateFaces, x.degenerate.len(), copy_faces(&x.degenerate), m));
        proof {
            want = want.push(
                mk(
                    ReasonCode::DegenerateFaces,
                    x.degenerate@.len() as usize,
                    x.degenerate@,
                    spec_plural(x.degenerate@.len(), "face has"@, "faces have"@)
                        + " zero area (a repeated vertex, or three collinear vertices)"@,
                ),
            );
        }
    }
    if x.duplicates.len() > 0 {
        let mut m = plural(x.duplicates.len(), "face repeats", "faces repeat");
        m.append(" the three vertex positions of an earlier face");
        push_reason(&mut out, reason(ReasonCode::DuplicateFaces, x.duplicates.len(), copy_faces(&x.duplicates), m));
        proof {
            want = want.push(
                mk(
                    ReasonCode::DuplicateFaces,
                    x.duplicates@.len() as usize,
                    x.duplicates@,
                    spec_plural(x.duplicates@.len(), "face repeats"@, "faces repeat"@)
                        + " the three vertex positions of an earlier face"@,
                ),
            );
        }
    }
    assert(want =~= face_reasons(*x));
    out
}

/// The open-boundary message ([`open_message`]).
fn open_boundary_message(x: &Findings) -> (r: String)
    ensures
        r@ == open_message(*x),
{
    let mut m = String::new();
    m.append("the outer shell is not closed: ");
    let a = plural(x.open_edges, "open edge faces", "open edges face");
    m.append(a.as_str());
    m.append(" the exterior, and ");
    let b = plural(x.exterior.len(), "face has", "faces have");
    m.append(b.as_str());
    m.append(" the exterior on both sides");
    if x.coincident > 0 {
        m.append("; ");
        let c = plural(x.coincident, "vertex is", "vertices are");
        m.append(c.as_str());
        m.append(" at the position of another vertex, and welding them (repair) closes the edges that are only unwelded seams");
    }
    proof {
        reveal_strlit("");
    }
    assert(m@ =~= open_message(*x));
    m
}

/// The reasons about the shape ([`shape_reasons`]).
fn reasons_of_shape(x: &Findings) -> (r: Vec<Reason>)
    ensures
        views(r@) == shape_reasons(*x),
{
    let mut out: Vec<Reason> = Vec::new();
    let ghost mut want: Seq<(ReasonCode, usize, bool, Seq<u32>, Seq<char>)> = seq![];
    assert(views(out@) =~= want);
    if x.pairs > 0 {
        let mut m = plural(x.pairs, "pair", "pairs");
        m.append(" of faces meet other than along a shared edge or at a shared vertex (");
        let f = plural(x.intersecting.len(), "face", "faces");
        m.append(f.as_str());
        m.append(")");
        push_reason(&mut out, reason(ReasonCode::SelfIntersections, x.pairs, copy_faces(&x.intersecting), m));
        proof {
            want = want.push(
                mk(
                    ReasonCode::SelfIntersections,
                    x.pairs,
                    x.intersecting@,
                    spec_plural(x.pairs as nat, "pair"@, "pairs"@)
                        + " of faces meet other than along a shared edge or at a shared vertex ("@
                        + spec_plural(x.intersecting@.len(), "face"@, "faces"@) + ")"@,
                ),
            );
        }
    }
    if x.open_edges > 0 || x.exterior.len() > 0 {
        let m = open_boundary_message(x);
        push_reason(&mut out, reason(ReasonCode::OpenBoundary, x.open_edges, copy_faces(&x.exterior), m));
        proof {
            want = want.push(mk(ReasonCode::OpenBoundary, x.open_edges, x.exterior@, open_message(*x)));
        }
    }
    if x.faces > 0 && x.cells <= 1 {
        push_reason(&mut out, reason(ReasonCode::NoEnclosedVolume, 0, Vec::new(), "no face bounds an enclosed volume".to_string()));
        proof {
            want = want.push(mk(ReasonCode::NoEnclosedVolume, 0, seq![], "no face bounds an enclosed volume"@));
        }
    }
    if x.inverted.len() > 0 {
        let mut m = plural(x.inverted.len(), "face points", "faces point");
        m.append(" into the volume it bounds (normals must point out of the room, and out of a nested shell)");
        push_reason(&mut out, reason(ReasonCode::InvertedFaces, x.inverted.len(), copy_faces(&x.inverted), m));
        proof {
            want = want.push(
                mk(
                    ReasonCode::InvertedFaces,
                    x.inverted@.len() as usize,
                    x.inverted@,
                    spec_plural(x.inverted@.len(), "face points"@, "faces point"@)
                        + " into the volume it bounds (normals must point out of the room, and out of a nested shell)"@,
                ),
            );
        }
    }
    if x.unplaced > 0 {
        let mut m = String::new();
        m.append("the placement of ");
        let a = plural(x.unplaced, "face-connected component", "face-connected components");
        m.append(a.as_str());
        m.append(" relative to the others could not be decided");
        push_reason(&mut out, reason(ReasonCode::UnresolvedTopology, x.unplaced, Vec::new(), m));
        proof {
            reveal_strlit("");
            want = want.push(
                mk(
                    ReasonCode::UnresolvedTopology,
                    x.unplaced,
                    seq![],
                    "the placement of "@ + spec_plural(
                        x.unplaced as nat,
                        "face-connected component"@,
                        "face-connected components"@,
                    ) + " relative to the others could not be decided"@,
                ),
            );
        }
    }
    assert(want =~= shape_reasons(*x));
    out
}

/// The check's reasons ([`spec_reasons`]), in code order.
pub fn reasons(x: &Findings) -> (r: Vec<Reason>)
    ensures
        views(r@) == spec_reasons(*x),
{
    let mut a = reasons_of_faces(x);
    let mut b = reasons_of_shape(x);
    let ghost (va, vb) = (a@, b@);
    a.append(&mut b);
    assert(views(a@) =~= views(va) + views(vb));
    a
}

/// The verdict the reasons give: passed when there are none.
pub fn verdict(reasons: &Vec<Reason>) -> (r: Verdict)
    ensures
        r == if reasons@.len() == 0 {
            Verdict::Passed
        } else {
            Verdict::Refused
        },
{
    if reasons.len() == 0 {
        Verdict::Passed
    } else {
        Verdict::Refused
    }
}
} // verus!
