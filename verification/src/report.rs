//! The geometry check as a whole: from the faces and what the caller decided on floating-point
//! coordinates (which vertices are finite and where they lie, which faces have zero area, which
//! pairs of faces intersect, the cells on each face's sides and their depths, how many wedges
//! around each edge face the exterior), the report: each face's status, the edge census and its
//! classes, the face classes, the inverted faces, the reasons and the verdict.
use crate::cells::{face_class, spec_face_class, Use, NONE};
use crate::census::{
    census, count_where, edge_uses, face_status, position_ids, referenced, repeats_before, status_of,
    vertex_counts, CensusEdge, FaceStatus,
};
use crate::check::{
    reasons, spec_reasons, verdict, views, Counts, DegenerateFace, DuplicateFace, EdgeClass,
    EdgeFinding, FaceClass, Findings, InternalFace, InvalidFace, Reason, ReasonCode, Verdict,
};
use crate::finish::first_same;
use std::collections::BTreeMap;
use vstd::prelude::*;

verus! {

broadcast use {vstd::std_specs::btree::group_btree_axioms, vstd::laws_cmp::group_laws_cmp};

/// How many of the first `n` uses are by analysed faces.
pub open spec fn analysed_in(st: Seq<FaceStatus>, us: Seq<Use>, n: int) -> nat
    decreases n,
{
    if n <= 0 {
        0
    } else {
        analysed_in(st, us, n - 1) + if st[us[n - 1].face as int] is Analysed {
            1nat
        } else {
            0nat
        }
    }
}

/// How many uses census edge `p` has.
pub open spec fn uses_len(cen: Seq<CensusEdge>, p: int) -> int {
    cen[p].uses@.len() as int
}

/// Census edges used once.
pub open spec fn used_once(cen: Seq<CensusEdge>) -> spec_fn(int) -> bool {
    |p: int| uses_len(cen, p) == 1
}

/// Census edges used twice.
pub open spec fn used_twice(cen: Seq<CensusEdge>) -> spec_fn(int) -> bool {
    |p: int| uses_len(cen, p) == 2
}

/// Census edges used three times or more.
pub open spec fn used_more(cen: Seq<CensusEdge>) -> spec_fn(int) -> bool {
    |p: int| uses_len(cen, p) >= 3
}

/// Census edges used by three analysed faces or more.
pub open spec fn junction_at(cen: Seq<CensusEdge>, st: Seq<FaceStatus>) -> spec_fn(int) -> bool {
    |p: int| analysed_uses(st, cen[p].uses@) >= 3
}

/// Listed census edges of class `c`.
pub open spec fn listed_as(cen: Seq<CensusEdge>, st: Seq<FaceStatus>, ext: Seq<u32>, c: EdgeClass) -> spec_fn(
    int,
) -> bool {
    |p: int| listed_at(cen, st, p) && class_at(cen, st, ext, p) == c
}

/// The analysed uses of an edge.
pub open spec fn analysed_uses(st: Seq<FaceStatus>, us: Seq<Use>) -> nat {
    analysed_in(st, us, us.len() as int)
}

/// What an edge is, from its analysed uses and how many of its wedges (or, used once, its one
/// side) face the exterior.
pub open spec fn spec_edge_class(k: nat, ext: u32) -> EdgeClass {
    if k == 0 {
        EdgeClass::Unanalysed
    } else if k == 1 {
        if ext >= 1 {
            EdgeClass::BoundaryOpen
        } else {
            EdgeClass::InternalFree
        }
    } else if k == 2 {
        EdgeClass::Manifold
    } else if ext == 0 {
        EdgeClass::InternalJunction
    } else if ext == 1 {
        EdgeClass::BoundaryJunction
    } else {
        EdgeClass::PinchedBoundary
    }
}

/// An edge is listed unless it is used twice, by two analysed faces or by none.
pub open spec fn listed(raw: nat, k: nat) -> bool {
    !(raw == 2 && (k == 2 || k == 0))
}

/// The exterior count given for the edge at position `p` of the census, 0 past the end.
pub open spec fn ext_at(ext: Seq<u32>, p: int) -> u32 {
    if 0 <= p < ext.len() {
        ext[p]
    } else {
        0
    }
}

/// A finding as values: vertices, uses, analysed uses, faces, class.
pub open spec fn finding_view(e: EdgeFinding) -> ([u32; 2], u32, u32, Seq<u32>, EdgeClass) {
    (e.vertices, e.uses, e.analysed_uses, e.faces@, e.class)
}

/// The faces of a list of uses, in order.
pub open spec fn use_faces(us: Seq<Use>) -> Seq<u32> {
    us.map_values(|x: Use| x.face)
}

/// The class of census edge `p`.
pub open spec fn class_at(cen: Seq<CensusEdge>, st: Seq<FaceStatus>, ext: Seq<u32>, p: int) -> EdgeClass {
    spec_edge_class(analysed_uses(st, cen[p].uses@), ext_at(ext, p))
}

/// Census edge `p` is listed.
pub open spec fn listed_at(cen: Seq<CensusEdge>, st: Seq<FaceStatus>, p: int) -> bool {
    listed(cen[p].uses@.len(), analysed_uses(st, cen[p].uses@))
}

/// The findings of the first `n` census edges: those listed, each with its counts, faces and
/// class.
pub open spec fn findings_of(cen: Seq<CensusEdge>, st: Seq<FaceStatus>, ext: Seq<u32>, n: int) -> Seq<
    ([u32; 2], u32, u32, Seq<u32>, EdgeClass),
>
    decreases n,
{
    if n <= 0 {
        seq![]
    } else {
        let before = findings_of(cen, st, ext, n - 1);
        let p = n - 1;
        if listed_at(cen, st, p) {
            before.push(
                (
                    cen[p].vertices,
                    cen[p].uses@.len() as u32,
                    analysed_uses(st, cen[p].uses@) as u32,
                    use_faces(cen[p].uses@),
                    class_at(cen, st, ext, p),
                ),
            )
        } else {
            before
        }
    }
}

/// The census histogram of the first `n` edges: uses to number of edges.
pub open spec fn histogram(cen: Seq<CensusEdge>, n: int) -> Map<u32, usize>
    decreases n,
{
    if n <= 0 {
        Map::empty()
    } else {
        let h = histogram(cen, n - 1);
        let raw = cen[n - 1].uses@.len() as u32;
        h.insert(
            raw,
            (if h.contains_key(raw) {
                h[raw] + 1
            } else {
                1
            }) as usize,
        )
    }
}

/// What the edge pass counts and lists.
pub struct EdgeSummary {
    /// The listed edges, classified.
    pub edges: Vec<EdgeFinding>,
    /// Census uses to number of edges.
    pub histogram: BTreeMap<u32, usize>,
    /// Census edges used once, twice, three times or more.
    pub open: usize,
    pub manifold: usize,
    pub nonmanifold: usize,
    /// Edges used by three analysed faces or more.
    pub junctions: usize,
    /// Listed edges open on the exterior, and free inside a room.
    pub boundary_open: usize,
    pub internal_free: usize,
}

proof fn lemma_analysed_in_le(st: Seq<FaceStatus>, us: Seq<Use>, n: int)
    requires
        0 <= n <= us.len(),
    ensures
        analysed_in(st, us, n) <= n,
    decreases n,
{
    if n > 0 {
        lemma_analysed_in_le(st, us, n - 1);
    }
}

proof fn lemma_count_le(p: spec_fn(int) -> bool, n: int)
    requires
        0 <= n,
    ensures
        count_where(p, n) <= n,
    decreases n,
{
    if n > 0 {
        lemma_count_le(p, n - 1);
    }
}

proof fn lemma_histogram_le(cen: Seq<CensusEdge>, n: int, k: u32)
    requires
        0 <= n <= cen.len(),
    ensures
        histogram(cen, n).contains_key(k) ==> histogram(cen, n)[k] <= n,
    decreases n,
{
    if n > 0 {
        lemma_histogram_le(cen, n - 1, k);
        lemma_histogram_le(cen, n - 1, cen[n - 1].uses@.len() as u32);
    }
}

/// Uses by analysed faces of one edge.
fn count_analysed(status: &Vec<FaceStatus>, uses: &Vec<Use>) -> (r: u32)
    requires
        uses@.len() <= u32::MAX,
        forall|j: int| 0 <= j < uses@.len() ==> (#[trigger] uses@[j]).face < status@.len(),
    ensures
        r == analysed_uses(status@, uses@),
{
    let mut k: u32 = 0;
    let mut j: usize = 0;
    while j < uses.len()
        invariant
            j <= uses@.len() <= u32::MAX,
            forall|i: int| 0 <= i < uses@.len() ==> (#[trigger] uses@[i]).face < status@.len(),
            k == analysed_in(status@, uses@, j as int),
        decreases uses@.len() - j,
    {
        proof {
            lemma_analysed_in_le(status@, uses@, j as int);
        }
        let f = uses[j].face as usize;
        if matches!(status[f], FaceStatus::Analysed) {
            k = k + 1;
        }
        j = j + 1;
    }
    k
}

/// The faces of one edge's uses, in order.
fn faces_of(uses: &Vec<Use>) -> (r: Vec<u32>)
    ensures
        r@ == use_faces(uses@),
{
    let mut out: Vec<u32> = Vec::new();
    let mut j: usize = 0;
    while j < uses.len()
        invariant
            j <= uses@.len(),
            out@ == use_faces(uses@.take(j as int)),
        decreases uses@.len() - j,
    {
        assert(uses@.take(j + 1) =~= uses@.take(j as int).push(uses@[j as int]));
        out.push(uses[j].face);
        j = j + 1;
    }
    assert(uses@.take(uses@.len() as int) =~= uses@);
    out
}

/// The edge pass over the census `cen` (in census order) with each face's status and, per
/// census edge, how many of its wedges face the exterior: the listed findings
/// ([`findings_of`]), the histogram ([`histogram`]) and the counts.
pub fn classify_edges(cen: &Vec<CensusEdge>, status: &Vec<FaceStatus>, ext: &Vec<u32>) -> (r: EdgeSummary)
    requires
        forall|p: int|
            0 <= p < cen@.len() ==> (#[trigger] cen@[p]).uses@.len() <= u32::MAX && forall|j: int|
                0 <= j < cen@[p].uses@.len() ==> (#[trigger] cen@[p].uses@[j]).face < status@.len(),
    ensures
        r.edges@.map_values(|e: EdgeFinding| finding_view(e)) == findings_of(cen@, status@, ext@, cen@.len() as int),
        r.histogram@ == histogram(cen@, cen@.len() as int),
        r.open == count_where(used_once(cen@), cen@.len() as int),
        r.manifold == count_where(used_twice(cen@), cen@.len() as int),
        r.nonmanifold == count_where(used_more(cen@), cen@.len() as int),
        r.junctions == count_where(junction_at(cen@, status@), cen@.len() as int),
        r.boundary_open == count_where(listed_as(cen@, status@, ext@, EdgeClass::BoundaryOpen), cen@.len() as int),
        r.internal_free == count_where(listed_as(cen@, status@, ext@, EdgeClass::InternalFree), cen@.len() as int),
{
    let ghost (cs, st, xs) = (cen@, status@, ext@);
    let mut edges: Vec<EdgeFinding> = Vec::new();
    let mut hist: BTreeMap<u32, usize> = BTreeMap::new();
    let (mut open, mut manifold, mut nonmanifold, mut junctions, mut boundary_open, mut internal_free) = (
        0usize,
        0usize,
        0usize,
        0usize,
        0usize,
        0usize,
    );
    let mut p: usize = 0;
    while p < cen.len()
        invariant
            p <= cs.len(),
            cs == cen@ && st == status@ && xs == ext@,
            forall|q: int|
                0 <= q < cs.len() ==> (#[trigger] cs[q]).uses@.len() <= u32::MAX && forall|j: int|
                    0 <= j < cs[q].uses@.len() ==> (#[trigger] cs[q].uses@[j]).face < st.len(),
            edges@.map_values(|e: EdgeFinding| finding_view(e)) == findings_of(cs, st, xs, p as int),
            hist@ == histogram(cs, p as int),
            open == count_where(used_once(cs), p as int),
            manifold == count_where(used_twice(cs), p as int),
            nonmanifold == count_where(used_more(cs), p as int),
            junctions == count_where(junction_at(cs, st), p as int),
            boundary_open == count_where(listed_as(cs, st, xs, EdgeClass::BoundaryOpen), p as int),
            internal_free == count_where(listed_as(cs, st, xs, EdgeClass::InternalFree), p as int),
        decreases cs.len() - p,
    {
        proof {
            lemma_count_le(used_once(cs), p as int);
            lemma_count_le(used_twice(cs), p as int);
            lemma_count_le(used_more(cs), p as int);
            lemma_count_le(junction_at(cs, st), p as int);
            lemma_count_le(listed_as(cs, st, xs, EdgeClass::BoundaryOpen), p as int);
            lemma_count_le(listed_as(cs, st, xs, EdgeClass::InternalFree), p as int);
        }
        let e = &cen[p];
        assert(cs[p as int].uses@.len() <= u32::MAX);
        let raw = e.uses.len() as u32;
        assert(raw as int == cs[p as int].uses@.len());
        assert(uses_len(cs, p as int) == raw);
        assert(used_once(cs)(p as int) == (raw == 1));
        assert(used_twice(cs)(p as int) == (raw == 2));
        assert(used_more(cs)(p as int) == (raw >= 3));
        let k = count_analysed(status, &e.uses);
        proof {
            lemma_histogram_le(cs, p as int, raw);
        }
        let before: usize = match hist.get(&raw) {
            Some(n) => *n,
            None => 0,
        };
        hist.insert(raw, before + 1);
        if raw == 1 {
            open = open + 1;
        } else if raw == 2 {
            manifold = manifold + 1;
        } else if raw >= 3 {
            nonmanifold = nonmanifold + 1;
        }
        if k >= 3 {
            junctions = junctions + 1;
        }
        let ghost old_edges = edges@;
        if !(raw == 2 && (k == 2 || k == 0)) {
            let x: u32 = if p < ext.len() {
                ext[p]
            } else {
                0
            };
            let class = if k == 0 {
                EdgeClass::Unanalysed
            } else if k == 1 {
                if x >= 1 {
                    EdgeClass::BoundaryOpen
                } else {
                    EdgeClass::InternalFree
                }
            } else if k == 2 {
                EdgeClass::Manifold
            } else if x == 0 {
                EdgeClass::InternalJunction
            } else if x == 1 {
                EdgeClass::BoundaryJunction
            } else {
                EdgeClass::PinchedBoundary
            };
            if matches!(class, EdgeClass::BoundaryOpen) {
                boundary_open = boundary_open + 1;
            } else if matches!(class, EdgeClass::InternalFree) {
                internal_free = internal_free + 1;
            }
            let faces = faces_of(&e.uses);
            edges.push(EdgeFinding { vertices: e.vertices, uses: raw, analysed_uses: k, faces, class });
            assert(edges@.map_values(|e: EdgeFinding| finding_view(e)) =~= old_edges.map_values(
                |e: EdgeFinding| finding_view(e),
            ).push(finding_view(edges@.last())));
        }
        p = p + 1;
    }
    EdgeSummary { edges, histogram: hist, open, manifold, nonmanifold, junctions, boundary_open, internal_free }
}


// ---------------------------------------------------------------------------------------------
// The face pass
// ---------------------------------------------------------------------------------------------

/// What the caller decided on floating-point coordinates, and what the cells give. Per vertex:
/// its position key (the bits of its coordinates, `-0.0` as `0.0`) and whether its coordinates
/// are finite. Per face: whether its three vertices are collinear, its surface group, the cell
/// on its front and on its back ([`NONE`] for none). Per cell: its depth ([`NONE`] when
/// unreachable). The intersecting face pairs; per census edge, in census order, how many of its
/// wedges (or, used once, its side) face the exterior; the components, and those that could not
/// be placed or were placed in two cells that do not nest; rays with tied hits; edges whose two
/// analysed faces run along it the same way.
pub struct GeometryFacts {
    pub keys: Vec<[u64; 3]>,
    pub finite: Vec<bool>,
    pub zero_area: Vec<bool>,
    pub groups: Vec<u128>,
    pub front_cell: Vec<u32>,
    pub back_cell: Vec<u32>,
    pub depth: Vec<u32>,
    pub pairs: Vec<[u32; 2]>,
    pub edge_exterior: Vec<u32>,
    pub components: usize,
    pub unresolved: usize,
    pub ambiguous: usize,
    pub ties: usize,
    pub conflicts: usize,
}

/// A cell's depth, [`NONE`] for a cell that is not listed.
pub open spec fn cell_depth(depth: Seq<u32>, c: u32) -> u32 {
    if c < depth.len() {
        depth[c as int]
    } else {
        NONE
    }
}

/// What face `f` separates ([`spec_face_class`]).
pub open spec fn face_class_at(x: GeometryFacts, f: int) -> FaceClass {
    spec_face_class(
        x.front_cell@[f],
        x.back_cell@[f],
        cell_depth(x.depth@, x.front_cell@[f]),
        cell_depth(x.depth@, x.back_cell@[f]),
    )
}

/// Face `f` points into the deeper of its two reachable cells.
pub open spec fn inverted_at(x: GeometryFacts, f: int) -> bool {
    let (cf, cb) = (x.front_cell@[f], x.back_cell@[f]);
    let (df, db) = (cell_depth(x.depth@, cf), cell_depth(x.depth@, cb));
    cf != cb && df != NONE && db != NONE && df > db
}

/// A cell of face `f` is unreachable.
pub open spec fn unreachable_at(x: GeometryFacts, f: int) -> bool {
    cell_depth(x.depth@, x.front_cell@[f]) == NONE || cell_depth(x.depth@, x.back_cell@[f]) == NONE
}

/// The faces below `n` for which `p` holds, ascending.
pub open spec fn faces_where(p: spec_fn(int) -> bool, n: int) -> Seq<u32>
    decreases n,
{
    if n <= 0 {
        seq![]
    } else {
        faces_where(p, n - 1) + if p(n - 1) {
            seq![(n - 1) as u32]
        } else {
            seq![]
        }
    }
}

/// Invalid faces.
pub open spec fn invalid_face(st: Seq<FaceStatus>) -> spec_fn(int) -> bool {
    |f: int| st[f] is Invalid
}

/// Degenerate faces.
pub open spec fn degenerate_face(st: Seq<FaceStatus>) -> spec_fn(int) -> bool {
    |f: int| st[f] is Degenerate
}

/// Repeats of an earlier face.
pub open spec fn duplicate_face(st: Seq<FaceStatus>) -> spec_fn(int) -> bool {
    |f: int| st[f] is Duplicate
}

/// Analysed faces.
pub open spec fn analysed_face(st: Seq<FaceStatus>) -> spec_fn(int) -> bool {
    |f: int| st[f] is Analysed
}

/// Analysed faces of class `c`.
pub open spec fn analysed_as(st: Seq<FaceStatus>, x: GeometryFacts, c: FaceClass) -> spec_fn(int) -> bool {
    |f: int| st[f] is Analysed && face_class_at(x, f) == c
}

/// Analysed faces that are inverted.
pub open spec fn inverted_face(st: Seq<FaceStatus>, x: GeometryFacts) -> spec_fn(int) -> bool {
    |f: int| st[f] is Analysed && inverted_at(x, f)
}

/// The invalid faces below `n`, each with its cause.
pub open spec fn invalid_list(st: Seq<FaceStatus>, n: int) -> Seq<InvalidFace>
    decreases n,
{
    if n <= 0 {
        seq![]
    } else {
        let b = invalid_list(st, n - 1);
        match st[n - 1] {
            FaceStatus::Invalid(c) => b.push(InvalidFace { face: (n - 1) as u32, cause: c }),
            _ => b,
        }
    }
}

/// The degenerate faces below `n`, each with its kind.
pub open spec fn degenerate_list(st: Seq<FaceStatus>, n: int) -> Seq<DegenerateFace>
    decreases n,
{
    if n <= 0 {
        seq![]
    } else {
        let b = degenerate_list(st, n - 1);
        match st[n - 1] {
            FaceStatus::Degenerate(k) => b.push(DegenerateFace { face: (n - 1) as u32, kind: k }),
            _ => b,
        }
    }
}

/// The analysed faces below `n` that are not on the outer shell, each with its class and cells.
pub open spec fn internal_list(st: Seq<FaceStatus>, x: GeometryFacts, n: int) -> Seq<InternalFace>
    decreases n,
{
    if n <= 0 {
        seq![]
    } else {
        let b = internal_list(st, x, n - 1);
        let f = n - 1;
        if st[f] is Analysed && face_class_at(x, f) != FaceClass::Boundary {
            b.push(
                InternalFace {
                    face: f as u32,
                    class: face_class_at(x, f),
                    front_cell: x.front_cell@[f],
                    back_cell: x.back_cell@[f],
                },
            )
        } else {
            b
        }
    }
}

/// Each face's front and back cells; `[NONE, NONE]` for a face that is not analysed.
pub open spec fn cells_list(st: Seq<FaceStatus>, x: GeometryFacts, n: int) -> Seq<[u32; 2]> {
    Seq::new(
        n as nat,
        |f: int|
            if st[f] is Analysed {
                [x.front_cell@[f], x.back_cell@[f]]
            } else {
                [NONE, NONE]
            },
    )
}

/// What the face pass lists and counts.
pub struct FacePass {
    pub invalid: Vec<InvalidFace>,
    pub invalid_ids: Vec<u32>,
    pub degenerate: Vec<DegenerateFace>,
    pub degenerate_ids: Vec<u32>,
    pub duplicate_ids: Vec<u32>,
    pub analysed: usize,
    pub boundary: usize,
    pub partition: usize,
    pub nested_shell: usize,
    pub sheet: usize,
    pub exterior: usize,
    pub exterior_ids: Vec<u32>,
    pub inverted: Vec<u32>,
    pub internal: Vec<InternalFace>,
    pub unreachable: bool,
    pub face_cells: Vec<[u32; 2]>,
}

/// The face pass: each face's status sorted into the lists, and each analysed face classified
/// from its cells.
pub fn face_pass(status: &Vec<FaceStatus>, x: &GeometryFacts) -> (r: FacePass)
    requires
        status@.len() <= u32::MAX,
        x.front_cell@.len() == status@.len(),
        x.back_cell@.len() == status@.len(),
    ensures
        ({
            let (st, n) = (status@, status@.len() as int);
            &&& r.invalid@ == invalid_list(st, n)
            &&& r.invalid_ids@ == faces_where(invalid_face(st), n)
            &&& r.degenerate@ == degenerate_list(st, n)
            &&& r.degenerate_ids@ == faces_where(degenerate_face(st), n)
            &&& r.duplicate_ids@ == faces_where(duplicate_face(st), n)
            &&& r.analysed == count_where(analysed_face(st), n)
            &&& r.boundary == count_where(analysed_as(st, *x, FaceClass::Boundary), n)
            &&& r.partition == count_where(analysed_as(st, *x, FaceClass::Partition), n)
            &&& r.nested_shell == count_where(analysed_as(st, *x, FaceClass::NestedShell), n)
            &&& r.sheet == count_where(analysed_as(st, *x, FaceClass::Sheet), n)
            &&& r.exterior == count_where(analysed_as(st, *x, FaceClass::Exterior), n)
            &&& r.exterior_ids@ == faces_where(analysed_as(st, *x, FaceClass::Exterior), n)
            &&& r.inverted@ == faces_where(inverted_face(st, *x), n)
            &&& r.internal@ == internal_list(st, *x, n)
            &&& r.unreachable == exists|f: int| 0 <= f < n && st[f] is Analysed && #[trigger] unreachable_at(*x, f)
            &&& r.face_cells@ == cells_list(st, *x, n)
        }),
{
    let ghost st = status@;
    let n = status.len();
    let mut r = FacePass {
        invalid: Vec::new(),
        invalid_ids: Vec::new(),
        degenerate: Vec::new(),
        degenerate_ids: Vec::new(),
        duplicate_ids: Vec::new(),
        analysed: 0,
        boundary: 0,
        partition: 0,
        nested_shell: 0,
        sheet: 0,
        exterior: 0,
        exterior_ids: Vec::new(),
        inverted: Vec::new(),
        internal: Vec::new(),
        unreachable: false,
        face_cells: Vec::new(),
    };
    let mut f: usize = 0;
    while f < n
        invariant
            f <= n == st.len() <= u32::MAX,
            st == status@,
            x.front_cell@.len() == n && x.back_cell@.len() == n,
            r.invalid@ == invalid_list(st, f as int),
            r.invalid_ids@ == faces_where(invalid_face(st), f as int),
            r.degenerate@ == degenerate_list(st, f as int),
            r.degenerate_ids@ == faces_where(degenerate_face(st), f as int),
            r.duplicate_ids@ == faces_where(duplicate_face(st), f as int),
            r.analysed == count_where(analysed_face(st), f as int),
            r.boundary == count_where(analysed_as(st, *x, FaceClass::Boundary), f as int),
            r.partition == count_where(analysed_as(st, *x, FaceClass::Partition), f as int),
            r.nested_shell == count_where(analysed_as(st, *x, FaceClass::NestedShell), f as int),
            r.sheet == count_where(analysed_as(st, *x, FaceClass::Sheet), f as int),
            r.exterior == count_where(analysed_as(st, *x, FaceClass::Exterior), f as int),
            r.exterior_ids@ == faces_where(analysed_as(st, *x, FaceClass::Exterior), f as int),
            r.inverted@ == faces_where(inverted_face(st, *x), f as int),
            r.internal@ == internal_list(st, *x, f as int),
            r.unreachable == exists|g: int| 0 <= g < f && st[g] is Analysed && #[trigger] unreachable_at(*x, g),
            r.face_cells@ == cells_list(st, *x, f as int),
        decreases n - f,
    {
        proof {
            lemma_count_le(analysed_face(st), f as int);
            lemma_count_le(analysed_as(st, *x, FaceClass::Boundary), f as int);
            lemma_count_le(analysed_as(st, *x, FaceClass::Partition), f as int);
            lemma_count_le(analysed_as(st, *x, FaceClass::NestedShell), f as int);
            lemma_count_le(analysed_as(st, *x, FaceClass::Sheet), f as int);
            lemma_count_le(analysed_as(st, *x, FaceClass::Exterior), f as int);
        }
        let fi = f as u32;
        let (cf, cb) = (x.front_cell[f], x.back_cell[f]);
        let ghost old_unreachable = r.unreachable;
        match status[f] {
            FaceStatus::Invalid(c) => {
                r.invalid.push(InvalidFace { face: fi, cause: c });
                r.invalid_ids.push(fi);
            },
            FaceStatus::Degenerate(k) => {
                r.degenerate.push(DegenerateFace { face: fi, kind: k });
                r.degenerate_ids.push(fi);
            },
            FaceStatus::Duplicate(_) => {
                r.duplicate_ids.push(fi);
            },
            FaceStatus::Analysed => {
                r.analysed = r.analysed + 1;
                let df = if (cf as usize) < x.depth.len() {
                    x.depth[cf as usize]
                } else {
                    NONE
                };
                let db = if (cb as usize) < x.depth.len() {
                    x.depth[cb as usize]
                } else {
                    NONE
                };
                let (class, inverted) = face_class(cf, cb, df, db);
                assert(class == face_class_at(*x, f as int));
                match class {
                    FaceClass::Boundary => {
                        r.boundary = r.boundary + 1;
                    },
                    FaceClass::Partition => {
                        r.partition = r.partition + 1;
                    },
                    FaceClass::NestedShell => {
                        r.nested_shell = r.nested_shell + 1;
                    },
                    FaceClass::Sheet => {
                        r.sheet = r.sheet + 1;
                    },
                    FaceClass::Exterior => {
                        r.exterior = r.exterior + 1;
                        r.exterior_ids.push(fi);
                    },
                }
                if inverted {
                    r.inverted.push(fi);
                }
                if !matches!(class, FaceClass::Boundary) {
                    r.internal.push(InternalFace { face: fi, class, front_cell: cf, back_cell: cb });
                }
                if df == NONE || db == NONE {
                    r.unreachable = true;
                    assert(unreachable_at(*x, f as int));
                }
            },
        }
        if matches!(status[f], FaceStatus::Analysed) {
            r.face_cells.push([cf, cb]);
        } else {
            r.face_cells.push([NONE, NONE]);
        }
        proof {
            assert(r.face_cells@ =~= cells_list(st, *x, f + 1));
            if r.unreachable && !old_unreachable {
                assert(st[f as int] is Analysed && unreachable_at(*x, f as int));
            }
        }
        f = f + 1;
    }
    r
}

/// Face `f` is in pair `k`.
pub open spec fn in_pair(pairs: Seq<[u32; 2]>, k: int, f: int) -> bool {
    pairs[k][0] == f || pairs[k][1] == f
}

/// Faces in some intersecting pair.
pub open spec fn intersecting_face(pairs: Seq<[u32; 2]>) -> spec_fn(int) -> bool {
    |f: int| exists|k: int| 0 <= k < pairs.len() && #[trigger] in_pair(pairs, k, f)
}

/// The faces below `n` in some pair, ascending.
pub fn intersecting_faces(pairs: &Vec<[u32; 2]>, n: usize) -> (r: Vec<u32>)
    requires
        n <= u32::MAX + 1,
    ensures
        r@ == faces_where(intersecting_face(pairs@), n as int),
{
    let ghost ps = pairs@;
    let mut mark: Vec<bool> = vec![false; n];
    let mut k: usize = 0;
    while k < pairs.len()
        invariant
            k <= ps.len(),
            ps == pairs@,
            mark@.len() == n,
            forall|f: int| 0 <= f < n ==> #[trigger] mark@[f] == exists|j: int| 0 <= j < k && #[trigger] in_pair(ps, j, f),
        decreases ps.len() - k,
    {
        let ghost old_mark = mark@;
        let pair = pairs[k];
        let (a, b) = (pair[0], pair[1]);
        if (a as usize) < n {
            mark.set(a as usize, true);
        }
        if (b as usize) < n {
            mark.set(b as usize, true);
        }
        assert forall|f: int| 0 <= f < n implies #[trigger] mark@[f] == exists|j: int|
            0 <= j < k + 1 && #[trigger] in_pair(ps, j, f) by {
            if in_pair(ps, k as int, f) {
                assert(mark@[f]);
            } else {
                assert(mark@[f] == old_mark[f]);
                if exists|j: int| 0 <= j < k + 1 && #[trigger] in_pair(ps, j, f) {
                    let j = choose|j: int| 0 <= j < k + 1 && #[trigger] in_pair(ps, j, f);
                    assert(j < k);
                }
            }
        }
        k = k + 1;
    }
    let mut out: Vec<u32> = Vec::new();
    let mut f: usize = 0;
    while f < n
        invariant
            f <= n <= u32::MAX + 1,
            ps == pairs@,
            mark@.len() == n,
            forall|g: int| 0 <= g < n ==> #[trigger] mark@[g] == exists|j: int| 0 <= j < ps.len() && #[trigger] in_pair(ps, j, g),
            out@ == faces_where(intersecting_face(ps), f as int),
        decreases n - f,
    {
        if mark[f] {
            out.push(f as u32);
        }
        f = f + 1;
    }
    out
}

// ---------------------------------------------------------------------------------------------
// The check
// ---------------------------------------------------------------------------------------------

/// Each vertex's position id as [`position_ids`] gives it.
pub open spec fn spec_pids(keys: Seq<[u64; 3]>, finite: Seq<bool>) -> Seq<u32> {
    Seq::new(
        finite.len(),
        |i: int|
            (if finite[i] {
                first_same(keys, finite, i, 0)
            } else {
                i
            }) as u32,
    )
}

/// Each face's status ([`status_of`]) under the facts.
pub open spec fn facts_status(faces: Seq<[u32; 3]>, x: GeometryFacts) -> Seq<FaceStatus> {
    Seq::new(
        faces.len(),
        |f: int| status_of(x.finite@.len() as int, x.finite@, x.zero_area@, faces, spec_pids(x.keys@, x.finite@), f),
    )
}

/// `cen` is the edge census of `tris` ([`census`]): strictly ascending, each edge `u < v` with
/// its uses in face order, and every used edge in it.
pub open spec fn is_census(cen: Seq<CensusEdge>, tris: Seq<[u32; 3]>, st: Seq<FaceStatus>) -> bool {
    &&& forall|p: int, q: int|
        0 <= p < q < cen.len() ==> crate::census::edge_key((#[trigger] cen[p]).vertices[0], cen[p].vertices[1])
            < crate::census::edge_key((#[trigger] cen[q]).vertices[0], cen[q].vertices[1])
    &&& forall|p: int|
        0 <= p < cen.len() ==> {
            let e = #[trigger] cen[p];
            &&& e.vertices[0] < e.vertices[1]
            &&& e.uses@ == edge_uses(tris, st, e.vertices[0], e.vertices[1], tris.len() as int)
            &&& e.uses@.len() > 0
        }
    &&& forall|u: u32, v: u32|
        u < v && #[trigger] edge_uses(tris, st, u, v, tris.len() as int).len() > 0 ==> exists|p: int|
            0 <= p < cen.len() && (#[trigger] cen[p]).vertices[0] == u && cen[p].vertices[1] == v
}

/// Vertices at the position of a lower-numbered one.
pub open spec fn coincident_vertex(pid: Seq<u32>) -> spec_fn(int) -> bool {
    |i: int| pid[i] != i
}

/// Vertices with a coordinate that is not finite.
pub open spec fn non_finite_vertex(finite: Seq<bool>) -> spec_fn(int) -> bool {
    |i: int| !finite[i]
}

/// Vertices no face with in-range indices uses.
pub open spec fn unreferenced_vertex(tris: Seq<[u32; 3]>, nv: int) -> spec_fn(int) -> bool {
    |i: int| !referenced(tris, nv, i)
}

/// The check's result, by face index and vertex index; every list ascending.
pub struct CheckReport {
    pub verdict: Verdict,
    /// Empty exactly when the verdict is passed; in reason-code order.
    pub reasons: Vec<Reason>,
    pub counts: Counts,
    /// False when faces intersect, a component could not be placed, rays tied or a cell is
    /// unreachable.
    pub topology_reliable: bool,
    /// Edges used other than twice, in the census or by the analysed faces, classified.
    pub edges: Vec<EdgeFinding>,
    pub invalid_faces: Vec<InvalidFace>,
    pub degenerate_faces: Vec<DegenerateFace>,
    pub duplicate_faces: Vec<DuplicateFace>,
    /// Intersecting face pairs `[i, j]`, `i < j`.
    pub self_intersections: Vec<[u32; 2]>,
    pub inverted_faces: Vec<u32>,
    /// Every analysed face that is not on the outer shell.
    pub internal_faces: Vec<InternalFace>,
    /// Per face, the cell on its front and on its back; `[NONE, NONE]` (`u32::MAX`) for a face
    /// that is not analysed.
    pub face_cells: Vec<[u32; 2]>,
    /// The enclosed cells (all but the exterior, cell 0).
    pub cells: Vec<CellReport>,
}

/// An enclosed cell: its id (1, 2, ...), its depth, and how many analysed faces have it on
/// exactly one side. Its volume is measured on coordinates, by the caller.
pub struct CellReport {
    pub id: u32,
    pub depth: u32,
    pub faces: usize,
}

/// Analysed faces with cell `c` on exactly one side.
pub open spec fn bounds_cell(st: Seq<FaceStatus>, x: GeometryFacts, c: int) -> spec_fn(int) -> bool {
    |f: int|
        st[f] is Analysed && x.front_cell@[f] != x.back_cell@[f] && (x.front_cell@[f] == c || x.back_cell@[f] == c)
}

/// The enclosed cells, each with its depth and the analysed faces that bound it
/// ([`bounds_cell`]).
pub fn cell_reports(status: &Vec<FaceStatus>, x: &GeometryFacts) -> (r: Vec<CellReport>)
    requires
        status@.len() <= u32::MAX,
        x.front_cell@.len() == status@.len(),
        x.back_cell@.len() == status@.len(),
        x.depth@.len() <= u32::MAX,
    ensures
        r@.len() == (if x.depth@.len() > 0 {
            x.depth@.len() - 1
        } else {
            0
        }),
        forall|k: int|
            0 <= k < r@.len() ==> {
                let c = #[trigger] r@[k];
                &&& c.id == k + 1
                &&& c.depth == x.depth@[k + 1]
                &&& c.faces == count_where(bounds_cell(status@, *x, k + 1), status@.len() as int)
            },
{
    let ghost st = status@;
    let nc = x.depth.len();
    let mut counts: Vec<usize> = vec![0usize; nc];
    let mut f: usize = 0;
    while f < status.len()
        invariant
            f <= st.len() <= u32::MAX,
            st == status@,
            x.front_cell@.len() == st.len() && x.back_cell@.len() == st.len(),
            counts@.len() == nc == x.depth@.len(),
            forall|c: int| 0 <= c < nc ==> #[trigger] counts@[c] == count_where(bounds_cell(st, *x, c), f as int),
        decreases st.len() - f,
    {
        let ghost old_counts = counts@;
        proof {
            assert forall|c: int| 0 <= c < nc implies #[trigger] old_counts[c] <= f by {
                lemma_count_le(bounds_cell(st, *x, c), f as int);
            }
        }
        let (cf, cb) = (x.front_cell[f], x.back_cell[f]);
        if matches!(status[f], FaceStatus::Analysed) && cf != cb {
            if (cf as usize) < nc {
                let v = counts[cf as usize];
                counts.set(cf as usize, v + 1);
            }
            if (cb as usize) < nc {
                let v = counts[cb as usize];
                counts.set(cb as usize, v + 1);
            }
        }
        assert forall|c: int| 0 <= c < nc implies #[trigger] counts@[c] == count_where(bounds_cell(st, *x, c), f + 1) by {
            assert(count_where(bounds_cell(st, *x, c), f + 1) == count_where(bounds_cell(st, *x, c), f as int) + if bounds_cell(st, *x, c)(f as int) {
                1nat
            } else {
                0nat
            });
        }
        f = f + 1;
    }
    let mut out: Vec<CellReport> = Vec::new();
    let mut c: usize = 1;
    while c < nc
        invariant
            1 <= c,
            c <= nc || (nc == 0 && c == 1),
            nc == x.depth@.len() <= u32::MAX,
            counts@.len() == nc,
            forall|q: int| 0 <= q < nc ==> #[trigger] counts@[q] == count_where(bounds_cell(status@, *x, q), status@.len() as int),
            out@.len() == c - 1,
            forall|k: int|
                0 <= k < out@.len() ==> {
                    let e = #[trigger] out@[k];
                    &&& e.id == k + 1
                    &&& e.depth == x.depth@[k + 1]
                    &&& e.faces == count_where(bounds_cell(status@, *x, k + 1), status@.len() as int)
                },
        decreases nc - c,
    {
        out.push(CellReport { id: c as u32, depth: x.depth[c], faces: counts[c] });
        c = c + 1;
    }
    out
}

/// What the reasons are made from, as the report's faces and facts give it.
pub open spec fn holds_findings(fd: Findings, faces: Seq<[u32; 3]>, x: GeometryFacts, r: CheckReport) -> bool {
    let st = facts_status(faces, x);
    let n = faces.len() as int;
    &&& fd.faces == n
    &&& fd.invalid@ == faces_where(invalid_face(st), n)
    &&& fd.degenerate@ == faces_where(degenerate_face(st), n)
    &&& fd.duplicates@ == faces_where(duplicate_face(st), n)
    &&& fd.pairs == x.pairs@.len()
    &&& fd.intersecting@ == faces_where(intersecting_face(x.pairs@), n)
    &&& fd.open_edges == r.counts.boundary_open_edges
    &&& fd.exterior@ == faces_where(analysed_as(st, x, FaceClass::Exterior), n)
    &&& fd.coincident == r.counts.coincident_vertices
    &&& fd.cells == x.depth@.len()
    &&& fd.inverted@ == faces_where(inverted_face(st, x), n)
    &&& fd.unplaced == x.unresolved + x.ambiguous
}

proof fn lemma_edge_uses_bounds(tris: Seq<[u32; 3]>, st: Seq<FaceStatus>, u: u32, v: u32, n: int)
    requires
        0 <= n <= u32::MAX,
    ensures
        edge_uses(tris, st, u, v, n).len() <= n,
        forall|j: int|
            0 <= j < edge_uses(tris, st, u, v, n).len() ==> (#[trigger] edge_uses(tris, st, u, v, n)[j]).face
                < n,
    decreases n,
{
    if n > 0 {
        lemma_edge_uses_bounds(tris, st, u, v, n - 1);
    }
}

/// Checks the faces under the facts the caller decided on coordinates: each face's status
/// ([`facts_status`]), the edge census and its classes, each analysed face's class from its
/// cells, the counts, the reasons ([`spec_reasons`]) and the verdict, which refuses the faces
/// when any reason holds.
pub fn check(faces: &Vec<[u32; 3]>, facts: &GeometryFacts) -> (r: CheckReport)
    requires
        facts.keys@.len() == facts.finite@.len(),
        facts.finite@.len() <= u32::MAX,
        faces@.len() <= u32::MAX,
        facts.zero_area@.len() == faces@.len(),
        facts.groups@.len() == faces@.len(),
        facts.front_cell@.len() == faces@.len(),
        facts.back_cell@.len() == faces@.len(),
        facts.unresolved + facts.ambiguous <= usize::MAX,
        facts.depth@.len() <= u32::MAX,
    ensures
        ({
            let st = facts_status(faces@, *facts);
            let n = faces@.len() as int;
            let nv = facts.finite@.len() as int;
            let pid = spec_pids(facts.keys@, facts.finite@);
            &&& r.invalid_faces@ == invalid_list(st, n)
            &&& r.degenerate_faces@ == degenerate_list(st, n)
            &&& r.duplicate_faces@ == repeats_before(nv, facts.finite@, facts.zero_area@, faces@, pid, facts.groups@, n)
            &&& r.self_intersections@ == facts.pairs@
            &&& r.inverted_faces@ == faces_where(inverted_face(st, *facts), n)
            &&& r.internal_faces@ == internal_list(st, *facts, n)
            &&& r.face_cells@ == cells_list(st, *facts, n)
            &&& r.cells@.len() == r.counts.cells
            &&& forall|k: int|
                0 <= k < r.cells@.len() ==> {
                    let c = #[trigger] r.cells@[k];
                    &&& c.id == k + 1
                    &&& c.depth == facts.depth@[k + 1]
                    &&& c.faces == count_where(bounds_cell(st, *facts, k + 1), n)
                }
            &&& r.topology_reliable == (facts.pairs@.len() == 0 && facts.unresolved == 0 && facts.ambiguous == 0
                && facts.ties == 0 && !exists|f: int| 0 <= f < n && st[f] is Analysed && #[trigger] unreachable_at(*facts, f))
            &&& r.counts.vertices == nv
            &&& r.counts.faces == n
            &&& r.counts.analysed_faces == count_where(analysed_face(st), n)
            &&& r.counts.invalid_faces == invalid_list(st, n).len()
            &&& r.counts.degenerate_faces == degenerate_list(st, n).len()
            &&& r.counts.duplicate_faces == r.duplicate_faces@.len()
            &&& r.counts.self_intersecting_pairs == facts.pairs@.len()
            &&& r.counts.self_intersecting_faces == faces_where(intersecting_face(facts.pairs@), n).len()
            &&& r.counts.boundary_faces == count_where(analysed_as(st, *facts, FaceClass::Boundary), n)
            &&& r.counts.partition_faces == count_where(analysed_as(st, *facts, FaceClass::Partition), n)
            &&& r.counts.nested_shell_faces == count_where(analysed_as(st, *facts, FaceClass::NestedShell), n)
            &&& r.counts.sheet_faces == count_where(analysed_as(st, *facts, FaceClass::Sheet), n)
            &&& r.counts.exterior_faces == count_where(analysed_as(st, *facts, FaceClass::Exterior), n)
            &&& r.counts.inverted_faces == r.inverted_faces@.len()
            &&& r.counts.orientation_conflict_edges == facts.conflicts
            &&& r.counts.components == facts.components
            &&& r.counts.cells == (if facts.depth@.len() > 0 {
                facts.depth@.len() - 1
            } else {
                0
            })
            &&& r.counts.coincident_vertices == count_where(coincident_vertex(pid), nv)
            &&& r.counts.non_finite_vertices == count_where(non_finite_vertex(facts.finite@), nv)
            &&& r.counts.unreferenced_vertices == count_where(unreferenced_vertex(faces@, nv), nv)
            &&& r.counts.invalid_faces + r.counts.degenerate_faces + r.counts.duplicate_faces + r.counts.analysed_faces
                == r.counts.faces
            &&& r.counts.boundary_faces + r.counts.partition_faces + r.counts.nested_shell_faces + r.counts.sheet_faces
                + r.counts.exterior_faces == r.counts.analysed_faces
            &&& exists|cen: Seq<CensusEdge>|
                #[trigger] is_census(cen, faces@, st) && {
                    let m = cen.len() as int;
                    &&& r.edges@.map_values(|e: EdgeFinding| finding_view(e)) == findings_of(cen, st, facts.edge_exterior@, m)
                    &&& r.counts.edges == m
                    &&& r.counts.open_edges + r.counts.manifold_edges + r.counts.nonmanifold_edges == m
                    &&& r.counts.edge_uses@ == histogram(cen, m)
                    &&& r.counts.open_edges == count_where(used_once(cen), m)
                    &&& r.counts.manifold_edges == count_where(used_twice(cen), m)
                    &&& r.counts.nonmanifold_edges == count_where(used_more(cen), m)
                    &&& r.counts.junction_edges == count_where(junction_at(cen, st), m)
                    &&& r.counts.boundary_open_edges == count_where(
                        listed_as(cen, st, facts.edge_exterior@, EdgeClass::BoundaryOpen),
                        m,
                    )
                    &&& r.counts.internal_free_edges == count_where(
                        listed_as(cen, st, facts.edge_exterior@, EdgeClass::InternalFree),
                        m,
                    )
                }
            &&& exists|fd: Findings| #[trigger] holds_findings(fd, faces@, *facts, r) && views(r.reasons@) == spec_reasons(fd)
            &&& r.verdict == if r.reasons@.len() == 0 {
                Verdict::Passed
            } else {
                Verdict::Refused
            }
        }),
{
    let ghost n = faces@.len() as int;
    let nv = facts.finite.len();
    let nf = faces.len();
    let pid = position_ids(&facts.keys, &facts.finite);
    proof {
        assert(pid@ =~= spec_pids(facts.keys@, facts.finite@));
    }
    let (status, duplicates) = face_status(nv, &facts.finite, &facts.zero_area, faces, &pid, &facts.groups);
    let ghost st = status@;
    proof {
        assert(st =~= facts_status(faces@, *facts));
    }
    let cen = census(faces, &status);
    proof {
        assert forall|p: int| 0 <= p < cen@.len() implies (#[trigger] cen@[p]).uses@.len() <= u32::MAX && forall|j: int|
            0 <= j < cen@[p].uses@.len() ==> (#[trigger] cen@[p].uses@[j]).face < status@.len() by {
            let e = cen@[p];
            lemma_edge_uses_bounds(faces@, st, e.vertices[0], e.vertices[1], n);
        }
    }
    let es = classify_edges(&cen, &status, &facts.edge_exterior);
    let fp = face_pass(&status, facts);
    let intersecting = intersecting_faces(&facts.pairs, nf);
    let (coincident, non_finite, unreferenced) = vertex_counts(nv, &facts.finite, &pid, faces);
    proof {
        assert(coincident_vertex(spec_pids(facts.keys@, facts.finite@)) =~= (|i: int| pid@[i] != i));
        assert(non_finite_vertex(facts.finite@) =~= (|i: int| !facts.finite@[i]));
        assert(unreferenced_vertex(faces@, nv as int) =~= (|i: int| !referenced(faces@, nv as int, i)));
    }
    let FacePass {
        invalid,
        invalid_ids,
        degenerate,
        degenerate_ids,
        duplicate_ids,
        analysed,
        boundary,
        partition,
        nested_shell,
        sheet,
        exterior,
        exterior_ids,
        inverted,
        internal,
        unreachable,
        face_cells,
    } = fp;
    let EdgeSummary { edges, histogram, open, manifold, nonmanifold, junctions, boundary_open, internal_free } = es;
    let n_intersecting = intersecting.len();
    let n_invalid = invalid.len();
    let n_degenerate = degenerate.len();
    let n_duplicates = duplicates.len();
    let n_inverted = inverted.len();
    let findings = Findings {
        faces: nf,
        invalid: invalid_ids,
        degenerate: degenerate_ids,
        duplicates: duplicate_ids,
        pairs: facts.pairs.len(),
        intersecting,
        open_edges: boundary_open,
        exterior: exterior_ids,
        coincident,
        cells: facts.depth.len(),
        inverted: vstd::slice::slice_to_vec(inverted.as_slice()),
        unplaced: facts.unresolved + facts.ambiguous,
    };
    let reasons = reasons(&findings);
    let verdict = verdict(&reasons);
    let counts = Counts {
        vertices: nv,
        faces: nf,
        analysed_faces: analysed,
        edges: cen.len(),
        open_edges: open,
        manifold_edges: manifold,
        nonmanifold_edges: nonmanifold,
        edge_uses: histogram,
        invalid_faces: n_invalid,
        degenerate_faces: n_degenerate,
        duplicate_faces: n_duplicates,
        self_intersecting_pairs: facts.pairs.len(),
        self_intersecting_faces: n_intersecting,
        boundary_faces: boundary,
        partition_faces: partition,
        nested_shell_faces: nested_shell,
        sheet_faces: sheet,
        exterior_faces: exterior,
        inverted_faces: n_inverted,
        boundary_open_edges: boundary_open,
        internal_free_edges: internal_free,
        junction_edges: junctions,
        orientation_conflict_edges: facts.conflicts,
        components: facts.components,
        cells: if facts.depth.len() > 0 {
            facts.depth.len() - 1
        } else {
            0
        },
        coincident_vertices: coincident,
        unreferenced_vertices: unreferenced,
        non_finite_vertices: non_finite,
    };
    let topology_reliable = facts.pairs.len() == 0 && facts.unresolved == 0 && facts.ambiguous == 0 && facts.ties
        == 0 && !unreachable;
    let r = CheckReport {
        verdict,
        reasons,
        counts,
        topology_reliable,
        edges,
        invalid_faces: invalid,
        degenerate_faces: degenerate,
        duplicate_faces: duplicates,
        self_intersections: vstd::slice::slice_to_vec(facts.pairs.as_slice()),
        inverted_faces: inverted,
        internal_faces: internal,
        face_cells,
        cells: cell_reports(&status, facts),
    };
    proof {
        lemma_lists_len(st, n);
        lemma_status_partition(st, n);
        lemma_class_partition(st, *facts, n);
        lemma_repeats_len(faces@, *facts, n);
        lemma_edge_partition(cen@, cen@.len() as int);
        assert(is_census(cen@, faces@, st));
        assert(holds_findings(findings, faces@, *facts, r));
    }
    r
}

impl CheckReport {
    /// Whether the verdict is passed.
    pub fn is_ok(&self) -> (r: bool)
        ensures
            r == (self.verdict == Verdict::Passed),
    {
        matches!(self.verdict, Verdict::Passed)
    }

    /// The reason with this code, if it applies: the first one listed.
    pub fn reason(&self, code: ReasonCode) -> (r: Option<&Reason>)
        ensures
            match r {
                None => forall|k: int| 0 <= k < self.reasons@.len() ==> (#[trigger] self.reasons@[k]).code != code,
                Some(x) => exists|k: int|
                    0 <= k < self.reasons@.len() && #[trigger] self.reasons@[k] == *x && x.code == code && forall|j: int|
                        0 <= j < k ==> (#[trigger] self.reasons@[j]).code != code,
            },
    {
        let mut k: usize = 0;
        while k < self.reasons.len()
            invariant
                k <= self.reasons@.len(),
                forall|j: int| 0 <= j < k ==> (#[trigger] self.reasons@[j]).code != code,
            decreases self.reasons@.len() - k,
        {
            if self.reasons[k].code == code {
                return Some(&self.reasons[k]);
            }
            k = k + 1;
        }
        None
    }
}

proof fn lemma_lists_len(st: Seq<FaceStatus>, n: int)
    requires
        0 <= n,
    ensures
        invalid_list(st, n).len() == count_where(invalid_face(st), n),
        degenerate_list(st, n).len() == count_where(degenerate_face(st), n),
    decreases n,
{
    if n > 0 {
        lemma_lists_len(st, n - 1);
    }
}

/// Every face is exactly one of invalid, degenerate, a repeat or analysed.
proof fn lemma_status_partition(st: Seq<FaceStatus>, n: int)
    requires
        0 <= n,
    ensures
        count_where(invalid_face(st), n) + count_where(degenerate_face(st), n) + count_where(duplicate_face(st), n)
            + count_where(analysed_face(st), n) == n,
    decreases n,
{
    if n > 0 {
        lemma_status_partition(st, n - 1);
    }
}

/// Every analysed face has exactly one class.
proof fn lemma_class_partition(st: Seq<FaceStatus>, x: GeometryFacts, n: int)
    requires
        0 <= n,
    ensures
        count_where(analysed_as(st, x, FaceClass::Boundary), n) + count_where(analysed_as(st, x, FaceClass::Partition), n)
            + count_where(analysed_as(st, x, FaceClass::NestedShell), n) + count_where(
            analysed_as(st, x, FaceClass::Sheet),
            n,
        ) + count_where(analysed_as(st, x, FaceClass::Exterior), n) == count_where(analysed_face(st), n),
    decreases n,
{
    if n > 0 {
        lemma_class_partition(st, x, n - 1);
    }
}

/// The repeats [`repeats_before`] lists are the faces whose status is a repeat.
proof fn lemma_repeats_len(faces: Seq<[u32; 3]>, x: GeometryFacts, n: int)
    requires
        0 <= n <= faces.len(),
    ensures
        repeats_before(
            x.finite@.len() as int,
            x.finite@,
            x.zero_area@,
            faces,
            spec_pids(x.keys@, x.finite@),
            x.groups@,
            n,
        ).len() == count_where(duplicate_face(facts_status(faces, x)), n),
    decreases n,
{
    if n > 0 {
        lemma_repeats_len(faces, x, n - 1);
    }
}

/// Every census edge is used once, twice, or three times or more.
proof fn lemma_edge_partition(cen: Seq<CensusEdge>, n: int)
    requires
        0 <= n <= cen.len(),
        forall|p: int| 0 <= p < cen.len() ==> (#[trigger] cen[p]).uses@.len() > 0,
    ensures
        count_where(used_once(cen), n) + count_where(used_twice(cen), n) + count_where(used_more(cen), n) == n,
    decreases n,
{
    if n > 0 {
        lemma_edge_partition(cen, n - 1);
        assert(cen[n - 1].uses@.len() > 0);
    }
}
/// Two conditions that hold of the same edges count the same.
proof fn lemma_count_same(a: spec_fn(int) -> bool, b: spec_fn(int) -> bool, n: int)
    requires
        forall|p: int| 0 <= p < n ==> #[trigger] a(p) == b(p),
    ensures
        count_where(a, n) == count_where(b, n),
    decreases n,
{
    if n > 0 {
        lemma_count_same(a, b, n - 1);
    }
}

/// An edge that one analysed face uses is always listed, and is an open boundary exactly when
/// its one side faces the exterior (its exterior count is at least 1); otherwise it is the free
/// edge of a face inside a room, such as a reflector's, and is not an open boundary.
pub proof fn lemma_one_use_edge(cen: Seq<CensusEdge>, st: Seq<FaceStatus>, ext: Seq<u32>, p: int)
    requires
        0 <= p < cen.len(),
        analysed_uses(st, cen[p].uses@) == 1,
    ensures
        listed_at(cen, st, p),
        ext_at(ext, p) == 0 ==> class_at(cen, st, ext, p) == EdgeClass::InternalFree,
        ext_at(ext, p) >= 1 ==> class_at(cen, st, ext, p) == EdgeClass::BoundaryOpen,
{
}

/// The open boundary edges the edge pass counts ([`classify_edges`]) are exactly the edges one
/// analysed face uses whose side faces the exterior, and the free inner edges exactly those whose
/// side does not.
pub proof fn lemma_open_edge_counts(cen: Seq<CensusEdge>, st: Seq<FaceStatus>, ext: Seq<u32>)
    ensures
        count_where(listed_as(cen, st, ext, EdgeClass::BoundaryOpen), cen.len() as int) == count_where(
            |p: int| analysed_uses(st, cen[p].uses@) == 1 && ext_at(ext, p) >= 1,
            cen.len() as int,
        ),
        count_where(listed_as(cen, st, ext, EdgeClass::InternalFree), cen.len() as int) == count_where(
            |p: int| analysed_uses(st, cen[p].uses@) == 1 && ext_at(ext, p) == 0,
            cen.len() as int,
        ),
{
    lemma_count_same(
        listed_as(cen, st, ext, EdgeClass::BoundaryOpen),
        |p: int| analysed_uses(st, cen[p].uses@) == 1 && ext_at(ext, p) >= 1,
        cen.len() as int,
    );
    lemma_count_same(
        listed_as(cen, st, ext, EdgeClass::InternalFree),
        |p: int| analysed_uses(st, cen[p].uses@) == 1 && ext_at(ext, p) == 0,
        cen.len() as int,
    );
}

/// What an edge is, by how many analysed faces use it and how many of its wedges face the
/// exterior: none, unanalysed; one, an open boundary when its side faces the exterior and a free
/// inner edge otherwise; two, manifold (whatever faces the exterior); three or more, a junction
/// inside when no wedge faces the exterior, on the boundary when one does, pinched when more do.
pub proof fn lemma_edge_classes(cen: Seq<CensusEdge>, st: Seq<FaceStatus>, ext: Seq<u32>, p: int)
    requires
        0 <= p < cen.len(),
    ensures
        ({
            let k = analysed_uses(st, cen[p].uses@);
            let x = ext_at(ext, p);
            let c = class_at(cen, st, ext, p);
            &&& k == 0 <==> c == EdgeClass::Unanalysed
            &&& k == 2 <==> c == EdgeClass::Manifold
            &&& c == EdgeClass::BoundaryOpen <==> (k == 1 && x > 0)
            &&& c == EdgeClass::InternalFree <==> (k == 1 && x == 0)
            &&& c == EdgeClass::InternalJunction <==> (k >= 3 && x == 0)
            &&& c == EdgeClass::BoundaryJunction <==> (k >= 3 && x == 1)
            &&& c == EdgeClass::PinchedBoundary <==> (k >= 3 && x >= 2)
        }),
{
}

} // verus!
