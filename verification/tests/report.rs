use simpa_core::check::{EdgeClass, FaceClass, InvalidCause, ReasonCode, Verdict};
use simpa_core::report::{check, GeometryFacts};

/// A tetrahedron with outward faces: every face has the exterior (cell 0) in front and the room
/// (cell 1) behind.
fn tetrahedron() -> (Vec<[u32; 3]>, GeometryFacts) {
    let faces = vec![[0, 2, 1], [0, 1, 3], [1, 2, 3], [0, 3, 2]];
    let facts = GeometryFacts {
        keys: vec![[0, 0, 0], [1, 0, 0], [0, 1, 0], [0, 0, 1]],
        finite: vec![true; 4],
        zero_area: vec![false; 4],
        groups: vec![0; 4],
        front_cell: vec![0; 4],
        back_cell: vec![1; 4],
        depth: vec![0, 1],
        pairs: vec![],
        edge_exterior: vec![0; 6],
        components: 1,
        unresolved: 0,
        ambiguous: 0,
        ties: 0,
        conflicts: 0,
    };
    (faces, facts)
}

#[test]
fn closed_tetrahedron_passes() {
    let (faces, facts) = tetrahedron();
    let r = check(&faces, &facts);
    assert_eq!(r.verdict, Verdict::Passed);
    assert!(r.reasons.is_empty());
    assert!(r.topology_reliable);
    assert_eq!(r.counts.vertices, 4);
    assert_eq!(r.counts.faces, 4);
    assert_eq!(r.counts.analysed_faces, 4);
    assert_eq!(r.counts.edges, 6);
    assert_eq!(r.counts.manifold_edges, 6);
    assert_eq!(r.counts.open_edges, 0);
    assert_eq!(r.counts.boundary_faces, 4);
    assert_eq!(r.counts.cells, 1);
    assert_eq!(r.counts.edge_uses.get(&2), Some(&6));
    assert!(r.edges.is_empty());
    assert!(r.internal_faces.is_empty());
    assert_eq!(r.face_cells, vec![[0, 1]; 4]);
    assert_eq!(r.cells.len(), 1);
    assert_eq!((r.cells[0].id, r.cells[0].depth, r.cells[0].faces), (1, 1, 4));
}

#[test]
fn inverted_face_is_refused() {
    let (faces, mut facts) = tetrahedron();
    facts.front_cell[2] = 1;
    facts.back_cell[2] = 0;
    let r = check(&faces, &facts);
    assert_eq!(r.verdict, Verdict::Refused);
    assert_eq!(r.inverted_faces, vec![2]);
    assert_eq!(r.reasons.len(), 1);
    assert_eq!(r.reasons[0].code, ReasonCode::InvertedFaces);
    assert_eq!(r.reasons[0].faces, vec![2]);
    assert!(r.reasons[0].repairable);
}

#[test]
fn missing_face_leaves_open_edges() {
    let (mut faces, mut facts) = tetrahedron();
    faces.pop();
    facts.zero_area.pop();
    facts.groups.pop();
    facts.front_cell = vec![0, 0, 0];
    facts.back_cell = vec![0, 0, 0];
    facts.depth = vec![0];
    facts.edge_exterior = vec![1; 6];
    let r = check(&faces, &facts);
    assert_eq!(r.verdict, Verdict::Refused);
    assert_eq!(r.counts.open_edges, 3);
    assert_eq!(r.counts.boundary_open_edges, 3);
    assert_eq!(r.counts.exterior_faces, 3);
    let codes: Vec<ReasonCode> = r.reasons.iter().map(|x| x.code).collect();
    assert_eq!(codes, vec![ReasonCode::OpenBoundary, ReasonCode::NoEnclosedVolume]);
    assert_eq!(r.edges.len(), 3);
    assert!(r.edges.iter().all(|e| e.class == EdgeClass::BoundaryOpen && e.uses == 1));
    assert!(r.internal_faces.iter().all(|f| f.class == FaceClass::Exterior));
}

#[test]
fn out_of_range_and_repeated_faces() {
    let (mut faces, mut facts) = tetrahedron();
    faces.push([0, 1, 9]);
    faces.push([1, 3, 0]);
    for _ in 0..2 {
        facts.zero_area.push(false);
        facts.groups.push(0);
        facts.front_cell.push(u32::MAX);
        facts.back_cell.push(u32::MAX);
    }
    let r = check(&faces, &facts);
    assert_eq!(r.invalid_faces.len(), 1);
    assert_eq!(r.invalid_faces[0].face, 4);
    assert_eq!(r.invalid_faces[0].cause, InvalidCause::IndexOutOfRange);
    assert_eq!(r.duplicate_faces.len(), 1);
    assert_eq!(r.duplicate_faces[0].face, 5);
    assert_eq!(r.duplicate_faces[0].duplicate_of, 1);
    assert!(r.duplicate_faces[0].same_orientation);
    let codes: Vec<ReasonCode> = r.reasons.iter().map(|x| x.code).collect();
    assert_eq!(codes, vec![ReasonCode::InvalidFaces, ReasonCode::DuplicateFaces]);
    assert_eq!(r.counts.analysed_faces, 4);
    assert_eq!(r.face_cells[4], [u32::MAX, u32::MAX]);
    assert_eq!(r.face_cells[5], [u32::MAX, u32::MAX]);
}

#[test]
fn intersecting_pair_makes_topology_unreliable() {
    let (faces, mut facts) = tetrahedron();
    facts.pairs = vec![[0, 2]];
    let r = check(&faces, &facts);
    assert!(!r.topology_reliable);
    assert_eq!(r.counts.self_intersecting_faces, 2);
    assert_eq!(r.reasons[0].code, ReasonCode::SelfIntersections);
    assert_eq!(r.reasons[0].faces, vec![0, 2]);
}

#[test]
fn report_reason_lookup() {
    let (faces, mut facts) = tetrahedron();
    assert!(check(&faces, &facts).is_ok());
    facts.front_cell[0] = 1;
    facts.back_cell[0] = 0;
    let r = check(&faces, &facts);
    assert!(!r.is_ok());
    assert_eq!(r.reason(ReasonCode::InvertedFaces).map(|x| x.count), Some(1));
    assert!(r.reason(ReasonCode::OpenBoundary).is_none());
}
