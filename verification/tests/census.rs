use simpa_core::cells::{face_class, NONE};
use simpa_core::census::{census, face_status, position_ids, same_cycle, vertex_counts, FaceStatus};
use simpa_core::check::{DegenerateKind, FaceClass, InvalidCause};

fn key(x: f64, y: f64, z: f64) -> [u64; 3] {
    [(x + 0.0).to_bits(), (y + 0.0).to_bits(), (z + 0.0).to_bits()]
}

#[test]
fn position_ids_point_at_the_first_vertex_at_a_position() {
    let keys = vec![
        key(0.0, 0.0, 0.0),
        key(1.0, 0.0, 0.0),
        key(0.0, -0.0, 0.0),
        key(f64::NAN, 0.0, 0.0),
        key(1.0, 0.0, 0.0),
    ];
    let finite = vec![true, true, true, false, true];
    assert_eq!(position_ids(&keys, &finite), vec![0, 1, 0, 3, 1]);
}

#[test]
fn face_status_in_the_checks_order() {
    // Vertices 0..4 finite, 4 not; vertex 5 sits at vertex 0's position.
    let finite = vec![true, true, true, true, false, true];
    let pid = vec![0, 1, 2, 3, 4, 0];
    let tris = vec![
        [0, 1, 9], // index out of range
        [0, 1, 4], // a vertex that is not finite
        [0, 0, 1], // repeated vertex
        [0, 1, 3], // zero area (as the caller decided)
        [0, 1, 2], // analysed
        [1, 2, 5], // same positions as face 4, same cycle
        [2, 1, 0], // same positions, reversed
        [1, 2, 3], // analysed
    ];
    let zero = vec![false, false, false, true, false, false, false, false];
    let groups = vec![7u128, 7, 7, 7, 7, 7, 8, 7];
    let (status, repeats) = face_status(6, &finite, &zero, &tris, &pid, &groups);
    assert_eq!(
        status,
        vec![
            FaceStatus::Invalid(InvalidCause::IndexOutOfRange),
            FaceStatus::Invalid(InvalidCause::NonFiniteVertex),
            FaceStatus::Degenerate(DegenerateKind::RepeatedVertex),
            FaceStatus::Degenerate(DegenerateKind::ZeroArea),
            FaceStatus::Analysed,
            FaceStatus::Duplicate(4),
            FaceStatus::Duplicate(4),
            FaceStatus::Analysed,
        ]
    );
    assert_eq!(repeats.len(), 2);
    assert_eq!((repeats[0].face, repeats[0].duplicate_of), (5, 4));
    assert!(repeats[0].same_orientation && repeats[0].same_group);
    assert_eq!((repeats[1].face, repeats[1].duplicate_of), (6, 4));
    assert!(!repeats[1].same_orientation && !repeats[1].same_group);
}

#[test]
fn same_cycle_is_rotation_only() {
    assert!(same_cycle((1, 2, 3), (2, 3, 1)));
    assert!(same_cycle((1, 2, 3), (3, 1, 2)));
    assert!(!same_cycle((1, 2, 3), (3, 2, 1)));
}

#[test]
fn face_classes_from_their_cells() {
    assert_eq!(face_class(0, 0, 0, 0), (FaceClass::Exterior, false));
    assert_eq!(face_class(2, 2, 1, 1), (FaceClass::Sheet, false));
    assert_eq!(face_class(0, 1, 0, 1), (FaceClass::Boundary, false));
    assert_eq!(face_class(1, 2, 1, 1), (FaceClass::Partition, false));
    assert_eq!(face_class(2, 1, 2, 1), (FaceClass::NestedShell, true));
    assert_eq!(face_class(1, 2, 1, 2), (FaceClass::NestedShell, false));
    assert_eq!(face_class(2, 1, NONE, 1), (FaceClass::NestedShell, false));
}

#[test]
fn the_census_lists_each_edge_with_its_uses_in_face_order() {
    let tris = vec![[0, 1, 2], [0, 2, 3], [5, 5, 1], [0, 1, 9], [1, 0, 3]];
    let status = vec![
        FaceStatus::Analysed,
        FaceStatus::Analysed,
        FaceStatus::Degenerate(DegenerateKind::RepeatedVertex),
        FaceStatus::Invalid(InvalidCause::IndexOutOfRange),
        FaceStatus::Analysed,
    ];
    let edges = census(&tris, &status);
    let got: Vec<([u32; 2], Vec<(u32, bool, u32)>)> = edges
        .iter()
        .map(|e| (e.vertices, e.uses.iter().map(|u| (u.face, u.fwd, u.third)).collect()))
        .collect();
    assert_eq!(
        got,
        vec![
            ([0, 1], vec![(0, true, 2), (4, false, 3)]),
            ([0, 2], vec![(0, false, 1), (1, true, 3)]),
            ([0, 3], vec![(1, false, 2), (4, true, 1)]),
            ([1, 2], vec![(0, true, 0)]),
            ([1, 3], vec![(4, false, 0)]),
            ([1, 5], vec![(2, false, 5)]),
            ([2, 3], vec![(1, true, 0)]),
        ]
    );
}

#[test]
fn vertex_counts_of_a_small_mesh() {
    let finite = vec![true, true, true, false, true, true];
    let pid = vec![0, 1, 2, 3, 1, 5];
    let tris = vec![[0, 1, 2], [2, 3, 9], [1, 2, 3]];
    // Vertex 4 sits at vertex 1; vertex 3 is not finite; 4 and 5 are unused (face 1 is out of range).
    assert_eq!(vertex_counts(6, &finite, &pid, &tris), (1, 1, 2));
}
