use simpa_core::repair::{
    renumber_vertices, repair_faces, repair_status, DegenerateCause, FaceChange, FaceInputs, RepairStatus,
};

#[test]
fn welded_vertices_take_their_targets_number() {
    // Vertex 2 welds into 0, vertex 4 into 1.
    let target = vec![0, 1, 0, 3, 1];
    let (map, stay) = renumber_vertices(&target);
    assert_eq!(map, vec![0, 1, 0, 2, 1]);
    assert_eq!(stay, vec![0, 1, 3]);
}

#[test]
fn degenerate_and_repeated_faces_are_removed() {
    let x = FaceInputs {
        finite: vec![true, true, true, true, true],
        target: vec![0, 1, 0, 3, 1],
        tris: vec![
            [0, 1, 3], // kept
            [0, 0, 1], // repeated vertex
            [0, 1, 2], // collapsed by welding (2 -> 0)
            [2, 4, 3], // welded, the same three vertices as face 0: a repeat
            [3, 1, 0], // reversed repeat of face 0
            [1, 3, 9], // out of range: kept as it is
            [0, 3, 1], // zero area
        ],
        zero_area: vec![false, false, false, false, false, false, true],
        zero_area_welded: vec![false; 7],
        groups: vec![1, 1, 1, 1, 2, 1, 1],
    };
    let r = repair_faces(&x);
    assert_eq!(r.kept, vec![0, 5]);
    assert_eq!(r.faces, vec![(0, 1, 2), (1, 2, 9)]);
    assert_eq!(r.face_map, vec![Some(0), None, None, None, None, Some(1), None]);
    assert_eq!(
        r.changes,
        vec![
            FaceChange::RemoveDegenerateFace { face: 1, cause: DegenerateCause::RepeatedVertex },
            FaceChange::RemoveDegenerateFace { face: 2, cause: DegenerateCause::CollapsedByWeld },
            FaceChange::RemoveDuplicateFace { face: 3, duplicate_of: 0, same_orientation: true, same_group: true },
            FaceChange::RemoveDuplicateFace { face: 4, duplicate_of: 0, same_orientation: false, same_group: false },
            FaceChange::RemoveDegenerateFace { face: 6, cause: DegenerateCause::ZeroArea },
        ]
    );
}

#[test]
fn the_status_of_a_repair() {
    assert_eq!(repair_status(false, true), RepairStatus::Refused);
    assert_eq!(repair_status(true, true), RepairStatus::Repaired);
    assert_eq!(repair_status(true, false), RepairStatus::Unchanged);
}
