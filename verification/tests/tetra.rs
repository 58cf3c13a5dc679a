use simpa_core::tetra::{face_counts, same_winding, tetra_counts, unknown_volume_ids, Orientation, TetFace, Tetra};
use simpa_core::volumes::VolumeIds;

fn face(vertices: [i32; 3], neighbor: i32, marker: i32) -> TetFace {
    TetFace { vertices, neighbor, marker }
}

/// A tetrahedron on corners `0 1 2 3` with its faces wound as the convention asks, no neighbours,
/// and markers `0 1 2 3`.
fn lone() -> Tetra {
    Tetra {
        vertices: [0, 1, 2, 3],
        faces: [face([1, 3, 2], -2, 0), face([2, 3, 0], -2, 1), face([0, 3, 1], -2, 2), face([1, 2, 0], -2, 3)],
        id_volume: 1,
    }
}

#[test]
fn a_well_formed_tetrahedron_passes_the_tetrahedron_checks() {
    let r = tetra_counts(&vec![lone()], 4, &vec![Orientation::Negative]);
    assert_eq!((r.index_errors, r.degenerate_tets, r.inverted_tets, r.misordered_faces), (0, 0, 0, 0));
}

#[test]
fn a_positive_tetrahedron_is_inverted() {
    let r = tetra_counts(&vec![lone()], 4, &vec![Orientation::Positive]);
    assert_eq!((r.degenerate_tets, r.inverted_tets), (0, 1));
}

#[test]
fn an_unresolved_or_repeated_tetrahedron_is_degenerate_and_not_ordered() {
    let mut t = lone();
    t.faces[0].vertices = [1, 2, 3];
    let r = tetra_counts(&vec![t], 4, &vec![Orientation::Unresolved]);
    assert_eq!((r.degenerate_tets, r.misordered_faces), (1, 0));
    let mut t = lone();
    t.vertices = [0, 1, 1, 3];
    let r = tetra_counts(&vec![t], 4, &vec![Orientation::Negative]);
    assert_eq!(r.degenerate_tets, 1);
}

#[test]
fn a_face_wound_the_wrong_way_is_misordered_and_a_rotation_is_not() {
    let mut t = lone();
    t.faces[0].vertices = [1, 2, 3];
    t.faces[1].vertices = [3, 0, 2];
    let r = tetra_counts(&vec![t], 4, &vec![Orientation::Negative]);
    assert_eq!(r.misordered_faces, 1);
    assert!(same_winding([3, 2, 1], 1, 3, 2));
    assert!(!same_winding([1, 2, 3], 1, 3, 2));
}

#[test]
fn indices_out_of_range_are_counted_one_each() {
    let mut t = lone();
    t.vertices[3] = 9;
    t.faces[1].vertices[0] = -1;
    t.faces[2].neighbor = 5;
    let r = tetra_counts(&vec![t], 4, &vec![Orientation::Negative]);
    // One corner, one face node, one neighbour; a tetrahedron with a bad corner is not checked further.
    assert_eq!((r.index_errors, r.degenerate_tets, r.misordered_faces), (3, 0, 0));
}

#[test]
fn a_lone_tetrahedron_covers_its_markers_only() {
    let r = face_counts(&vec![lone()], 6, &vec![false, false, false, false, false, true]);
    assert_eq!(r.nonmutual_neighbors, 0);
    assert_eq!(r.unmarked_boundary_faces, 0);
    assert_eq!(r.uncovered_scene_faces, 1);
    assert_eq!(r.uncovered_scene_faces_first, vec![4]);
}

#[test]
fn two_sides_of_an_internal_face_with_different_markers_are_asymmetric() {
    let a = Tetra {
        vertices: [0, 1, 2, 3],
        faces: [face([1, 3, 2], 1, 7), face([2, 3, 0], -2, -1), face([0, 3, 1], -2, -1), face([1, 2, 0], -2, -1)],
        id_volume: 1,
    };
    let b = Tetra {
        vertices: [4, 1, 2, 3],
        faces: [face([2, 1, 3], 0, 5), face([2, 3, 4], -2, -1), face([4, 3, 1], -2, -1), face([1, 2, 4], -2, -1)],
        id_volume: 1,
    };
    let r = face_counts(&vec![a, b], 8, &vec![false; 8]);
    assert_eq!(r.asymmetric_internal_faces, 2);
    assert_eq!(r.nonmutual_neighbors, 0);
    assert_eq!(r.unmarked_boundary_faces, 6);
    assert_eq!(r.uncovered_scene_faces, 6);
    assert_eq!(r.uncovered_scene_faces_first, vec![0, 1, 2, 3, 4, 6]);
}

#[test]
fn a_neighbour_that_does_not_name_the_face_back_is_nonmutual() {
    let a = Tetra {
        vertices: [0, 1, 2, 3],
        faces: [face([1, 3, 2], 1, 0), face([2, 3, 0], -2, 0), face([0, 3, 1], -2, 0), face([1, 2, 0], -2, 0)],
        id_volume: 1,
    };
    let b = Tetra {
        vertices: [4, 1, 2, 3],
        faces: [face([2, 1, 3], -2, 0), face([2, 3, 4], -2, 0), face([4, 3, 1], -2, 0), face([1, 2, 4], -2, 9)],
        id_volume: 1,
    };
    let r = face_counts(&vec![a, b], 1, &vec![false]);
    // Face 0 of the first names the second, which does not name it back; face 0 of the second has
    // no neighbour while the first's face holds its three nodes.
    assert_eq!(r.nonmutual_neighbors, 2);
    assert_eq!(r.marker_out_of_range, 1);
    assert_eq!(r.uncovered_scene_faces, 0);
}

fn with_id(id: i32) -> Tetra {
    let mut t = lone();
    t.id_volume = id;
    t
}

#[test]
fn a_room_part_past_a_gap_is_an_unknown_volume_id() {
    let tets = vec![with_id(1), with_id(3), with_id(2), with_id(5), with_id(2)];
    let (present, unknown) = unknown_volume_ids(&tets, &VolumeIds::tetgen(Vec::new()));
    assert_eq!(present, vec![1, 2, 3, 5]);
    assert_eq!(unknown, 1);
}

#[test]
fn a_room_written_zero_beside_fittings_is_unknown() {
    let tets = vec![with_id(7), with_id(8), with_id(0), with_id(0)];
    let (present, unknown) = unknown_volume_ids(&tets, &VolumeIds::tetgen(vec![7]));
    assert_eq!(present, vec![0, 7, 8]);
    assert_eq!(unknown, 2);
}
