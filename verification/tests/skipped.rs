use simpa_core::groups::{refined_faces, ReceiverShape};
use simpa_core::skipped::{map_skipped, SkippedFacet, ZoneFacets};

#[test]
fn skipped_markers_map_to_faces_groups_and_box_zones() {
    let groups = vec!["Floor".to_string(), String::new(), "Walls".to_string()];
    let zones = vec![ZoneFacets { zone: "Box".to_string(), solver_id: 7, first_marker: 3 }];
    let got = map_skipped(&vec![2, 0, 14, 2, 5, 1], 3, &groups, &zones);
    assert_eq!(
        got,
        vec![
            SkippedFacet { marker: 0, scene_face: Some(0), group: Some("Floor".to_string()), fitting_zone: None },
            SkippedFacet { marker: 1, scene_face: Some(1), group: None, fitting_zone: None },
            SkippedFacet { marker: 2, scene_face: Some(2), group: Some("Walls".to_string()), fitting_zone: None },
            SkippedFacet { marker: 5, scene_face: None, group: None, fitting_zone: Some("Box".to_string()) },
            SkippedFacet { marker: 14, scene_face: None, group: None, fitting_zone: Some("Box".to_string()) },
        ]
    );
}

#[test]
fn refined_faces_are_those_of_enabled_receivers() {
    let face_groups = vec![10u128, 20, 30, 20, 10];
    let receivers = vec![
        (true, ReceiverShape::Scene(vec![20u128])),
        (false, ReceiverShape::Scene(vec![10])),
        (true, ReceiverShape::Scene(vec![])),
        (true, ReceiverShape::CuttingPlane),
    ];
    assert_eq!(refined_faces(&face_groups, &receivers), vec![1, 3]);
}
