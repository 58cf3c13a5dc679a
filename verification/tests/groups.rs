use simpa_core::groups::{distinct_keys, group_name, group_of, FaceTags};
use simpa_core::proj::{assign_faces, assign_zones, project_config, project_folder, Conflict};

#[test]
fn the_one_project_folder_is_found() {
    let names: Vec<String> = ["instance1/projet_config.xml", "instance1/report/x/projet_config.xml", "a.txt"]
        .iter()
        .map(|s| s.to_string())
        .collect();
    assert_eq!(project_config(&names).unwrap(), 0);
    assert_eq!(project_folder("instance1/projet_config.xml"), "instance1/");
    assert_eq!(project_folder("projet_config.xml"), "");
}

#[test]
fn no_project_folder_or_two_are_refused() {
    let none: Vec<String> = vec!["a/b/projet_config.xml".to_string(), "projet_config.xml.bak".to_string()];
    assert_eq!(project_config(&none).unwrap_err().code(), "invalid");
    let two: Vec<String> = vec!["a/projet_config.xml".to_string(), "projet_config.xml".to_string()];
    assert_eq!(project_config(&two).unwrap_err().code(), "unsupported");
}

#[test]
fn faces_go_to_the_one_list_naming_them() {
    let lists = vec![vec![0, 2, 2], vec![1]];
    assert_eq!(assign_faces(4, &lists).unwrap(), vec![Some(0), Some(1), Some(0), None]);
    let clash = vec![vec![0, 1], vec![3, 1, 0]];
    assert_eq!(assign_faces(4, &clash).unwrap_err(), Conflict { face: 1, first: 0, second: 1 });
}

#[test]
fn a_face_may_be_in_many_zones_but_one_enabled() {
    let zones = vec![(true, vec![0, 1]), (false, vec![1, 1]), (true, vec![2])];
    assert_eq!(assign_zones(3, &zones).unwrap(), vec![vec![0], vec![0, 1], vec![2]]);
    let clash = vec![(false, vec![1]), (true, vec![1]), (true, vec![0, 1])];
    assert_eq!(assign_zones(2, &clash).unwrap_err(), Conflict { face: 1, first: 1, second: 2 });
}

fn tags() -> FaceTags {
    FaceTags {
        group: vec![Some(1), Some(0), Some(1), None, Some(1)],
        receiver: vec![None, None, Some(0), None, None],
        zones: vec![vec![], vec![], vec![], vec![], vec![0, 1]],
    }
}

#[test]
fn surface_groups_are_the_distinct_keys_in_order() {
    let t = tags();
    let keys = distinct_keys(&t);
    // (0, 0, []), (1, 0, []), (1, 0, [0, 1]), (1, 1, []), (none, 0, [])
    assert_eq!(keys.len(), 5);
    assert_eq!(keys[0], 1);
    assert_eq!(keys[1], 0);
    assert_eq!(keys[2], 4);
    assert_eq!(keys[3], 2);
    assert_eq!(keys[4], 3);
    let of: Vec<usize> = (0..5).map(|f| group_of(&t, &keys, f)).collect();
    assert_eq!(of, vec![1, 0, 3, 4, 2]);
}

#[test]
fn surface_group_names_say_what_splits_them() {
    let t = tags();
    let keys = distinct_keys(&t);
    let groups = vec!["Floor".to_string(), "Walls".to_string()];
    let receivers = vec![Some("Rec".to_string())];
    let zones = vec!["Z1".to_string(), "Z2".to_string()];
    let names: Vec<String> = (0..keys.len())
        .map(|p| group_name(&t, &keys, p, &groups, &receivers, &zones))
        .collect();
    assert_eq!(
        names,
        vec!["Floor", "Walls", "Walls / Z1 + Z2", "Walls / Rec", "(no surface group)"]
    );
}
