use simpa_core::outcome::{fail, run_codes, status_of, MeshStatus, SkippedRead};

#[test]
fn a_code_is_listed_once_with_each_message() {
    let mut codes: Vec<String> = Vec::new();
    let mut messages: Vec<String> = Vec::new();
    fail(&mut codes, &mut messages, "tetgen_crash", "one".to_string());
    fail(&mut codes, &mut messages, "neigh_missing", "two".to_string());
    fail(&mut codes, &mut messages, "tetgen_crash", "three".to_string());
    assert_eq!(codes, vec!["tetgen_crash", "neigh_missing"]);
    assert_eq!(messages, vec!["one", "two", "three"]);
}

#[test]
fn the_status_follows_the_codes() {
    assert_eq!(status_of(&Vec::new()), MeshStatus::Succeeded);
    assert_eq!(status_of(&vec!["neigh_missing".to_string()]), MeshStatus::Failed);
    assert_eq!(
        status_of(&vec!["neigh_missing".to_string(), "cancelled".to_string()]),
        MeshStatus::Cancelled
    );
}

#[test]
fn a_run_gives_its_codes_in_order() {
    let stdout = vec!["  A self-intersection was detected. Program stopped.  ".to_string()];
    let (codes, skipped, stopped) = run_codes(false, Some(3), &stdout, SkippedRead::Absent, true, false);
    assert_eq!(codes, vec!["tetgen_exit_nonzero", "tetgen_self_intersection", "tetgen_output_missing", "neigh_missing"]);
    assert!(!skipped && stopped);
    let (codes, skipped, stopped) =
        run_codes(true, Some(0xC000_0005), &[], SkippedRead::Rows(4), false, true);
    assert_eq!(codes, vec!["cancelled", "tetgen_crash", "tetgen_exit_nonzero", "tetgen_skipped_facets"]);
    assert!(skipped && !stopped);
    let (codes, _, _) = run_codes(false, Some(0), &[], SkippedRead::Invalid, false, true);
    assert_eq!(codes, vec!["tetgen_output_invalid"]);
}
