use simpa_core::basename::basenames;

fn names(v: &[&str]) -> Vec<String> {
    v.iter().map(|s| s.to_string()).collect()
}

#[test]
fn a_complete_set_wins_over_a_partial_one() {
    let found = basenames(&names(&[
        "room.1.node",
        "room.1.ele",
        "room.1.face",
        "other_skipped.face",
        "notes.txt",
    ]));
    assert_eq!(found, vec!["room"]);
}

#[test]
fn partial_sets_count_when_no_set_is_complete() {
    let found = basenames(&names(&["b.1.NODE", "a_skipped.face", "b.1.face", "scene.poly"]));
    assert_eq!(found, vec!["a", "b"]);
    assert!(basenames(&names(&["scene.poly", "x.1.edge"])).is_empty());
}

#[test]
fn bases_are_distinct_and_ascending_whatever_the_case_of_the_suffix() {
    let found = basenames(&names(&["zeta.1.ele", "Alpha.1.ELE", "mid.1.Ele", "zeta.1.ele", "é.1.ele"]));
    assert_eq!(found, vec!["Alpha", "mid", "zeta", "é"]);
    assert_eq!(basenames(&names(&[".1.ele"])), vec![""]);
}
