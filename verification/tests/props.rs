use simpa_core::import::ImportError;
use simpa_core::props::{element_id, element_type, opt_prop_choice, opt_prop_text, project_text, source_elements};
use simpa_core::xml::{parse, XmlTree};

fn tree(text: &str) -> XmlTree {
    parse(text).ok().expect("well-formed")
}

#[test]
fn element_types_and_ids_are_trimmed_integers() {
    let t = tree("<a eid=\" 52 \" wxid=\"1930\"/>");
    assert_eq!(element_type(&t.nodes[1]), Some(52));
    assert_eq!(element_id(&t.nodes[1]), Some(1930));
    let t = tree("<a eid=\"x\"/>");
    assert_eq!(element_type(&t.nodes[1]), None);
    assert_eq!(element_id(&t.nodes[1]), None);
}

#[test]
fn properties_are_read_by_name() {
    let t = tree("<x><p name=\"loi\" choice=\" 3\"/><p name=\"bad\" choice=\"x\"/><p name=\"t\" textValue=\"hi\"/></x>");
    assert_eq!(opt_prop_choice(&t, 1, "loi").ok(), Some(Some(3)));
    assert_eq!(opt_prop_choice(&t, 1, "none").ok(), Some(None));
    assert!(matches!(opt_prop_choice(&t, 1, "bad"), Err(ImportError::Invalid { .. })));
    assert_eq!(opt_prop_text(&t, 1, "t"), Some("hi".to_string()));
    assert_eq!(opt_prop_text(&t, 1, "loi"), None);
}

#[test]
fn the_project_name_and_description_come_from_its_configuration() {
    let t = tree("<projet><Configuration><p name=\"projectname\" textValue=\"  Room \"/></Configuration></projet>");
    let (name, desc) = project_text(&t, 1, 12, 3);
    assert_eq!(name, "Room");
    assert_eq!(desc, "Imported from an upstream I-Simpa project (12 faces, 3 surface groups).");
    let t = tree("<projet><Configuration><p name=\"projectname\" textValue=\" \"/><p name=\"projectdesc\" textValue=\"d\"/></Configuration></projet>");
    assert_eq!(project_text(&t, 1, 0, 0), ("Imported project".to_string(), "d".to_string()));
}

#[test]
fn sources_are_walked_through_nested_groups() {
    let t = tree(
        "<sources eid=\"15\"><source eid=\"16\" name=\"a\"/><sources eid=\"15\" name=\"Mill\"><sources eid=\"15\" name=\"Inner\"><source eid=\"16\" name=\"b\"/></sources></sources><source eid=\"16\" name=\"c\"/></sources>",
    );
    let found = source_elements(&t, 1).ok().expect("a well-formed source list");
    let named: Vec<(String, String)> = found
        .iter()
        .map(|(i, g)| (t.nodes[*i].attributes.iter().find(|a| a.0 == "name").unwrap().1.clone(), g.clone()))
        .collect();
    assert_eq!(
        named,
        vec![
            ("a".to_string(), String::new()),
            ("b".to_string(), "Mill / Inner".to_string()),
            ("c".to_string(), String::new()),
        ]
    );
}

#[test]
fn a_child_that_is_neither_source_nor_group_is_refused() {
    let t = tree("<sources eid=\"15\"><source eid=\"16\"/><sources eid=\"15\" name=\"g\"><x eid=\"7\"/></sources></sources>");
    match source_elements(&t, 1) {
        Err(ImportError::Refused { reason, .. }) => assert_eq!(reason, "proj_source_group_malformed"),
        _ => panic!("expected a refusal"),
    }
}
