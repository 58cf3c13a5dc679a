use simpa_core::import::{ImportError, ObjGroups};
use simpa_core::obj::{obj_text, read_obj_rows, ObjRows};

const SQUARE: &str = "v 0 0 0\nv 1 0 0\nv 0 1 0\nv 1 1 0\n";

fn rows(text: &str, mode: ObjGroups) -> ObjRows {
    match obj_text(text, mode) {
        Ok(r) => r,
        Err(e) => panic!("{e:?}"),
    }
}

#[test]
fn faces_resolve_absolute_and_relative_references() {
    let r = rows(&format!("{SQUARE}g wall\nf 1 2 3\nf -1 -3 -2\n"), ObjGroups::Auto);
    assert_eq!(r.texts.len(), 4);
    assert_eq!(r.texts[1], ("1".to_string(), "0".to_string(), "0".to_string()));
    assert_eq!(r.polygons, vec![(vec![0, 1, 2], 0), (vec![3, 1, 2], 0)]);
    assert_eq!(r.groups, vec!["wall"]);
    assert_eq!(r.notes, vec!["faces grouped by `g`/`o` name"]);
}

#[test]
fn groups_follow_usemtl_when_the_file_has_one() {
    let text = format!("{SQUARE}usemtl brick  red\ng a\nf 1 2 3\nusemtl glass\nf 1/1/1 2//2 3/4\ng b\nf 2 3 4\n");
    let r = rows(&text, ObjGroups::Auto);
    assert_eq!(r.groups, vec!["brick red", "glass"]);
    assert_eq!(r.polygons, vec![(vec![0, 1, 2], 0), (vec![0, 1, 2], 1), (vec![1, 2, 3], 1)]);
    assert_eq!(r.notes, vec!["faces grouped by `usemtl` material"]);
    let r = rows(&text, ObjGroups::Group);
    assert_eq!(r.groups, vec!["a", "b"]);
    assert_eq!(r.polygons, vec![(vec![0, 1, 2], 0), (vec![0, 1, 2], 0), (vec![1, 2, 3], 1)]);
    let r = rows(&format!("{SQUARE}f 1 2 3\n"), ObjGroups::Material);
    assert_eq!(r.groups, vec!["default"]);
}

#[test]
fn comments_lines_and_points_are_skipped_and_counted() {
    let text = "# a square\nv 0 0 0 # origin\nv 1 0 0 1.0\nv 0 1 0\nvt 0 0\nl 1 2\np 1\np 2\no\nf 1 2 3 # the face\n";
    let r = rows(text, ObjGroups::Auto);
    assert_eq!(r.texts[0], ("0".to_string(), "0".to_string(), "0".to_string()));
    assert_eq!(r.groups, vec!["default"]);
    assert_eq!(
        r.notes,
        vec![
            "faces grouped by `g`/`o` name",
            "1 line elements (`l`) ignored",
            "2 point elements (`p`) ignored",
        ]
    );
}

#[test]
fn a_face_may_name_a_vertex_defined_after_it() {
    let r = rows("f 1 2 3\nv 0 0 0\nv 1 0 0\nv 0 1 0\n", ObjGroups::Auto);
    assert_eq!(r.polygons, vec![(vec![0, 1, 2], 0)]);
}

fn refusal(text: &str) -> (String, String) {
    match obj_text(text, ObjGroups::Auto) {
        Err(ImportError::Syntax { location, message, .. }) => (location, message),
        Err(ImportError::Invalid { message, .. }) => ("invalid".to_string(), message),
        Err(e) => panic!("{e:?}"),
        Ok(_) => panic!("read"),
    }
}

#[test]
fn malformed_statements_are_refused() {
    assert_eq!(refusal("v 1 2\n"), ("line 1".to_string(), "a vertex needs three coordinates".to_string()));
    assert_eq!(refusal("v 1 2 z\n"), ("line 1".to_string(), "`z` is not a number".to_string()));
    assert_eq!(refusal("v 1 2 3\n\nf a 1 1\n"), ("line 3".to_string(), "`a` is not a vertex reference".to_string()));
    assert_eq!(
        refusal("f 0 1 2\n"),
        ("invalid".to_string(), "line 1: vertex index 0 (OBJ indices start at 1)".to_string())
    );
    assert_eq!(
        refusal("v 0 0 0\nf -2 1 1\n"),
        ("invalid".to_string(), "line 2: relative vertex -2 reaches before the first vertex".to_string())
    );
    assert_eq!(
        refusal("v 0 0 0\nf 1 1\n"),
        ("invalid".to_string(), "line 2: a face with 2 vertices; a face needs 3 or more".to_string())
    );
    assert_eq!(
        refusal("v 0 0 0\nf 1 2 3\n"),
        ("invalid".to_string(), "line 2: vertex 2, but the file has 1 vertices".to_string())
    );
}

#[test]
fn bytes_that_are_not_utf8_are_read_lossily() {
    let r = read_obj_rows(b"v 0 0 0\nv 1 0 0\nv 0 1 0\ng \xff\nf 1 2 3\n", ObjGroups::Auto).unwrap();
    assert_eq!(r.groups, vec!["\u{fffd}"]);
    let r = read_obj_rows(SQUARE.as_bytes(), ObjGroups::Auto).unwrap();
    assert!(r.polygons.is_empty());
}
