use simpa_core::import::ImportError;
use simpa_core::ply::{assemble, header, read_ply_rows, Encoding, PlyRows, PropKind, Scalar, Value};

const TRIANGLE: &str = "ply\nformat ascii 1.0\ncomment one triangle\nelement vertex 3\n\
property float x\nproperty float y\nproperty float z\nelement face 1\n\
property list uchar int vertex_indices\nend_header\n0 0 0\n1 0 0\n0 1 0\n3 0 1 2\n";

fn text_of(bytes: &[u8], v: Value) -> &str {
    match v {
        Value::F32Text(s, e) | Value::F64Text(s, e) => std::str::from_utf8(&bytes[s..e]).unwrap(),
        other => panic!("not a token: {other:?}"),
    }
}

fn rows(bytes: &[u8]) -> PlyRows {
    match read_ply_rows(bytes) {
        Ok(r) => r,
        Err(e) => panic!("{e:?}"),
    }
}

fn names_of(rows: &PlyRows) -> Vec<String> {
    rows.layer_names
        .iter()
        .map(|items| {
            let bytes: Vec<u8> = items
                .iter()
                .map(|v| match v {
                    Value::Int(c) => *c as u8,
                    other => panic!("not a character: {other:?}"),
                })
                .collect();
            String::from_utf8_lossy(&bytes).into_owned()
        })
        .collect()
}

#[test]
fn an_ascii_triangle_is_read() {
    let b = TRIANGLE.as_bytes();
    let (enc, els, body) = header(b).unwrap();
    assert_eq!(enc, Encoding::Ascii);
    assert_eq!(els.len(), 2);
    assert_eq!(els[0].name, b"vertex");
    assert_eq!(els[0].count, 3);
    assert_eq!(els[0].properties.len(), 3);
    assert_eq!(els[0].properties[1].name, b"y");
    assert_eq!(els[0].properties[1].kind, PropKind::Scalar(Scalar::F32));
    assert_eq!(els[1].properties[0].kind, PropKind::List(Scalar::U8, Scalar::I32));
    assert_eq!(&b[body..], b"0 0 0\n1 0 0\n0 1 0\n3 0 1 2\n");

    let r = rows(b);
    assert_eq!(r.encoding, Encoding::Ascii);
    assert_eq!(r.vertices.len(), 3);
    assert_eq!(text_of(b, r.vertices[1].0), "1");
    assert_eq!(text_of(b, r.vertices[2].1), "1");
    assert_eq!(r.faces, vec![(vec![0, 1, 2], 0)]);
    assert!(!r.layered);
    assert_eq!(r.trailing, 0);

    let (polys, groups, notes) = assemble(&r.faces, r.layered, &names_of(&r), 3, r.encoding, r.trailing).unwrap();
    assert_eq!(polys, vec![(vec![0, 1, 2], 0)]);
    assert_eq!(groups, vec!["model".to_string()]);
    assert!(notes.is_empty());
}

#[test]
fn binary_files_are_read_in_their_byte_order() {
    let mut little = b"ply\r\nformat binary_little_endian 1.0\r\nelement vertex 3\r\nproperty float x\r\n\
property float y\r\nproperty float z\r\nelement face 1\r\nproperty list uchar uint vertex_indices\r\n\
end_header\r\n"
        .to_vec();
    let mut big = little.clone();
    let at = big.windows(20).position(|w| w == b"binary_little_endian").unwrap();
    big.splice(at..at + 20, b"binary_big_endian".iter().copied());
    for p in [[0.0f32, 0.0, 0.0], [1.5, 0.0, 0.0], [0.0, -2.0, 0.25]] {
        for c in p {
            little.extend_from_slice(&c.to_le_bytes());
            big.extend_from_slice(&c.to_be_bytes());
        }
    }
    little.push(3);
    big.push(3);
    for i in [0u32, 1, 2] {
        little.extend_from_slice(&i.to_le_bytes());
        big.extend_from_slice(&i.to_be_bytes());
    }
    little.extend_from_slice(b"xy");
    for (bytes, enc) in [(&little, Encoding::Little), (&big, Encoding::Big)] {
        let r = rows(bytes);
        assert_eq!(r.encoding, enc);
        assert_eq!(r.vertices[1].0, Value::F32Bits(1.5f32.to_bits()));
        assert_eq!(r.vertices[2].1, Value::F32Bits((-2.0f32).to_bits()));
        assert_eq!(r.vertices[2].2, Value::F32Bits(0.25f32.to_bits()));
        assert_eq!(r.faces, vec![(vec![0, 1, 2], 0)]);
    }
    assert_eq!(rows(&little).trailing, 2);
    assert_eq!(rows(&big).trailing, 0);
    let r = rows(&little);
    let (_, _, notes) = assemble(&r.faces, false, &vec![], 3, r.encoding, r.trailing).unwrap();
    assert_eq!(notes, vec!["2 bytes after the last element were ignored".to_string()]);
}

#[test]
fn layers_become_groups_in_id_order() {
    let text = "ply\nformat ascii 1.0\nelement vertex 4\nproperty int x\nproperty int y\nproperty int z\n\
element face 3\nproperty list uchar int vertex_indices\nproperty int layer_id\n\
element layer 3\nproperty list uchar uchar layer_name\nend_header\n\
0 0 0\n1 0 0\n0 1 0\n0 0 1\n3 0 1 2 2\n3 0 1 3 0\n3 1 2 3 5\n\
4 119 97 108 108\n5 102 108 111 111 114\n3 115 107 121\n";
    let b = text.as_bytes();
    let r = rows(b);
    assert!(r.layered);
    assert_eq!(r.vertices[1].0, Value::Int(1));
    let names = names_of(&r);
    assert_eq!(names, vec!["wall", "floor", "sky"]);
    let (polys, groups, notes) = assemble(&r.faces, r.layered, &names, 4, r.encoding, r.trailing).unwrap();
    assert_eq!(groups, vec!["wall", "sky", "Layer 5"]);
    assert_eq!(polys, vec![(vec![0, 1, 2], 1), (vec![0, 1, 3], 0), (vec![1, 2, 3], 2)]);
    assert_eq!(
        notes,
        vec![
            "layer_id 5 has no layer_name; its group is named `Layer 5`",
            "layer 1 `floor` holds no face",
        ]
    );
}

#[test]
fn layer_names_without_layer_ids_are_noted() {
    let names = vec!["a".to_string(), "b".to_string()];
    let faces = vec![(vec![0, 1, 2], 0)];
    let (_, groups, notes) = assemble(&faces, false, &names, 3, Encoding::Ascii, 4).unwrap();
    assert_eq!(groups, vec!["model"]);
    assert_eq!(
        notes,
        vec![
            "4 values after the last element were ignored",
            "2 layer names were ignored: faces have no layer_id",
        ]
    );
}

#[test]
fn bad_faces_and_layers_are_invalid() {
    let faces = vec![(vec![0, 1, 2], 0), (vec![0, 7, 1], 0)];
    match assemble(&faces, false, &vec![], 3, Encoding::Ascii, 0) {
        Err(ImportError::Invalid { format, message }) => {
            assert_eq!(format, "ply");
            assert_eq!(message, "face 1 uses vertex 7, but there are 3 vertices");
        }
        other => panic!("{other:?}"),
    }
    let faces = vec![(vec![0, 1], 0)];
    match assemble(&faces, false, &vec![], 3, Encoding::Ascii, 0) {
        Err(ImportError::Invalid { message, .. }) => {
            assert_eq!(message, "face 0 has 2 vertices; a face needs 3 or more")
        }
        other => panic!("{other:?}"),
    }
    let faces = vec![(vec![0, 1, 2], 3), (vec![0, 1, 2], -2)];
    match assemble(&faces, true, &vec![], 3, Encoding::Ascii, 0) {
        Err(ImportError::Invalid { message, .. }) => assert_eq!(message, "layer_id -2 is negative"),
        other => panic!("{other:?}"),
    }
}

#[test]
fn malformed_headers_are_refused_by_kind() {
    let code = |text: &str| match read_ply_rows(text.as_bytes()) {
        Err(e) => e.code(),
        Ok(_) => "ok",
    };
    assert_eq!(code("solid x\n"), "syntax");
    assert_eq!(code(""), "syntax");
    assert_eq!(code("ply\nformat ascii 1.0\nelement vertex 0\n"), "truncated");
    assert_eq!(code("ply\nformat ascii 2.0\nend_header\n"), "unsupported");
    assert_eq!(code("ply\nformat ascii 1.0\nformat ascii 1.0\nend_header\n"), "syntax");
    assert_eq!(code("ply\nformat ascii 1.0\nproperty float x\nend_header\n"), "syntax");
    assert_eq!(code("ply\nformat ascii 1.0\nelement vertex 1\nproperty real x\nend_header\n"), "syntax");
    assert_eq!(code("ply\nformat ascii 1.0\nwhat\nend_header\n"), "syntax");
    assert_eq!(code("ply\nelement vertex 0\nend_header\n"), "syntax");
    assert_eq!(code("ply\nformat ascii 1.0\nelement vertex 0\nend_header\n"), "invalid");
}

#[test]
fn short_bodies_are_truncated() {
    let code = |text: &str| match read_ply_rows(text.as_bytes()) {
        Err(e) => e.code(),
        Ok(_) => "ok",
    };
    let head = "ply\nformat ascii 1.0\nelement vertex 3\nproperty float x\nproperty float y\n\
property float z\nelement face 1\nproperty list uchar int vertex_indices\nend_header\n";
    assert_eq!(code(&format!("{head}0 0 0\n1 0 0\n0 1 0\n3 0 1 2\n")), "ok");
    assert_eq!(code(&format!("{head}0 0 0\n1 0 0\n0 1 0\n3 0 1\n")), "truncated");
    assert_eq!(code(&format!("{head}0 0 0\n1 0 0\n")), "truncated");
    assert_eq!(code(&format!("{head}0 0 0\n1 0 0\n0 1 zero\n3 0 1 2\n")), "syntax");
    assert_eq!(code(&format!("{head}0 0 0\n1 0 0\n0 1 0\n3 0 1 -2\n")), "invalid");
}

#[test]
fn layer_name_replaces_invalid_bytes() {
    assert_eq!(simpa_core::ply::layer_name(b"wall"), "wall");
    assert_eq!(simpa_core::ply::layer_name(&[b'a', 0xff]), "a\u{FFFD}");
}
