use simpa_core::import::ImportError;
use simpa_core::scene::{non_finite_vertex, parse_scene_mesh};

fn node(kind: u16, next: u32, payload: &[u8]) -> Vec<u8> {
    let mut b = kind.to_le_bytes().to_vec();
    b.extend_from_slice(&[0, 0]);
    b.extend_from_slice(&0u32.to_le_bytes());
    b.extend_from_slice(&next.to_le_bytes());
    b.extend_from_slice(payload);
    b
}

fn vertex_payload(points: &[[f32; 3]]) -> Vec<u8> {
    let mut p = (points.len() as u32).to_le_bytes().to_vec();
    for v in points {
        for c in v {
            p.extend_from_slice(&c.to_le_bytes());
        }
    }
    p
}

fn group_payload(name: &str, faces: &[[u32; 3]], record: usize) -> Vec<u8> {
    let mut p = name.as_bytes().to_vec();
    p.resize(256, 0);
    p.extend_from_slice(&(faces.len() as u32).to_le_bytes());
    for f in faces {
        let mut r = Vec::new();
        for v in f {
            r.extend_from_slice(&v.to_le_bytes());
        }
        r.resize(record, 0xAB);
        p.extend_from_slice(&r);
    }
    p
}

/// A version `major.minor` file: a vertex node, a material node, then one group.
fn scene(major: u32, minor: u32, points: &[[f32; 3]], name: &str, faces: &[[u32; 3]], record: usize) -> Vec<u8> {
    let mut b = major.to_le_bytes().to_vec();
    b.extend_from_slice(&minor.to_le_bytes());
    let vp = vertex_payload(points);
    let after_vertices = (b.len() + 12 + vp.len()) as u32;
    b.extend(node(0, after_vertices, &vp));
    let after_material = after_vertices + 12 + 4;
    b.extend(node(2, after_material, &[1, 2, 3, 4]));
    b.extend(node(1, 0, &group_payload(name, faces, record)));
    b
}

fn error_of(bytes: &[u8]) -> ImportError {
    match parse_scene_mesh(bytes) {
        Err(e) => e,
        Ok(_) => panic!("read"),
    }
}

const SQUARE: [[f32; 3]; 4] = [[0.0, 0.0, 0.0], [1.0, 0.0, 0.0], [1.0, 1.0, 0.0], [0.0, 1.0, 0.0]];

#[test]
fn a_scene_mesh_is_read_node_by_node() {
    let b = scene(1, 1, &SQUARE, "walls", &[[0, 1, 2], [0, 2, 3]], 32);
    let m = parse_scene_mesh(&b).unwrap();
    assert_eq!(m.version, (1, 1));
    assert_eq!(m.vertices.len(), 4);
    assert_eq!(m.vertices[2], [1.0f32.to_bits(), 1.0f32.to_bits(), 0]);
    assert_eq!(m.groups.len(), 1);
    assert_eq!(m.groups[0].name, "walls");
    assert_eq!(m.groups[0].faces, vec![[0, 1, 2], [0, 2, 3]]);
    assert_eq!(m.face_record_bytes, Some(32));
    assert_eq!(non_finite_vertex(&m.vertices), None);

    let old = scene(1, 0, &SQUARE, "", &[[3, 2, 1]], 20);
    let m = parse_scene_mesh(&old).unwrap();
    assert_eq!(m.groups[0].name, "");
    assert_eq!(m.groups[0].faces, vec![[3, 2, 1]]);
    assert_eq!(m.face_record_bytes, Some(20));

    let empty = scene(1, 2, &SQUARE, "none", &[], 32);
    let m = parse_scene_mesh(&empty).unwrap();
    assert!(m.groups[0].faces.is_empty());
    assert_eq!(m.face_record_bytes, None);
}

#[test]
fn a_record_that_is_not_the_versions_is_invalid() {
    let b = scene(1, 1, &SQUARE, "walls", &[[0, 1, 2], [0, 2, 3]], 24);
    match error_of(&b) {
        ImportError::Invalid { format, message } => {
            assert_eq!(format, "sceneMesh.bin");
            assert_eq!(
                message,
                "group `walls`: 48 bytes for 2 faces is not the 32-byte face record of version 1.1"
            );
        }
        e => panic!("{e:?}"),
    }
}

#[test]
fn faces_must_use_the_vertices() {
    let b = scene(1, 1, &SQUARE, "walls", &[[0, 1, 2], [0, 1, 9]], 32);
    match error_of(&b) {
        ImportError::Invalid { message, .. } => {
            assert_eq!(message, "group `walls` face 1 uses vertices [0, 1, 9], but there are 4")
        }
        e => panic!("{e:?}"),
    }
}

#[test]
fn headers_versions_and_chains_are_checked() {
    assert_eq!(error_of(&[1, 0, 0, 0]).code(), "truncated");
    let mut b = scene(2, 0, &SQUARE, "walls", &[[0, 1, 2]], 32);
    match error_of(&b) {
        ImportError::Unsupported { message, .. } => {
            assert_eq!(message, "version 2.0; versions 1.0 to 1.2 are read")
        }
        e => panic!("{e:?}"),
    }
    // A next node pointing backwards.
    b = scene(1, 1, &SQUARE, "walls", &[[0, 1, 2]], 32);
    b[16..20].copy_from_slice(&9u32.to_le_bytes());
    match error_of(&b) {
        ImportError::Invalid { message, .. } => {
            assert_eq!(message, "the node at 8 points its next node to 9")
        }
        e => panic!("{e:?}"),
    }
    // An unknown node type.
    b = scene(1, 1, &SQUARE, "walls", &[[0, 1, 2]], 32);
    b[8] = 7;
    match error_of(&b) {
        ImportError::Invalid { message, .. } => assert_eq!(message, "unknown node type 7 at 8"),
        e => panic!("{e:?}"),
    }
    // No vertex node: the first node made a material node.
    b = scene(1, 1, &SQUARE, "walls", &[[0, 1, 2]], 32);
    b[8] = 3;
    match error_of(&b) {
        ImportError::Invalid { message, .. } => assert_eq!(message, "no vertex node"),
        e => panic!("{e:?}"),
    }
    // Cut inside the group's name.
    b = scene(1, 1, &SQUARE, "walls", &[[0, 1, 2]], 32);
    let group_at = b.len() - (12 + 256 + 4 + 32);
    b.truncate(group_at + 12 + 100);
    match error_of(&b) {
        ImportError::Truncated { what, .. } => assert_eq!(what, "a group name"),
        e => panic!("{e:?}"),
    }
}

#[test]
fn non_finite_coordinates_are_found() {
    let mut points = SQUARE.to_vec();
    points[2][1] = f32::INFINITY;
    points[3][0] = f32::NAN;
    let b = scene(1, 1, &points, "walls", &[[0, 1, 2]], 32);
    let m = parse_scene_mesh(&b).unwrap();
    assert_eq!(non_finite_vertex(&m.vertices), Some(2));
    assert_eq!(non_finite_vertex(&m.vertices[..2].to_vec()), None);
}
