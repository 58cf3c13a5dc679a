use simpa_core::finish::{check_polygons, finish, is_finite_key, RawMesh};
use simpa_core::import::{ImportError, MeshFormat};

fn key(x: f64, y: f64, z: f64) -> [u64; 3] {
    [(x + 0.0).to_bits(), (y + 0.0).to_bits(), (z + 0.0).to_bits()]
}

fn raw() -> RawMesh {
    RawMesh {
        keys: vec![
            key(0.0, 0.0, 0.0),
            key(1.0, 0.0, 0.0),
            key(0.0, 1.0, 0.0),
            key(1.0, -0.0, 0.0),
            key(5.0, 5.0, 5.0),
            key(0.0, 1.0, 0.0),
        ],
        polygons: vec![(vec![0, 1, 2], 0), (vec![0, 3, 5, 2], 2)],
        groups: vec!["a".to_string(), "b".to_string(), "c".to_string()],
        notes: vec!["a note".to_string()],
    }
}

#[test]
fn welding_keeps_the_first_of_equal_vertices() {
    let m = finish(raw(), MeshFormat::Obj, true, 2).unwrap();
    assert_eq!(m.format, MeshFormat::Obj);
    assert_eq!(m.vertices, vec![0, 1, 2]);
    assert_eq!(m.triangles, vec![[0, 1, 2], [0, 1, 2], [0, 2, 2]]);
    assert_eq!(m.face_groups, vec![0, 1, 1]);
    assert_eq!(m.group_names, vec!["a", "c"]);
    let r = &m.report;
    assert_eq!(r.source_vertices, 6);
    assert_eq!(r.source_faces, 2);
    assert_eq!(r.triangles, 3);
    assert_eq!(r.polygons_split, 1);
    assert!(r.welded);
    assert_eq!(r.welded_vertices, 2);
    assert_eq!(r.unused_vertices, 1);
    assert_eq!(r.empty_groups, vec!["b"]);
    assert_eq!(r.notes, vec!["a note"]);
}

#[test]
fn without_welding_every_used_vertex_is_kept() {
    let m = finish(raw(), MeshFormat::Stl, false, 7).unwrap();
    assert_eq!(m.vertices, vec![0, 1, 2, 3, 5]);
    assert_eq!(m.triangles, vec![[0, 1, 2], [0, 3, 4], [0, 4, 2]]);
    assert_eq!(m.face_groups, vec![0, 1, 1]);
    assert!(!m.report.welded);
    assert_eq!(m.report.welded_vertices, 0);
    assert_eq!(m.report.unused_vertices, 1);
    assert_eq!(m.report.source_faces, 7);
}

#[test]
fn a_file_without_faces_is_empty() {
    let mut r = raw();
    r.polygons.clear();
    match finish(r, MeshFormat::Ply, true, 0) {
        Err(ImportError::Empty { format }) => assert_eq!(format, "ply"),
        Err(e) => panic!("{e:?}"),
        Ok(_) => panic!("an empty file was read"),
    }
}

#[test]
fn a_fan_splits_a_polygon_from_its_first_vertex() {
    let r = RawMesh {
        keys: (0..6).map(|i| key(f64::from(i), 0.0, 0.0)).collect(),
        polygons: vec![(vec![5, 4, 3, 2, 1, 0], 0)],
        groups: vec!["model".to_string()],
        notes: vec![],
    };
    let m = finish(r, MeshFormat::Ply, true, 1).unwrap();
    assert_eq!(m.vertices, vec![0, 1, 2, 3, 4, 5]);
    assert_eq!(m.triangles, vec![[5, 4, 3], [5, 3, 2], [5, 2, 1], [5, 1, 0]]);
    assert_eq!(m.report.polygons_split, 1);
    assert!(m.report.empty_groups.is_empty());
}

#[test]
fn an_unused_vertex_that_is_not_finite_is_invalid() {
    let mut r = raw();
    r.keys[4] = key(f64::NAN, 0.0, 0.0);
    match finish(r, MeshFormat::Stl, false, 2) {
        Err(ImportError::Invalid { format, .. }) => assert_eq!(format, "stl"),
        _ => panic!("expected a non-finite vertex to be refused"),
    }
    let mut r = raw();
    r.keys[0] = key(0.0, f64::INFINITY, 0.0);
    assert!(matches!(finish(r, MeshFormat::Obj, true, 2), Err(ImportError::Invalid { .. })));
    assert!(is_finite_key(key(f64::MAX, -0.0, 1e-310)));
    assert!(!is_finite_key(key(0.0, 0.0, f64::NEG_INFINITY)));
}

#[test]
fn polygons_out_of_range_are_invalid() {
    let ok = vec![(vec![0, 1, 2], 0), (vec![0, 3, 5, 2], 2)];
    assert!(check_polygons(&ok, 6, 3, MeshFormat::Obj).is_ok());
    for bad in [vec![(vec![0, 1], 0)], vec![(vec![0, 1, 6], 0)], vec![(vec![0, 1, 2], 3)]] {
        match check_polygons(&bad, 6, 3, MeshFormat::Ply) {
            Err(ImportError::Invalid { format, .. }) => assert_eq!(format, "ply"),
            _ => panic!("expected an out-of-range polygon to be refused"),
        }
    }
}
