use simpa_core::mesh::{box_corner, box_triangles, is_stale};
use simpa_core::SOLVER_COMMIT;

#[test]
fn solver_commit_is_a_full_sha() {
    assert_eq!(SOLVER_COMMIT.len(), 40);
    assert!(SOLVER_COMMIT.bytes().all(|b| b.is_ascii_hexdigit()));
}

#[test]
fn stale_names_are_the_meshers_and_tetgens() {
    for n in [
        "scene_mesh.poly",
        "scene_mesh.var",
        "SCENE_MESH.VAR",
        "scene_mesh.edge",
        "scene_mesh.mtr",
        "scene_mesh.1.ele",
        "scene_mesh.1.neigh",
        "scene_mesh.1.edge",
        "scene_mesh_skipped.face",
        "tetramesh.mbin",
        "mesh.cbin",
        "mesh.json",
        "tetgen.stdout.txt",
        "tetgen.stderr.txt",
    ] {
        assert!(is_stale(n), "{n}");
    }
    for n in [
        "notes.txt",
        "model.1.ele",
        "scene_mesh.poly.bak",
        "project.simpa",
    ] {
        assert!(!is_stale(n), "{n}");
    }
}

#[test]
fn stale_names_include_the_preprocess_files() {
    for n in [
        "scene_mesh.input.poly",
        "preprocess.stdout.txt",
        "Preprocess.Stderr.TXT",
    ] {
        assert!(is_stale(n), "{n}");
    }
    assert!(!is_stale("scene_mesh"));
    assert!(!is_stale("scene_mesh.1"));
    assert!(!is_stale(""));
}

#[test]
fn box_triangles_face_outward() {
    let corner = |k: usize| box_corner(k).map(|at_max| f64::from(u8::from(at_max)));
    let centre = [0.5; 3];
    for t in box_triangles() {
        let [a, b, c] = t.map(corner);
        let u = [b[0] - a[0], b[1] - a[1], b[2] - a[2]];
        let v = [c[0] - a[0], c[1] - a[1], c[2] - a[2]];
        let n = [
            u[1] * v[2] - u[2] * v[1],
            u[2] * v[0] - u[0] * v[2],
            u[0] * v[1] - u[1] * v[0],
        ];
        let out = [a[0] - centre[0], a[1] - centre[1], a[2] - centre[2]];
        let dot = n[0] * out[0] + n[1] * out[1] + n[2] * out[2];
        assert!(dot > 0.0, "{t:?}");
    }
}

#[test]
fn box_corners_go_round_bottom_then_top() {
    assert_eq!(box_corner(0), [false, false, false]);
    assert_eq!(box_corner(1), [true, false, false]);
    assert_eq!(box_corner(2), [true, true, false]);
    assert_eq!(box_corner(3), [false, true, false]);
    assert_eq!(box_corner(6), [true, true, true]);
    assert_eq!(box_triangles()[0], [0, 2, 1]);
    assert_eq!(box_triangles()[11], [3, 4, 7]);
}
