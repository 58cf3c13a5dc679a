use simpa_core::poly::{Face, Model};
use simpa_core::preprocess::{parse_stdout, PolyCounts, Printed};

fn lines(s: &str) -> Vec<String> {
    s.lines().map(str::to_string).collect()
}

#[test]
fn stdout_is_read_as_preprocess_prints_it() {
    let saved = parse_stdout(&lines(
        "Split Triangle for the 1 times. [18;3.5;0]\nSplit Triangle for the 2 times. [18;4;0]\n\
         Coplanar correction step and vertices merging step has finished.\nRemesh status : \n\
         Vertices merged : 28\nCoplanar Faces destroyed : 2\nFace splitted : 31\n",
    ));
    assert_eq!(
        saved,
        Printed {
            status: true,
            aborted: false,
            not_found: false,
            vertices_merged: Some(28),
            faces_destroyed: Some(2),
            faces_split: Some(31),
            split_lines: 2,
        }
    );
    // Says no: the abort line, and no statistics.
    let aborted = parse_stdout(&lines(
        "Split Triangle for the 104 times. [41.1013;-0.651135;8.55302]\nMesh reparation has \
         been aborted. The algorithm enter into an infinite loop. Try to stick coplanar faces \
         or destroy manually.\n",
    ));
    assert!(aborted.aborted && !aborted.status);
    assert_eq!(aborted.faces_destroyed, None);
    assert!(parse_stdout(&lines("The mesh file cant be found !")).not_found);
}

#[test]
fn counts_keep_the_last_value_read() {
    let p = parse_stdout(&lines(
        "Vertices merged : 3\nVertices merged:x\n  Vertices merged :  +7 \nFace splitted : -1\n",
    ));
    assert_eq!(p.vertices_merged, Some(7));
    assert_eq!(p.faces_split, None);
    assert_eq!(p.split_lines, 0);
    let nothing = parse_stdout(&[]);
    assert!(!nothing.status && !nothing.aborted && !nothing.not_found);
    assert_eq!(nothing.vertices_merged, None);
}

#[test]
fn poly_counts_are_the_models_sizes() {
    let f = Face {
        vertices: [0, 1, 2],
        face_index: 4,
    };
    let m = Model {
        model_faces: vec![f, f],
        user_defined_faces: vec![f],
        vertices: 3,
        regions: 2,
    };
    assert_eq!(
        PolyCounts::of(&m),
        PolyCounts {
            vertices: 3,
            facets: 2,
            user_facets: 1,
            regions: 2
        }
    );
}
