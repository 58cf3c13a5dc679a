use simpa_core::import::MeshFormat;
use simpa_core::import::ImportError;
use simpa_core::stl::{ascii, binary, binary_size, neither, starts_solid};

const ONE: &str = "solid cube\n  facet normal 0 0 1\n    outer loop\n      vertex 0 0 0\n      \
vertex 1.5 0 0\n      vertex 0 -2e1 0\n    endloop\n  endfacet\nendsolid cube\n";

fn texts(v: &[(String, String, String)]) -> Vec<(&str, &str, &str)> {
    v.iter().map(|(a, b, c)| (a.as_str(), b.as_str(), c.as_str())).collect()
}

#[test]
fn an_ascii_solid_is_read_by_its_structure() {
    let r = ascii(ONE.as_bytes()).unwrap();
    assert!(!r.binary);
    assert_eq!(texts(&r.texts), vec![("0", "0", "0"), ("1.5", "0", "0"), ("0", "-2e1", "0")]);
    assert_eq!(r.polygons, vec![(vec![0, 1, 2], 0)]);
    assert_eq!(r.groups, vec!["cube"]);
    assert_eq!(r.notes, vec!["ASCII STL"]);
}

#[test]
fn each_solid_is_a_group() {
    let text = format!("{ONE}\r\n\r\nsolid\r\nfacet normal 0 0 0\r\nouter loop\r\nvertex 1 1 1\r\n\
vertex 2 2 2\r\nvertex 3 3 3\r\nendloop\r\nendfacet\r\nendsolid\r\n");
    let r = ascii(text.as_bytes()).unwrap();
    assert_eq!(r.groups, vec!["cube", "solid 2"]);
    assert_eq!(r.polygons, vec![(vec![0, 1, 2], 0), (vec![3, 4, 5], 1)]);
    assert_eq!(r.texts[5].2, "3");
}

fn syntax(text: &str) -> (String, String) {
    match ascii(text.as_bytes()) {
        Err(ImportError::Syntax { format, location, message }) => {
            assert_eq!(format, "stl");
            (location, message)
        }
        Err(e) => panic!("{e:?}"),
        Ok(_) => panic!("read"),
    }
}

#[test]
fn malformed_ascii_is_refused_where_it_goes_wrong() {
    assert_eq!(
        syntax("solid a\nfacet normal 0 0 1\nouter loop\nvertex 1 2\n"),
        ("line 4".to_string(), "a vertex needs 3 values".to_string())
    );
    assert_eq!(
        syntax("solid a\nfacet normal 0 0 1\nouter loop\nvertex 1 2 x\n"),
        ("line 4".to_string(), "`x` is not a number".to_string())
    );
    assert_eq!(
        syntax("solid a\n\nfacet 0 0 1\n"),
        ("line 3".to_string(), "expected `facet normal`".to_string())
    );
    assert_eq!(
        syntax("cube\n"),
        ("line 1".to_string(), "expected `solid`".to_string())
    );
    assert_eq!(
        syntax("solid a\nfacet normal 0 0 1\nouter loop\nvertex 0 0 0\nvertex 0 0 0\nvertex 0 0 0\nendloop\nendfacets\n"),
        ("line 8".to_string(), "expected `endfacet`".to_string())
    );
    match ascii(b"solid a\n\xff\n") {
        Err(ImportError::Syntax { location, message, .. }) => {
            assert_eq!(location, "file");
            assert_eq!(message, "an ASCII STL must be text");
        }
        other => panic!("{other:?}"),
    }
    match ascii(b"solid a\nfacet normal 0 0 1\nouter loop\nvertex 0 0 0\n") {
        Err(ImportError::Truncated { what, .. }) => assert_eq!(what, "`vertex`"),
        other => panic!("{other:?}"),
    }
    match ascii(ONE.replace("endsolid cube\n", "").as_bytes()) {
        Err(ImportError::Truncated { what, .. }) => assert_eq!(what, "`endsolid`"),
        other => panic!("{other:?}"),
    }
}

fn binary_file(header: &[u8], triangles: &[[[f32; 3]; 3]]) -> Vec<u8> {
    let mut b = header.to_vec();
    b.resize(80, b' ');
    b.extend_from_slice(&(triangles.len() as u32).to_le_bytes());
    for t in triangles {
        b.extend_from_slice(&[0u8; 12]);
        for v in t {
            for c in v {
                b.extend_from_slice(&c.to_le_bytes());
            }
        }
        b.extend_from_slice(&[0, 0]);
    }
    b
}

#[test]
fn a_binary_file_is_read_record_by_record() {
    let tris = [
        [[0.0, 0.0, 0.0], [1.0, 0.0, 0.0], [0.0, 1.0, 0.0]],
        [[0.5, 0.5, 0.5], [2.0, 0.0, -1.0], [0.0, 3.0, 0.0]],
    ];
    let b = binary_file(b"made by hand", &tris);
    assert!(binary_size(&b));
    assert!(!starts_solid(&b));
    let r = binary(&b).unwrap();
    assert!(r.binary);
    assert_eq!(r.bits.len(), 6);
    assert_eq!(r.bits[4], [2.0f32.to_bits(), 0, (-1.0f32).to_bits()]);
    assert_eq!(r.bits[5], [0, 3.0f32.to_bits(), 0]);
    assert_eq!(r.polygons, vec![(vec![0, 1, 2], 0), (vec![3, 4, 5], 0)]);
    assert_eq!(r.groups, vec!["model"]);
    assert_eq!(r.notes, vec!["binary STL"]);
}

#[test]
fn which_reader_is_decided_by_size_then_by_solid() {
    let b = binary_file(b"solid exported", &[[[0.0; 3]; 3]]);
    assert!(binary_size(&b));
    assert!(starts_solid(&b));
    // A binary header that starts with `solid` does not read as ASCII.
    assert!(ascii(&b).is_err());
    assert!(starts_solid(b" \t\r\nsolid x"));
    assert!(!starts_solid(b"soli"));
    assert!(!binary_size(ONE.as_bytes()));

    let mut odd = binary_file(b"x", &[[[0.0; 3]; 3]; 5]);
    odd.truncate(100);
    match neither(&odd) {
        ImportError::Invalid { message, .. } => assert_eq!(
            message,
            "not ASCII (no leading `solid`), and not binary: 5 triangles need 334 bytes, the file has 100"
        ),
        e => panic!("{e:?}"),
    }
    match neither(b"abc") {
        ImportError::Truncated { what, .. } => assert_eq!(what, "the 84-byte binary header"),
        e => panic!("{e:?}"),
    }
}

#[test]
fn mesh_format_from_path_reads_the_file_name() {
    assert_eq!(MeshFormat::from_path("room/b.PLY"), Some(MeshFormat::Ply));
    assert_eq!(MeshFormat::from_path("b.ply/."), Some(MeshFormat::Ply));
    assert_eq!(MeshFormat::from_path("a/b.stl/"), Some(MeshFormat::Stl));
    assert_eq!(MeshFormat::from_path("a/b.obj/.."), None);
    assert_eq!(MeshFormat::from_path(".ply"), None);
    assert_eq!(MeshFormat::from_path("x.txt"), None);
}
