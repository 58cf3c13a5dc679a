use simpa_core::proj::{faces_of_refs, finfo_faces, FaceRef};
use simpa_core::scene::{SceneGroup, SceneMesh};
use simpa_core::zip::{crc32, Archive};

/// A stored zip of one entry named `name` holding `data`.
fn zip_of(name: &[u8], data: &[u8]) -> Vec<u8> {
    let crc = crc32(data);
    let size = data.len() as u32;
    let mut z = Vec::new();
    z.extend_from_slice(&0x0403_4b50u32.to_le_bytes());
    z.extend_from_slice(&[20, 0, 0, 0, 0, 0, 0, 0, 0, 0]);
    z.extend_from_slice(&crc.to_le_bytes());
    z.extend_from_slice(&size.to_le_bytes());
    z.extend_from_slice(&size.to_le_bytes());
    z.extend_from_slice(&(name.len() as u16).to_le_bytes());
    z.extend_from_slice(&0u16.to_le_bytes());
    z.extend_from_slice(name);
    z.extend_from_slice(data);
    let cd_start = z.len();
    z.extend_from_slice(&0x0201_4b50u32.to_le_bytes());
    z.extend_from_slice(&[20, 0, 20, 0, 0, 0, 0, 0, 0, 0, 0, 0]);
    z.extend_from_slice(&crc.to_le_bytes());
    z.extend_from_slice(&size.to_le_bytes());
    z.extend_from_slice(&size.to_le_bytes());
    z.extend_from_slice(&(name.len() as u16).to_le_bytes());
    z.extend_from_slice(&[0, 0, 0, 0, 0, 0, 0, 0, 0, 0, 0, 0]);
    z.extend_from_slice(&0u32.to_le_bytes());
    z.extend_from_slice(name);
    let cd_size = z.len() - cd_start;
    z.extend_from_slice(&0x0605_4b50u32.to_le_bytes());
    z.extend_from_slice(&[0, 0, 0, 0, 1, 0, 1, 0]);
    z.extend_from_slice(&(cd_size as u32).to_le_bytes());
    z.extend_from_slice(&(cd_start as u32).to_le_bytes());
    z.extend_from_slice(&0u16.to_le_bytes());
    z
}

fn mesh() -> SceneMesh {
    SceneMesh {
        version: (1, 2),
        vertices: vec![[0, 0, 0]; 3],
        groups: vec![
            SceneGroup { name: "a".to_string(), faces: vec![[0, 1, 2]; 2] },
            SceneGroup { name: "b".to_string(), faces: vec![[0, 1, 2]; 3] },
        ],
        face_record_bytes: Some(32),
    }
}

/// A Windows `.finfo`: a `u32` count, then `(i32 group, i32 face)` pairs.
fn finfo(pairs: &[(i32, i32)]) -> Vec<u8> {
    let mut b = (pairs.len() as u32).to_le_bytes().to_vec();
    for (g, f) in pairs {
        b.extend_from_slice(&g.to_le_bytes());
        b.extend_from_slice(&f.to_le_bytes());
    }
    b
}

#[test]
fn a_face_list_names_project_faces() {
    let list = finfo(&[(1, 2), (0, 1)]);
    let z = zip_of(b"p/g1.finfo", &list);
    let a = Archive::parse(&z).unwrap();
    let (faces, bytes) = finfo_faces(&a, "p/", Some("g1.finfo"), &mesh(), &[0, 2], "group `g`").unwrap().unwrap();
    assert_eq!(faces, vec![4, 1]);
    assert_eq!(bytes, list);
    assert!(finfo_faces(&a, "p/", Some("other.finfo"), &mesh(), &[0, 2], "group `g`").unwrap().is_none());
    assert_eq!(finfo_faces(&a, "p/", None, &mesh(), &[0, 2], "g").unwrap_err().code(), "invalid");
    assert_eq!(finfo_faces(&a, "p/", Some("../x"), &mesh(), &[0, 2], "g").unwrap_err().code(), "invalid");
}

#[test]
fn a_face_list_naming_no_face_is_invalid() {
    let refs = vec![FaceRef { group: 0, face: 1 }, FaceRef { group: 1, face: 3 }];
    assert_eq!(faces_of_refs(&refs, &mesh(), &[0, 2], "g").unwrap_err().code(), "invalid");
    let refs = vec![FaceRef { group: 2, face: 0 }];
    assert_eq!(faces_of_refs(&refs, &mesh(), &[0, 2], "g").unwrap_err().code(), "invalid");
    let refs = vec![FaceRef { group: 1, face: 0 }];
    assert_eq!(faces_of_refs(&refs, &mesh(), &[0, 2], "g").unwrap(), vec![2]);
}
