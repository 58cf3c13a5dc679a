use simpa_core::import::ImportError;
use simpa_core::project::{project_scene, project_tree};
use simpa_core::xml::{element_kids, find_child, kids, parse};
use simpa_core::zip::crc32;

/// A stored zip of one entry named `name` holding `data`.
fn zip_of(name: &[u8], data: &[u8]) -> Vec<u8> {
    let crc = crc32(data);
    let size = data.len() as u32;
    let mut z = Vec::new();
    z.extend_from_slice(&0x0403_4b50u32.to_le_bytes());
    z.extend_from_slice(&[20, 0, 0, 0, 0, 0, 0, 0, 0, 0]);
    z.extend_from_slice(&crc.to_le_bytes());
    z.extend_from_slice(&size.to_le_bytes());
    z.extend_from_slice(&size.to_le_bytes());
    z.extend_from_slice(&(name.len() as u16).to_le_bytes());
    z.extend_from_slice(&0u16.to_le_bytes());
    z.extend_from_slice(name);
    z.extend_from_slice(data);
    let cd_start = z.len();
    z.extend_from_slice(&0x0201_4b50u32.to_le_bytes());
    z.extend_from_slice(&[20, 0, 20, 0, 0, 0, 0, 0, 0, 0, 0, 0]);
    z.extend_from_slice(&crc.to_le_bytes());
    z.extend_from_slice(&size.to_le_bytes());
    z.extend_from_slice(&size.to_le_bytes());
    z.extend_from_slice(&(name.len() as u16).to_le_bytes());
    z.extend_from_slice(&[0, 0, 0, 0, 0, 0, 0, 0, 0, 0, 0, 0]);
    z.extend_from_slice(&0u32.to_le_bytes());
    z.extend_from_slice(name);
    let cd_size = z.len() - cd_start;
    z.extend_from_slice(&0x0605_4b50u32.to_le_bytes());
    z.extend_from_slice(&[0, 0, 0, 0, 1, 0, 1, 0]);
    z.extend_from_slice(&(cd_size as u32).to_le_bytes());
    z.extend_from_slice(&(cd_start as u32).to_le_bytes());
    z.extend_from_slice(&0u16.to_le_bytes());
    z
}

#[test]
fn the_project_folder_and_its_tree_are_read() {
    let z = zip_of(b"instance1/projet_config.xml", b"<projet><Scene/></projet>");
    let p = project_tree(&z, None).unwrap();
    assert_eq!(p.folder, "instance1/");
    assert_eq!(p.config, 0);
    assert!(p.utf8);
    assert_eq!(p.tree.nodes[p.root].tag, "projet");
    let scene = find_child(&p.tree, p.root, "Scene", None);
    assert!(scene.is_some());
    assert_eq!(p.tree.nodes[scene.unwrap()].tag, "Scene");
}

#[test]
fn a_given_tree_replaces_the_archive_one() {
    let z = zip_of(b"projet_config.xml", b"<other/>");
    let p = project_tree(&z, Some(b"<projet a=\"1\"/>")).unwrap();
    assert_eq!(p.folder, "");
    assert_eq!(p.xml, b"<projet a=\"1\"/>".to_vec());
    assert!(project_tree(&z, None).is_err());
}

#[test]
fn a_root_that_is_not_projet_is_invalid() {
    let z = zip_of(b"instance1/projet_config.xml", b"<other/>");
    match project_tree(&z, None) {
        Err(ImportError::Invalid { format, .. }) => assert_eq!(format, "projet_config.xml"),
        _ => panic!("expected an invalid root"),
    }
}

#[test]
fn a_tree_that_does_not_parse_is_a_syntax_error() {
    let z = zip_of(b"instance1/projet_config.xml", b"<projet>");
    match project_tree(&z, None) {
        Err(ImportError::Syntax { format, .. }) => assert_eq!(format, "projet_config.xml"),
        _ => panic!("expected a syntax error"),
    }
}

#[test]
fn an_archive_without_a_project_is_invalid() {
    let z = zip_of(b"notes.txt", b"hello");
    match project_tree(&z, None) {
        Err(ImportError::Invalid { format, .. }) => assert_eq!(format, "proj"),
        _ => panic!("expected no project"),
    }
}

#[test]
fn an_empty_archive_holds_no_project() {
    let mut z = vec![0x50u8, 0x4B, 0x05, 0x06];
    z.extend_from_slice(&[0u8; 18]);
    match project_tree(&z, None) {
        Err(ImportError::Invalid { format, message }) => {
            assert_eq!(format, "proj");
            assert_eq!(message, "the archive holds no projet_config.xml: not an I-Simpa project");
        }
        _ => panic!("expected no project"),
    }
}

#[test]
fn children_come_in_load_order() {
    let t = parse("<projet><a wxid=\"5\"/>\n<!-- note --><b wxid=\"3\"/><p name=\"x\"/><p name=\"y\"/></projet>")
        .ok()
        .unwrap();
    let root = 1;
    assert_eq!(t.nodes[root].tag, "projet");
    let order: Vec<String> = element_kids(&t, root).iter().map(|&k| t.nodes[k].tag.clone()).collect();
    assert_eq!(order[0], "b");
    assert_eq!(kids(&t, root).len(), 5);
    let y = find_child(&t, root, "p", Some("y")).unwrap();
    assert_eq!(t.nodes[y].attributes[0].1, "y");
    assert!(find_child(&t, root, "p", Some("z")).is_none());
}

/// A stored zip of the entries `files`, in order.
fn zip_many(files: &[(&[u8], &[u8])]) -> Vec<u8> {
    let mut z = Vec::new();
    let mut cd = Vec::new();
    for (name, data) in files {
        let crc = crc32(data);
        let size = data.len() as u32;
        let at = z.len() as u32;
        z.extend_from_slice(&0x0403_4b50u32.to_le_bytes());
        z.extend_from_slice(&[20, 0, 0, 0, 0, 0, 0, 0, 0, 0]);
        z.extend_from_slice(&crc.to_le_bytes());
        z.extend_from_slice(&size.to_le_bytes());
        z.extend_from_slice(&size.to_le_bytes());
        z.extend_from_slice(&(name.len() as u16).to_le_bytes());
        z.extend_from_slice(&0u16.to_le_bytes());
        z.extend_from_slice(name);
        z.extend_from_slice(data);
        cd.extend_from_slice(&0x0201_4b50u32.to_le_bytes());
        cd.extend_from_slice(&[20, 0, 20, 0, 0, 0, 0, 0, 0, 0, 0, 0]);
        cd.extend_from_slice(&crc.to_le_bytes());
        cd.extend_from_slice(&size.to_le_bytes());
        cd.extend_from_slice(&size.to_le_bytes());
        cd.extend_from_slice(&(name.len() as u16).to_le_bytes());
        cd.extend_from_slice(&[0, 0, 0, 0, 0, 0, 0, 0, 0, 0, 0, 0]);
        cd.extend_from_slice(&at.to_le_bytes());
        cd.extend_from_slice(name);
    }
    let cd_start = z.len();
    z.extend_from_slice(&cd);
    let n = files.len() as u16;
    z.extend_from_slice(&0x0605_4b50u32.to_le_bytes());
    z.extend_from_slice(&[0, 0, 0, 0]);
    z.extend_from_slice(&n.to_le_bytes());
    z.extend_from_slice(&n.to_le_bytes());
    z.extend_from_slice(&(cd.len() as u32).to_le_bytes());
    z.extend_from_slice(&(cd_start as u32).to_le_bytes());
    z.extend_from_slice(&0u16.to_le_bytes());
    z
}

/// A version 1.2 scene mesh: one triangle in one group.
fn scene_mesh() -> Vec<u8> {
    let mut b = 1u32.to_le_bytes().to_vec();
    b.extend_from_slice(&2u32.to_le_bytes());
    let mut vp = 3u32.to_le_bytes().to_vec();
    for v in [[0.0f32, 0.0, 0.0], [1.0, 0.0, 0.0], [0.0, 1.0, 0.0]] {
        for c in v {
            vp.extend_from_slice(&c.to_le_bytes());
        }
    }
    let after = (b.len() + 12 + vp.len()) as u32;
    b.extend_from_slice(&0u16.to_le_bytes());
    b.extend_from_slice(&[0, 0]);
    b.extend_from_slice(&0u32.to_le_bytes());
    b.extend_from_slice(&after.to_le_bytes());
    b.extend_from_slice(&vp);
    b.extend_from_slice(&1u16.to_le_bytes());
    b.extend_from_slice(&[0, 0]);
    b.extend_from_slice(&0u32.to_le_bytes());
    b.extend_from_slice(&0u32.to_le_bytes());
    let mut name = b"walls".to_vec();
    name.resize(256, 0);
    b.extend_from_slice(&name);
    b.extend_from_slice(&1u32.to_le_bytes());
    let mut rec = Vec::new();
    for v in [0u32, 1, 2] {
        rec.extend_from_slice(&v.to_le_bytes());
    }
    rec.resize(32, 0);
    b.extend_from_slice(&rec);
    b
}

const CONFIG: &[u8] = b"<projet><Scene><donnees/><projet><Configuration><p name=\"urlmodel\" textValue=\"mesh.bin\"/></Configuration></projet></Scene></projet>";

#[test]
fn the_scene_mesh_the_project_names_is_read() {
    let mesh = scene_mesh();
    let z = zip_many(&[(b"instance1/projet_config.xml", CONFIG), (b"instance1/mesh.bin", &mesh)]);
    let p = project_scene(&z, None).unwrap();
    assert_eq!(p.mesh_name, "mesh.bin");
    assert_eq!(p.mesh.version, (1, 2));
    assert_eq!(p.faces, vec![[0, 1, 2]]);
    assert_eq!(p.group_start, vec![0]);
    assert_eq!(p.tree.tree.nodes[p.scene].tag, "Scene");
    assert_eq!(p.tree.tree.nodes[p.project].tag, "projet");
}

#[test]
fn a_missing_scene_mesh_is_refused() {
    let z = zip_many(&[(b"instance1/projet_config.xml", CONFIG)]);
    match project_scene(&z, None) {
        Err(ImportError::Invalid { format, .. }) => assert_eq!(format, "zip"),
        _ => panic!("expected a missing entry"),
    }
}

#[test]
fn the_default_mesh_name_and_a_missing_scene_element() {
    let mesh = scene_mesh();
    let config: &[u8] = b"<projet><Scene><donnees/><projet/></Scene></projet>";
    let z = zip_many(&[(b"projet_config.xml", config), (b"sceneMesh.bin", &mesh)]);
    let p = project_scene(&z, None).unwrap();
    assert_eq!(p.mesh_name, "sceneMesh.bin");
    let z = zip_many(&[(b"projet_config.xml", b"<projet/>"), (b"sceneMesh.bin", &mesh)]);
    match project_scene(&z, None) {
        Err(ImportError::Invalid { format, .. }) => assert_eq!(format, "projet_config.xml"),
        _ => panic!("expected no Scene"),
    }
}
