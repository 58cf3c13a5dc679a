use simpa_core::check::{plural, reasons, verdict, Findings, ReasonCode, Verdict};

fn findings() -> Findings {
    Findings {
        faces: 10,
        invalid: vec![],
        degenerate: vec![3],
        duplicates: vec![4, 5],
        pairs: 1,
        intersecting: vec![1, 2],
        open_edges: 2,
        exterior: vec![],
        coincident: 1,
        cells: 2,
        inverted: vec![],
        unplaced: 0,
    }
}

#[test]
fn plural_counts_its_noun() {
    assert_eq!(plural(1, "face", "faces"), "1 face");
    assert_eq!(plural(0, "face", "faces"), "0 faces");
    assert_eq!(plural(12, "pair", "pairs"), "12 pairs");
}

#[test]
fn reasons_come_in_code_order_with_their_messages() {
    let rs = reasons(&findings());
    let codes: Vec<ReasonCode> = rs.iter().map(|r| r.code).collect();
    assert_eq!(
        codes,
        vec![
            ReasonCode::DegenerateFaces,
            ReasonCode::DuplicateFaces,
            ReasonCode::SelfIntersections,
            ReasonCode::OpenBoundary
        ]
    );
    assert_eq!(rs[0].message, "1 face has zero area (a repeated vertex, or three collinear vertices)");
    assert!(rs[0].repairable);
    assert_eq!(rs[1].faces, vec![4, 5]);
    assert_eq!(rs[1].count, 2);
    assert_eq!(
        rs[2].message,
        "1 pair of faces meet other than along a shared edge or at a shared vertex (2 faces)"
    );
    assert!(!rs[2].repairable);
    assert_eq!(
        rs[3].message,
        "the outer shell is not closed: 2 open edges face the exterior, and 0 faces have the exterior on both sides; \
         1 vertex is at the position of another vertex, and welding them (repair) closes the edges that are only unwelded seams"
    );
    assert_eq!(verdict(&rs), Verdict::Refused);
}

#[test]
fn no_faces_and_no_volume() {
    let empty = Findings {
        faces: 0,
        invalid: vec![],
        degenerate: vec![],
        duplicates: vec![],
        pairs: 0,
        intersecting: vec![],
        open_edges: 0,
        exterior: vec![],
        coincident: 0,
        cells: 1,
        inverted: vec![],
        unplaced: 0,
    };
    let rs = reasons(&empty);
    assert_eq!(rs.len(), 1);
    assert_eq!(rs[0].code, ReasonCode::EmptyGeometry);
    assert_eq!(rs[0].message, "the geometry has no faces");
    let mut closed = findings();
    closed.degenerate = vec![];
    closed.duplicates = vec![];
    closed.pairs = 0;
    closed.intersecting = vec![];
    closed.open_edges = 0;
    assert_eq!(verdict(&reasons(&closed)), Verdict::Passed);
    closed.cells = 1;
    closed.unplaced = 3;
    let rs = reasons(&closed);
    assert_eq!(rs[0].code, ReasonCode::NoEnclosedVolume);
    assert_eq!(rs[1].message, "the placement of 3 face-connected components relative to the others could not be decided");
}
