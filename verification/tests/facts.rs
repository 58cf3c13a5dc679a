use simpa_core::cells::{EdgeTopo, Sides, Use};
use simpa_core::check::{FaceClass, ReasonCode, Verdict};
use simpa_core::facts::cell_facts;
use simpa_core::place::Ray;
use simpa_core::report::{check, GeometryFacts};

fn bits(p: [f64; 3]) -> [u64; 3] {
    p.map(|c| (c + 0.0).to_bits())
}

#[test]
fn a_lone_triangle_is_open_and_encloses_nothing() {
    // Each of its three edges is used once, by face 0; its ray leaves through its front and
    // meets nothing.
    let mut sides = Sides::new(1);
    let topos: Vec<EdgeTopo> = [(true, 2), (false, 1), (true, 0)]
        .iter()
        .map(|&(fwd, third)| sides.join_edge(&vec![Use { face: 0, fwd, third }], false))
        .collect();
    let cf = cell_facts(&mut sides, &vec![true], &vec![Some(Ray { exit: 0, first: vec![] })], &vec![0], &topos);
    assert_eq!((cf.front_cell.clone(), cf.back_cell.clone(), cf.depth.clone()), (vec![0], vec![0], vec![0]));
    assert_eq!(cf.edge_exterior, vec![1, 1, 1]);
    assert_eq!((cf.components, cf.unresolved, cf.ambiguous, cf.ties, cf.conflicts), (1, 0, 0, 0, 0));
    let facts = GeometryFacts {
        keys: vec![bits([0.0, 0.0, 0.0]), bits([1.0, 0.0, 0.0]), bits([0.0, 1.0, 0.0])],
        finite: vec![true; 3],
        zero_area: vec![false],
        groups: vec![0],
        front_cell: cf.front_cell,
        back_cell: cf.back_cell,
        depth: cf.depth,
        pairs: vec![],
        edge_exterior: cf.edge_exterior,
        components: cf.components,
        unresolved: cf.unresolved,
        ambiguous: cf.ambiguous,
        ties: cf.ties,
        conflicts: cf.conflicts,
    };
    let r = check(&vec![[0, 1, 2]], &facts);
    assert_eq!(r.verdict, Verdict::Refused);
    let codes: Vec<ReasonCode> = r.reasons.iter().map(|x| x.code).collect();
    assert_eq!(codes, vec![ReasonCode::OpenBoundary, ReasonCode::NoEnclosedVolume]);
    assert_eq!(r.reasons[0].count, 3);
    assert_eq!(r.reasons[0].faces, vec![0]);
    assert_eq!((r.counts.open_edges, r.counts.boundary_open_edges, r.counts.cells), (3, 3, 0));
    assert_eq!(r.internal_faces.len(), 1);
    let f = &r.internal_faces[0];
    assert_eq!((f.face, f.class, f.front_cell, f.back_cell), (0, FaceClass::Exterior, 0, 0));
    assert!(r.topology_reliable);
}

#[test]
fn a_closed_shell_bounds_one_room() {
    // A tetrahedron with outward faces: each edge manifold, joined as its two faces meet.
    let faces = vec![[0u32, 2, 1], [0, 1, 3], [1, 2, 3], [0, 3, 2]];
    let mut sides = Sides::new(4);
    // Edges with their two uses (face, runs u -> v, third vertex): (0,1) (0,2) (0,3) (1,2) (1,3) (2,3).
    let edges = [
        [(0, false, 2), (1, true, 3)],
        [(0, true, 1), (3, false, 3)],
        [(1, false, 1), (3, true, 2)],
        [(0, false, 0), (2, true, 3)],
        [(1, true, 0), (2, false, 2)],
        [(2, true, 1), (3, false, 0)],
    ];
    let topos: Vec<EdgeTopo> = edges
        .iter()
        .map(|e| {
            let uses: Vec<Use> = e.iter().map(|&(face, fwd, third)| Use { face, fwd, third }).collect();
            sides.join_edge(&uses, false)
        })
        .collect();
    assert_eq!(sides.conflicts, 0);
    let cf = cell_facts(&mut sides, &vec![true; 4], &vec![Some(Ray { exit: 0, first: vec![] })], &vec![0], &topos);
    assert_eq!(cf.front_cell, vec![0; 4]);
    assert_eq!(cf.back_cell, vec![1; 4]);
    assert_eq!(cf.depth, vec![0, 1]);
    assert_eq!(cf.edge_exterior, vec![0; 6]);
    let _ = faces;
}
