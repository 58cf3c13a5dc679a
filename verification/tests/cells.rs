use simpa_core::numbering::number_cells;
use simpa_core::cells::{EdgeTopo, Sides, Use};

#[test]
fn a_manifold_edge_joins_the_facing_sides() {
    let mut sides = Sides::new(2);
    let uses = vec![Use { face: 0, fwd: true, third: 2 }, Use { face: 1, fwd: false, third: 3 }];
    let topo = sides.join_edge(&uses, false);
    assert!(matches!(topo, EdgeTopo::Manifold));
    assert_eq!(sides.uf.find(0), sides.uf.find(2));
    assert_eq!(sides.uf.find(1), sides.uf.find(3));
    assert_ne!(sides.uf.find(0), sides.uf.find(1));
    assert_ne!(sides.uf.find(0), sides.uf.find(4));
    assert_eq!(sides.conflicts, 0);
}

#[test]
fn a_free_edge_joins_front_and_back() {
    let mut sides = Sides::new(1);
    let topo = sides.join_edge(&vec![Use { face: 0, fwd: true, third: 2 }], false);
    assert!(matches!(topo, EdgeTopo::Open(0)));
    assert_eq!(sides.uf.find(0), sides.uf.find(1));
}

#[test]
fn a_junction_joins_each_wedge_and_counts_a_tie() {
    let mut sides = Sides::new(3);
    let uses = vec![
        Use { face: 0, fwd: true, third: 5 },
        Use { face: 1, fwd: true, third: 6 },
        Use { face: 2, fwd: false, third: 7 },
    ];
    match sides.join_edge(&uses, true) {
        EdgeTopo::Junction(ns) => assert_eq!(ns, vec![0, 2, 5]),
        _ => panic!("expected a junction"),
    }
    // after(0) = 0 with before(1) = 3; after(1) = 2 with before(2) = 4; after(2) = 5 with before(0) = 1.
    assert_eq!(sides.uf.find(0), sides.uf.find(3));
    assert_eq!(sides.uf.find(2), sides.uf.find(4));
    assert_eq!(sides.uf.find(5), sides.uf.find(1));
    assert_ne!(sides.uf.find(0), sides.uf.find(2));
    assert_eq!(sides.ties, 1);
}

#[test]
fn two_uses_running_the_same_way_are_a_conflict() {
    let mut sides = Sides::new(2);
    let uses = vec![Use { face: 0, fwd: true, third: 2 }, Use { face: 1, fwd: true, third: 3 }];
    sides.join_edge(&uses, false);
    assert_eq!(sides.conflicts, 1);
}

#[test]
fn cells_are_numbered_from_the_exterior_in_order_of_appearance() {
    // Two faces of a closed sheet pair: face 0's front and face 1's front face the exterior,
    // their backs face the room.
    let mut sides = Sides::new(2);
    let ext = sides.exterior;
    sides.uf.union(0, ext);
    sides.uf.union(2, ext);
    sides.uf.union(1, 3);
    let (front, back, n) = number_cells(&mut sides.uf, ext, &vec![true, true]);
    assert_eq!(front, vec![0, 0]);
    assert_eq!(back, vec![1, 1]);
    assert_eq!(n, 2);
    let mut sides = Sides::new(2);
    let ext = sides.exterior;
    let (front, back, n) = number_cells(&mut sides.uf, ext, &vec![false, true]);
    assert_eq!(front, vec![u32::MAX, 1]);
    assert_eq!(back, vec![u32::MAX, 2]);
    assert_eq!(n, 3);
}
