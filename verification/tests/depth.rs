use simpa_core::cells::{Sides, Use};
use simpa_core::depth::{cell_depths, cells_and_depths};
use simpa_core::place::{place, Ray};

#[test]
fn depths_count_the_faces_crossed_from_the_exterior() {
    // Faces: exterior|room, room|zone, a sheet in the zone, a face of a stray cell, and a face
    // that is not analysed between the exterior and the stray cell.
    let fc = vec![0, 1, 2, 3, 0];
    let bc = vec![1, 2, 2, 3, 3];
    let an = vec![true, true, true, true, false];
    assert_eq!(cell_depths(&fc, &bc, &an, 4), vec![0, 1, 2, u32::MAX]);
}

#[test]
fn depth_takes_the_fewest_crossings() {
    let fc = vec![0, 1, 0];
    let bc = vec![1, 2, 2];
    let an = vec![true, true, true];
    assert_eq!(cell_depths(&fc, &bc, &an, 3), vec![0, 1, 1]);
}

#[test]
fn an_open_triangle_bounds_no_cell() {
    // One triangle: its three edges are free, so its front and back are one side; its ray
    // leaves through its front and meets nothing, so that side is the exterior.
    let mut sides = Sides::new(1);
    let ext = sides.exterior;
    for third in [0u32, 1, 2] {
        sides.join_edge(&vec![Use { face: 0, fwd: true, third }], false);
    }
    let (unresolved, ambiguous) = place(&mut sides, &vec![Some(Ray { exit: 0, first: vec![] })], &vec![0]);
    assert_eq!((unresolved, ambiguous), (0, 0));
    let (front, back, depth) = cells_and_depths(&mut sides.uf, ext, &vec![true]);
    assert_eq!((front, back, depth), (vec![0], vec![0], vec![0]));
}

#[test]
fn a_closed_sheet_pair_bounds_one_cell_at_depth_one() {
    let mut sides = Sides::new(2);
    let ext = sides.exterior;
    sides.uf.union(0, ext);
    sides.uf.union(2, ext);
    sides.uf.union(1, 3);
    let (front, back, depth) = cells_and_depths(&mut sides.uf, ext, &vec![true, true]);
    assert_eq!((front, back), (vec![0, 0], vec![1, 1]));
    assert_eq!(depth, vec![0, 1]);
}
