use simpa_core::cells::Sides;
use simpa_core::place::{place, Ray};

#[test]
fn an_inner_component_is_joined_to_the_one_around_it() {
    // Component 0 is face 0, component 1 is face 1. Face 1's ray leaves through its front
    // (node 2) and meets face 0 from behind (node 1): component 1 lies inside component 0.
    // Face 0's ray leaves through its front (node 0) and meets nothing.
    let mut sides = Sides::new(2);
    let ext = sides.exterior;
    let rays = vec![
        Some(Ray { exit: 0, first: vec![] }),
        Some(Ray { exit: 2, first: vec![(0, 1)] }),
    ];
    let (unresolved, ambiguous) = place(&mut sides, &rays, &vec![0, 1]);
    assert_eq!((unresolved, ambiguous), (0, 0));
    assert_eq!(sides.uf.find(0), sides.uf.find(ext));
    assert_eq!(sides.uf.find(2), sides.uf.find(1));
    assert_ne!(sides.uf.find(1), sides.uf.find(ext));
    assert_ne!(sides.uf.find(3), sides.uf.find(ext));
}

#[test]
fn a_failed_ray_joins_the_seed_front_to_the_exterior() {
    let mut sides = Sides::new(2);
    let ext = sides.exterior;
    let rays = vec![None, Some(Ray { exit: 2, first: vec![(0, 1)] })];
    let (unresolved, ambiguous) = place(&mut sides, &rays, &vec![0, 1]);
    assert_eq!((unresolved, ambiguous), (1, 0));
    assert_eq!(sides.uf.find(0), sides.uf.find(ext));
    // Component 0 cast no ray, so it encloses nothing: component 1 goes to the exterior too.
    assert_eq!(sides.uf.find(2), sides.uf.find(ext));
}
