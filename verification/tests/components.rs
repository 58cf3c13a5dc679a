use simpa_core::cells::UnionFind;
use simpa_core::components::number_components;

#[test]
fn components_are_numbered_in_order_of_their_first_face() {
    let mut uf = UnionFind::new(5);
    uf.union(1, 3);
    uf.union(0, 4);
    let (comp, count) = number_components(&mut uf, &vec![true, true, true, true, false]);
    assert_eq!(comp, vec![0, 1, 2, 1, u32::MAX]);
    assert_eq!(count, 3);
}
