use simpa_core::volumes::VolumeIds;

#[test]
fn the_room_starts_above_the_largest_seed() {
    assert_eq!(VolumeIds::tetgen(vec![]).room, 1);
    assert_eq!(VolumeIds::tetgen(vec![3, 7, 5]).room, 8);
    assert_eq!(VolumeIds::tetgen(vec![-4, -2]).room, 1);
    let d = VolumeIds::default();
    assert_eq!(d.room, 1);
    assert!(d.fittings.is_empty());
}

#[test]
fn known_ids_stop_at_the_first_gap_in_the_rooms_parts() {
    let ids = VolumeIds::tetgen(vec![2, 5]);
    assert_eq!(ids.room, 6);
    assert!(ids.knows(2));
    assert!(ids.knows(6));
    assert!(ids.knows(100));
    assert!(!ids.knows(3));
    assert!(!ids.knows(0));
    assert_eq!(ids.known_ids(&[0, 2, 5, 6, 7, 9, 10]), vec![2, 5, 6, 7]);
    assert_eq!(ids.known_ids(&[7, 8]), Vec::<i32>::new());
    assert_eq!(ids.known_ids(&[]), Vec::<i32>::new());
    let top = VolumeIds { room: i32::MAX, fittings: vec![] };
    assert_eq!(top.known_ids(&[i32::MAX]), vec![i32::MAX]);
}
