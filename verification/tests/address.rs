use lod_octree::{power_of_two, NodeAddress};

#[test]
fn children_come_in_lexicographic_order_of_their_offsets() {
    let p = NodeAddress::new(1, 3, -2, 5);
    let expected = [
        (6, -4, 10),
        (6, -4, 11),
        (6, -3, 10),
        (6, -3, 11),
        (7, -4, 10),
        (7, -4, 11),
        (7, -3, 10),
        (7, -3, 11),
    ];
    for i in 0..8u8 {
        let c = p.child(i);
        assert_eq!(c.level, 0);
        assert_eq!((c.x, c.y, c.z), expected[i as usize]);
    }
}

#[test]
fn parent_halves_and_rounds_down() {
    let a = NodeAddress::new(0, -1, -2, 3);
    assert_eq!(a.parent(), Some(NodeAddress::new(1, -1, -1, 1)));
    let b = NodeAddress::new(7, i32::MIN, i32::MAX, 0);
    assert_eq!(b.parent(), Some(NodeAddress::new(8, -1073741824, 1073741823, 0)));
}

#[test]
fn no_parent_above_the_highest_level() {
    assert_eq!(NodeAddress::new(255, 1, 2, 3).parent(), None);
    assert!(NodeAddress::new(254, 1, 2, 3).parent().is_some());
}

#[test]
fn parent_of_each_child_is_the_node() {
    for &(x, y, z) in &[(0, 0, 0), (-5, 7, -1), (1000, -1000, 3)] {
        let p = NodeAddress::new(4, x, y, z);
        for i in 0..8u8 {
            assert_eq!(p.child(i).parent(), Some(p));
        }
    }
}

#[test]
fn world_box_starts_at_scaled_coordinate() {
    let b = NodeAddress::new(2, -1, 0, 3).world_box();
    assert_eq!((b.min.x, b.min.y, b.min.z), (-4, 0, 12));
    assert_eq!((b.max.x, b.max.y, b.max.z), (0, 4, 16));
    let unit = NodeAddress::new(0, 9, -9, 0).world_box();
    assert_eq!((unit.min.x, unit.min.y, unit.min.z), (9, -9, 0));
    assert_eq!((unit.max.x, unit.max.y, unit.max.z), (10, -8, 1));
}

#[test]
fn world_box_at_the_top_of_index_space() {
    let b = NodeAddress::new(31, -1, 0, 0).world_box();
    assert_eq!(b.min.x, -2147483648);
    assert_eq!(b.max.x, 0);
    assert_eq!(b.min.y, 0);
    assert_eq!(b.max.y, 2147483648);
}

#[test]
fn world_box_of_extreme_coordinates_does_not_overflow() {
    let b = NodeAddress::new(31, i32::MAX, i32::MIN, 0).world_box();
    assert_eq!(b.min.x, 2147483647i64 * 2147483648i64);
    assert_eq!(b.max.x - b.min.x, 2147483648);
    assert_eq!(b.min.y, -2147483648i64 * 2147483648i64);
}

#[test]
fn index_space_holds_exactly_the_cubes_that_fit() {
    assert!(NodeAddress::new(0, i32::MAX, i32::MIN, 0).in_index_space());
    assert!(NodeAddress::new(31, 0, 0, 0).in_index_space());
    assert!(NodeAddress::new(31, -1, -1, -1).in_index_space());
    assert!(!NodeAddress::new(31, 1, 0, 0).in_index_space());
    assert!(!NodeAddress::new(31, 0, -2, 0).in_index_space());
    assert!(!NodeAddress::new(32, 0, 0, 0).in_index_space());
    assert!(!NodeAddress::new(255, 0, 0, 0).in_index_space());
    assert!(NodeAddress::new(1, 1073741823, -1073741824, 0).in_index_space());
    assert!(!NodeAddress::new(1, 1073741824, 0, 0).in_index_space());
    assert!(!NodeAddress::new(1, 0, 0, -1073741825).in_index_space());
}

#[test]
fn power_of_two_values() {
    assert_eq!(power_of_two(0), 1);
    assert_eq!(power_of_two(1), 2);
    assert_eq!(power_of_two(10), 1024);
    assert_eq!(power_of_two(31), 2147483648);
    assert_eq!(power_of_two(62), 4611686018427387904);
}
