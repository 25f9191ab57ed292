use lod_octree::{NodeAddress, NodeEntry, OctreeError, SparseOctree};

#[test]
fn a_height_of_zero_is_refused() {
    match SparseOctree::new(0) {
        Err(e) => assert_eq!(e, OctreeError::InvalidHeight),
        Ok(_) => panic!("a tree of height 0 was made"),
    }
}

#[test]
fn root_level_is_height_minus_one() {
    for h in [1u8, 2, 10, 255] {
        let t = SparseOctree::new(h).unwrap();
        assert_eq!(t.height(), h);
        assert_eq!(t.root_level(), h - 1);
        assert!(t.is_empty());
        assert_eq!(t.len(), 0);
        assert!(t.roots().is_empty());
    }
}

#[test]
fn get_or_insert_puts_a_node_in_once() {
    let mut t = SparseOctree::new(3).unwrap();
    let a = NodeAddress::new(1, 4, -4, 0);
    assert_eq!(t.get(a), None);
    assert!(!t.contains(a));
    assert_eq!(t.get_or_insert(a), NodeEntry::Inserted(0));
    assert_eq!(t.get_or_insert(a), NodeEntry::Occupied(0));
    assert_eq!(t.len(), 1);
    assert_eq!(t.get(a), Some(0));
    assert!(t.contains(a));
    assert_eq!(t.address_at(0), Some(a));
    assert_eq!(t.address_at(1), None);
}

#[test]
fn get_never_puts_anything_in() {
    let mut t = SparseOctree::new(3).unwrap();
    t.get_or_insert(NodeAddress::new(2, 0, 0, 0));
    for x in -3..4 {
        assert_eq!(t.get(NodeAddress::new(1, x, 0, 0)), None);
    }
    assert_eq!(t.len(), 1);
}

#[test]
fn slots_follow_the_order_of_insertion() {
    let mut t = SparseOctree::new(4).unwrap();
    let nodes = [
        NodeAddress::new(3, 0, 0, 0),
        NodeAddress::new(0, 7, 7, 7),
        NodeAddress::new(2, -1, 0, 1),
        NodeAddress::new(3, 1, 0, 0),
    ];
    for (i, a) in nodes.iter().enumerate() {
        let e = t.get_or_insert(*a);
        assert_eq!(e, NodeEntry::Inserted(i));
        assert!(e.is_fresh());
        assert_eq!(e.slot(), i);
    }
    for (i, a) in nodes.iter().enumerate() {
        assert_eq!(t.get(*a), Some(i));
        assert_eq!(t.address_at(i), Some(*a));
        let e = t.get_or_insert(*a);
        assert!(!e.is_fresh());
        assert_eq!(e.slot(), i);
    }
    assert_eq!(t.len(), 4);
}

#[test]
fn roots_are_the_nodes_at_the_root_level_in_order() {
    let mut t = SparseOctree::new(3).unwrap();
    t.get_or_insert(NodeAddress::new(2, 5, 0, 0));
    t.get_or_insert(NodeAddress::new(1, 0, 0, 0));
    t.get_or_insert(NodeAddress::new(2, -5, 0, 0));
    t.get_or_insert(NodeAddress::new(0, 0, 0, 0));
    t.get_or_insert(NodeAddress::new(2, 5, 0, 0));
    assert_eq!(t.roots(), vec![NodeAddress::new(2, 5, 0, 0), NodeAddress::new(2, -5, 0, 0)]);
    assert_eq!(t.roots(), t.roots());
}

#[test]
fn addresses_that_differ_in_one_part_are_different_nodes() {
    let mut t = SparseOctree::new(255).unwrap();
    let nodes = [
        NodeAddress::new(0, 0, 0, 0),
        NodeAddress::new(1, 0, 0, 0),
        NodeAddress::new(254, 0, 0, 0),
        NodeAddress::new(0, 1, 0, 0),
        NodeAddress::new(0, 0, 1, 0),
        NodeAddress::new(0, 0, 0, 1),
        NodeAddress::new(0, -1, 0, 0),
        NodeAddress::new(0, i32::MIN, i32::MAX, -1),
        NodeAddress::new(0, i32::MAX, i32::MIN, -1),
        NodeAddress::new(0, i32::MAX, i32::MAX, i32::MAX),
        NodeAddress::new(0, i32::MIN, i32::MIN, i32::MIN),
        NodeAddress::new(254, i32::MIN, i32::MIN, i32::MIN),
    ];
    for (i, a) in nodes.iter().enumerate() {
        assert_eq!(t.get_or_insert(*a), NodeEntry::Inserted(i));
    }
    for (i, a) in nodes.iter().enumerate() {
        assert_eq!(t.get(*a), Some(i));
    }
    assert_eq!(t.len(), nodes.len());
}
