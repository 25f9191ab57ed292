use lod_octree::{
    fill_from_root, fill_path_to_node, rebuild, refine_around, NodeAddress, NodeEntry,
    OctreeError, SparseOctree, Visit, VisitCommand,
};
use std::cell::Cell;

fn keep_going(_a: NodeAddress, _e: NodeEntry) -> VisitCommand {
    VisitCommand::Continue
}

fn nodes_of(tree: &SparseOctree) -> Vec<NodeAddress> {
    let mut v = Vec::new();
    for i in 0..tree.len() {
        v.push(tree.address_at(i).unwrap());
    }
    v
}

fn is_strictly_below(top: NodeAddress, mut a: NodeAddress) -> bool {
    while a.level < top.level {
        a = a.parent().unwrap();
        if a == top {
            return true;
        }
    }
    false
}

#[test]
fn fill_visits_parent_first_and_children_in_order() {
    let mut t = SparseOctree::new(2).unwrap();
    let root = NodeAddress::new(1, 1, 0, -1);
    let log = fill_from_root(&mut t, root, &keep_going);
    assert_eq!(log.len(), 9);
    assert_eq!(log[0].address, root);
    for i in 0..8u8 {
        assert_eq!(log[1 + i as usize].address, root.child(i));
    }
    for (i, v) in log.iter().enumerate() {
        assert_eq!(v.entry, NodeEntry::Inserted(i));
        assert_eq!(v.command, VisitCommand::Continue);
        assert_eq!(t.address_at(i), Some(v.address));
    }
    assert_eq!(t.len(), 9);
}

#[test]
fn fill_is_depth_first() {
    let mut t = SparseOctree::new(3).unwrap();
    let root = NodeAddress::new(2, 0, 0, 0);
    let log = fill_from_root(&mut t, root, &keep_going);
    assert_eq!(log.len(), 1 + 8 + 64);
    assert_eq!(log[0].address, root);
    assert_eq!(log[1].address, NodeAddress::new(1, 0, 0, 0));
    assert_eq!(log[2].address, NodeAddress::new(0, 0, 0, 0));
    assert_eq!(log[3].address, NodeAddress::new(0, 0, 0, 1));
    assert_eq!(log[9].address, NodeAddress::new(0, 1, 1, 1));
    assert_eq!(log[10].address, NodeAddress::new(1, 0, 0, 1));
    assert_eq!(log[11].address, NodeAddress::new(0, 0, 0, 2));
    assert_eq!(log[72].address, NodeAddress::new(0, 3, 3, 3));
}

#[test]
fn fill_stops_at_level_zero_whatever_the_visitor_says() {
    let mut t = SparseOctree::new(1).unwrap();
    let root = NodeAddress::new(0, 4, 4, 4);
    let log = fill_from_root(&mut t, root, &keep_going);
    assert_eq!(
        log,
        vec![Visit { address: root, entry: NodeEntry::Inserted(0), command: VisitCommand::Continue }]
    );
    assert_eq!(t.len(), 1);
}

#[test]
fn skip_at_the_root_puts_in_the_root_alone() {
    let mut t = SparseOctree::new(4).unwrap();
    let root = NodeAddress::new(3, 0, 0, 0);
    let log = fill_from_root(&mut t, root, &|_a, _e| VisitCommand::SkipDescendants);
    assert_eq!(log.len(), 1);
    assert_eq!(log[0].command, VisitCommand::SkipDescendants);
    assert_eq!(nodes_of(&t), vec![root]);
}

#[test]
fn the_visitor_is_told_which_nodes_were_there_before() {
    let mut t = SparseOctree::new(2).unwrap();
    let root = NodeAddress::new(1, 0, 0, 0);
    let old = NodeAddress::new(0, 1, 0, 1);
    assert_eq!(t.get_or_insert(old), NodeEntry::Inserted(0));
    let fresh = Cell::new(0usize);
    let present = Cell::new(0usize);
    let log = fill_from_root(&mut t, root, &|_a, e: NodeEntry| {
        if e.is_fresh() {
            fresh.set(fresh.get() + 1);
        } else {
            present.set(present.get() + 1);
        }
        VisitCommand::Continue
    });
    assert_eq!(fresh.get(), 8);
    assert_eq!(present.get(), 1);
    assert_eq!(t.len(), 9);
    for v in &log {
        if v.address == old {
            assert_eq!(v.entry, NodeEntry::Occupied(0));
        } else {
            assert!(v.entry.is_fresh());
        }
        assert_eq!(t.address_at(v.entry.slot()), Some(v.address));
    }
    // a second fill finds every node there and changes nothing
    let again = fill_from_root(&mut t, root, &keep_going);
    assert_eq!(again.len(), 9);
    assert!(again.iter().all(|v| !v.entry.is_fresh()));
    assert_eq!(t.len(), 9);
}

#[test]
fn every_node_below_the_root_has_its_parent() {
    let mut t = SparseOctree::new(5).unwrap();
    let root = NodeAddress::new(4, 0, 0, 0);
    let focus = NodeAddress::new(0, 11, 2, 7);
    refine_around(&mut t, root, focus, 2);
    assert!(t.len() > 9);
    for a in nodes_of(&t) {
        if a.level < 4 {
            assert!(t.contains(a.parent().unwrap()));
        } else {
            assert_eq!(a, root);
        }
    }
}

#[test]
fn nothing_is_put_in_below_a_skipped_node() {
    let mut t = SparseOctree::new(5).unwrap();
    let root = NodeAddress::new(4, 0, 0, 0);
    let focus = NodeAddress::new(0, 11, 2, 7);
    let log = refine_around(&mut t, root, focus, 1);
    let nodes = nodes_of(&t);
    let mut skipped = 0;
    for v in &log {
        if v.command == VisitCommand::SkipDescendants {
            skipped += 1;
            for a in &nodes {
                assert!(!is_strictly_below(v.address, *a));
            }
        }
    }
    assert!(skipped > 0);
}

#[test]
fn refine_follows_the_criterion_at_every_node() {
    let mut t = SparseOctree::new(4).unwrap();
    let root = NodeAddress::new(3, 0, 0, 0);
    let focus = NodeAddress::new(0, 6, 1, 3);
    let log = refine_around(&mut t, root, focus, 1);
    for v in &log {
        let expected = if focus.can_subdivide(v.address, 1) {
            VisitCommand::Continue
        } else {
            VisitCommand::SkipDescendants
        };
        assert_eq!(v.command, expected);
    }
    let by_hand = fill_from_root(&mut SparseOctree::new(4).unwrap(), root, &|a, _e| {
        if focus.can_subdivide(a, 1) {
            VisitCommand::Continue
        } else {
            VisitCommand::SkipDescendants
        }
    });
    assert_eq!(log, by_hand);
}

#[test]
fn focus_at_the_origin_refines_its_chain_and_nothing_far_away() {
    let focus = NodeAddress::new(0, 0, 0, 0);
    let t = rebuild(4, focus, 1).unwrap();
    assert_eq!(t.root_level(), 3);
    for level in 0..4u8 {
        assert!(t.contains(NodeAddress::new(level, 0, 0, 0)));
    }
    // one root, then eight children under the one refined node of each level
    assert_eq!(t.len(), 1 + 8 + 8 + 8);
    for a in nodes_of(&t) {
        assert!(a.x == 0 || a.x == 1);
        assert!(a.y == 0 || a.y == 1);
        assert!(a.z == 0 || a.z == 1);
    }
    assert!(t.contains(NodeAddress::new(0, 1, 1, 1)));
    assert!(!t.contains(NodeAddress::new(0, 2, 0, 0)));
    assert!(!t.contains(NodeAddress::new(0, 0, 3, 0)));
    assert!(!t.contains(NodeAddress::new(0, 7, 7, 7)));
    assert!(!t.contains(NodeAddress::new(1, 2, 0, 0)));
    assert_eq!(t.roots(), vec![NodeAddress::new(3, 0, 0, 0)]);
}

#[test]
fn the_tree_follows_the_focus() {
    let focus = NodeAddress::new(0, 7, 7, 7);
    let t = rebuild(4, focus, 1).unwrap();
    assert!(t.contains(NodeAddress::new(3, 0, 0, 0)));
    assert!(t.contains(NodeAddress::new(2, 1, 1, 1)));
    assert!(t.contains(NodeAddress::new(1, 3, 3, 3)));
    assert!(t.contains(focus));
    assert!(!t.contains(NodeAddress::new(0, 0, 0, 0)));
    assert!(!t.contains(NodeAddress::new(1, 0, 0, 0)));
    assert_eq!(t.address_at(0), Some(NodeAddress::new(3, 0, 0, 0)));
}

#[test]
fn a_focus_outside_the_root_leaves_the_root_alone() {
    let t = rebuild(4, NodeAddress::new(0, 1000, 0, 0), 1).unwrap();
    assert_eq!(nodes_of(&t), vec![NodeAddress::new(3, 0, 0, 0)]);
}

#[test]
fn rebuild_refuses_a_height_of_zero() {
    match rebuild(0, NodeAddress::new(0, 0, 0, 0), 1) {
        Err(e) => assert_eq!(e, OctreeError::InvalidHeight),
        Ok(_) => panic!("a tree of height 0 was made"),
    }
}

#[test]
fn rebuild_of_one_level_holds_the_root() {
    let t = rebuild(1, NodeAddress::new(0, 0, 0, 0), 1).unwrap();
    assert_eq!(nodes_of(&t), vec![NodeAddress::new(0, 0, 0, 0)]);
}

#[test]
fn path_runs_from_the_root_level_down_to_the_target() {
    let mut t = SparseOctree::new(4).unwrap();
    let target = NodeAddress::new(0, 5, 3, 6);
    let log = fill_path_to_node(&mut t, target, &keep_going);
    let path: Vec<NodeAddress> = log.iter().map(|v| v.address).collect();
    assert_eq!(
        path,
        vec![
            NodeAddress::new(3, 0, 0, 0),
            NodeAddress::new(2, 1, 0, 1),
            NodeAddress::new(1, 2, 1, 3),
            NodeAddress::new(0, 5, 3, 6),
        ]
    );
    assert_eq!(nodes_of(&t), path);
}

#[test]
fn path_to_a_negative_target() {
    let mut t = SparseOctree::new(3).unwrap();
    let target = NodeAddress::new(0, -1, -4, 2);
    let log = fill_path_to_node(&mut t, target, &keep_going);
    let path: Vec<NodeAddress> = log.iter().map(|v| v.address).collect();
    assert_eq!(
        path,
        vec![NodeAddress::new(2, -1, -1, 0), NodeAddress::new(1, -1, -2, 1), target]
    );
}

#[test]
fn path_to_a_node_at_the_root_level_is_that_node() {
    let mut t = SparseOctree::new(3).unwrap();
    let target = NodeAddress::new(2, 9, 9, 9);
    let log = fill_path_to_node(&mut t, target, &keep_going);
    assert_eq!(log.len(), 1);
    assert_eq!(nodes_of(&t), vec![target]);
}

#[test]
fn filling_a_path_twice_puts_in_the_same_nodes_as_once() {
    let target = NodeAddress::new(0, 5, 3, 6);
    let mut once = SparseOctree::new(5).unwrap();
    let first = fill_path_to_node(&mut once, target, &keep_going);
    let mut twice = SparseOctree::new(5).unwrap();
    fill_path_to_node(&mut twice, target, &keep_going);
    let second = fill_path_to_node(&mut twice, target, &keep_going);
    assert_eq!(first.len(), 5);
    assert!(first.iter().all(|v| v.entry.is_fresh()));
    assert_eq!(second.len(), 5);
    assert!(second.iter().all(|v| !v.entry.is_fresh()));
    for (a, b) in first.iter().zip(second.iter()) {
        assert_eq!(a.address, b.address);
        assert_eq!(a.entry.slot(), b.entry.slot());
    }
    assert_eq!(nodes_of(&once), nodes_of(&twice));
    assert_eq!(twice.len(), 5);
}

#[test]
fn a_path_ends_behind_the_first_skip() {
    let mut t = SparseOctree::new(5).unwrap();
    let target = NodeAddress::new(0, 5, 3, 6);
    let log = fill_path_to_node(&mut t, target, &|a: NodeAddress, _e| {
        if a.level == 2 {
            VisitCommand::SkipDescendants
        } else {
            VisitCommand::Continue
        }
    });
    let levels: Vec<u8> = log.iter().map(|v| v.address.level).collect();
    assert_eq!(levels, vec![4, 3, 2]);
    assert_eq!(log[2].command, VisitCommand::SkipDescendants);
    assert_eq!(t.len(), 3);
    assert!(!t.contains(target));
}

#[test]
fn a_path_puts_in_no_sibling() {
    let mut t = SparseOctree::new(4).unwrap();
    let target = NodeAddress::new(0, 5, 3, 6);
    fill_path_to_node(&mut t, target, &keep_going);
    for level in 0..4u8 {
        let on_level: Vec<NodeAddress> =
            nodes_of(&t).into_iter().filter(|a| a.level == level).collect();
        assert_eq!(on_level.len(), 1);
    }
}
