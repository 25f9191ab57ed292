use lod_octree::{
    categorize, fill_from_root, fill_path_to_node, rebuild, visible_nodes, visit_depth_first,
    NodeAddress, NodeCategory, NodeEntry, SparseOctree, VisitCommand, WorldBox,
};
use std::cell::Cell;

fn keep_going(_a: NodeAddress, _e: NodeEntry) -> VisitCommand {
    VisitCommand::Continue
}

fn look_on(_a: NodeAddress, _b: WorldBox) -> VisitCommand {
    VisitCommand::Continue
}

#[test]
fn walk_visits_every_node_of_a_built_tree_once() {
    let t = rebuild(5, NodeAddress::new(0, 9, 4, 13), 2).unwrap();
    let root = NodeAddress::new(4, 0, 0, 0);
    let steps = visit_depth_first(&t, root, &look_on);
    assert_eq!(steps.len(), t.len());
    let mut seen: Vec<NodeAddress> = steps.iter().map(|s| s.address).collect();
    for a in &seen {
        assert!(t.contains(*a));
    }
    seen.sort_by_key(|a| (a.level, a.x, a.y, a.z));
    seen.dedup();
    assert_eq!(seen.len(), t.len());
}

#[test]
fn walk_keeps_the_order_of_the_fill() {
    let mut t = SparseOctree::new(4).unwrap();
    let root = NodeAddress::new(3, 0, 0, 0);
    let focus = NodeAddress::new(0, 6, 1, 3);
    let log = lod_octree::refine_around(&mut t, root, focus, 1);
    let steps = visit_depth_first(&t, root, &look_on);
    let filled: Vec<NodeAddress> = log.iter().map(|v| v.address).collect();
    let walked: Vec<NodeAddress> = steps.iter().map(|s| s.address).collect();
    assert_eq!(filled, walked);
}

#[test]
fn walk_visits_only_what_is_there() {
    let mut t = SparseOctree::new(4).unwrap();
    let target = NodeAddress::new(0, 5, 3, 6);
    fill_path_to_node(&mut t, target, &keep_going);
    let steps = visit_depth_first(&t, NodeAddress::new(3, 0, 0, 0), &look_on);
    let walked: Vec<NodeAddress> = steps.iter().map(|s| s.address).collect();
    assert_eq!(
        walked,
        vec![
            NodeAddress::new(3, 0, 0, 0),
            NodeAddress::new(2, 1, 0, 1),
            NodeAddress::new(1, 2, 1, 3),
            NodeAddress::new(0, 5, 3, 6),
        ]
    );
    assert_eq!(t.len(), 4);
}

#[test]
fn walk_does_not_reach_a_node_whose_parent_is_missing() {
    let mut t = SparseOctree::new(3).unwrap();
    let root = NodeAddress::new(2, 0, 0, 0);
    t.get_or_insert(root);
    t.get_or_insert(NodeAddress::new(0, 1, 1, 1));
    let steps = visit_depth_first(&t, root, &look_on);
    assert_eq!(steps.len(), 1);
    assert_eq!(steps[0].address, root);
}

#[test]
fn walk_from_a_node_that_is_not_there_visits_nothing() {
    let t = rebuild(3, NodeAddress::new(0, 0, 0, 0), 1).unwrap();
    assert!(visit_depth_first(&t, NodeAddress::new(2, 1, 0, 0), &look_on).is_empty());
    let empty = SparseOctree::new(3).unwrap();
    assert!(visit_depth_first(&empty, NodeAddress::new(2, 0, 0, 0), &look_on).is_empty());
}

#[test]
fn walk_from_an_inner_node_stays_below_it() {
    let mut t = SparseOctree::new(3).unwrap();
    fill_from_root(&mut t, NodeAddress::new(2, 0, 0, 0), &keep_going);
    let inner = NodeAddress::new(1, 1, 0, 1);
    let steps = visit_depth_first(&t, inner, &look_on);
    assert_eq!(steps.len(), 9);
    assert_eq!(steps[0].address, inner);
    for i in 0..8u8 {
        assert_eq!(steps[1 + i as usize].address, inner.child(i));
    }
}

#[test]
fn skip_leaves_out_what_lies_below() {
    let mut t = SparseOctree::new(3).unwrap();
    let root = NodeAddress::new(2, 0, 0, 0);
    fill_from_root(&mut t, root, &keep_going);
    let calls = Cell::new(0usize);
    let steps = visit_depth_first(&t, root, &|a: NodeAddress, _b: WorldBox| {
        calls.set(calls.get() + 1);
        if a.level == 1 && a.x == 0 {
            VisitCommand::SkipDescendants
        } else {
            VisitCommand::Continue
        }
    });
    // the root, eight children, and the grandchildren under four of them
    assert_eq!(steps.len(), 1 + 8 + 4 * 8);
    assert_eq!(calls.get(), steps.len());
    for s in &steps {
        if s.address.level == 0 {
            assert!(s.address.x >= 2);
        }
    }
    let at_root = visit_depth_first(&t, root, &|_a, _b| VisitCommand::SkipDescendants);
    assert_eq!(at_root.len(), 1);
}

#[test]
fn every_step_carries_the_cube_of_its_node() {
    let mut t = SparseOctree::new(4).unwrap();
    let root = NodeAddress::new(3, -1, 0, 2);
    lod_octree::refine_around(&mut t, root, NodeAddress::new(0, -3, 5, 17), 1);
    let steps = visit_depth_first(&t, root, &|a: NodeAddress, b: WorldBox| {
        assert_eq!(b, a.world_box());
        VisitCommand::Continue
    });
    assert!(steps.len() > 9);
    for s in &steps {
        let edge = 1i64 << s.address.level;
        assert_eq!(s.bounds.min.x, s.address.x as i64 * edge);
        assert_eq!(s.bounds.min.y, s.address.y as i64 * edge);
        assert_eq!(s.bounds.min.z, s.address.z as i64 * edge);
        assert_eq!(s.bounds.max.x - s.bounds.min.x, edge);
        assert_eq!(s.bounds.max.y - s.bounds.min.y, edge);
        assert_eq!(s.bounds.max.z - s.bounds.min.z, edge);
    }
    assert_eq!(steps[0].bounds.min.x, -8);
    assert_eq!(steps[0].bounds.max.x, 0);
    assert_eq!(steps[0].bounds.min.z, 16);
    assert_eq!(steps[0].bounds.max.z, 24);
}

#[test]
fn categories_go_by_level() {
    assert_eq!(categorize(3, 3), NodeCategory::Root);
    assert_eq!(categorize(2, 3), NodeCategory::Internal);
    assert_eq!(categorize(1, 3), NodeCategory::Internal);
    assert_eq!(categorize(0, 3), NodeCategory::Leaf);
    assert_eq!(categorize(0, 0), NodeCategory::Root);
}

#[test]
fn visible_nodes_of_a_built_tree() {
    let t = rebuild(4, NodeAddress::new(0, 0, 0, 0), 1).unwrap();
    let nodes = visible_nodes(&t);
    assert_eq!(nodes.len(), 25);
    assert_eq!(nodes[0].address, NodeAddress::new(3, 0, 0, 0));
    assert_eq!(nodes[0].category, NodeCategory::Root);
    assert_eq!((nodes[0].bounds.min.x, nodes[0].bounds.max.x), (0, 8));
    let roots = nodes.iter().filter(|n| n.category == NodeCategory::Root).count();
    let inner = nodes.iter().filter(|n| n.category == NodeCategory::Internal).count();
    let leaves = nodes.iter().filter(|n| n.category == NodeCategory::Leaf).count();
    assert_eq!((roots, inner, leaves), (1, 16, 8));
    for n in &nodes {
        assert_eq!(n.bounds, n.address.world_box());
        assert_eq!(n.category, categorize(n.address.level, 3));
    }
}

#[test]
fn visible_nodes_go_root_by_root() {
    let mut t = SparseOctree::new(2).unwrap();
    let first = NodeAddress::new(1, 4, 0, 0);
    let second = NodeAddress::new(1, -4, 0, 0);
    t.get_or_insert(first);
    t.get_or_insert(second.child(3));
    t.get_or_insert(second);
    t.get_or_insert(first.child(6));
    t.get_or_insert(first.child(2));
    let seen: Vec<NodeAddress> = visible_nodes(&t).iter().map(|n| n.address).collect();
    assert_eq!(seen, vec![first, first.child(2), first.child(6), second, second.child(3)]);
}

#[test]
fn visible_nodes_of_a_tree_of_one_level_are_roots() {
    let t = rebuild(1, NodeAddress::new(0, 0, 0, 0), 1).unwrap();
    let nodes = visible_nodes(&t);
    assert_eq!(nodes.len(), 1);
    assert_eq!(nodes[0].category, NodeCategory::Root);
    assert!(visible_nodes(&SparseOctree::new(1).unwrap()).is_empty());
}
