//! Walking a tree that was built: a depth-first enumeration of the nodes
//! that are there, with their cubes in world space.

use crate::address::{
    is_world_box, lemma_index_space_level, GridCell, NodeAddress, WorldBox,
};
use crate::octree::SparseOctree;
use crate::traversal::{
    lemma_children_agree, lemma_children_place, lemma_preorder_agree, lemma_preorder_ancestors,
    lemma_preorder_covered, lemma_preorder_members, lemma_preorder_no_duplicates,
    lemma_preorder_reaches, preorder, preorder_children, reached, VisitCommand,
};
use vstd::prelude::*;

verus! {

/// One step of a walk: the node visited, its cube in world space, and what
/// the visitor answered.
#[derive(Clone, Copy, Debug, PartialEq, Eq, Structural)]
pub struct WalkStep {
    pub address: NodeAddress,
    pub bounds: WorldBox,
    pub command: VisitCommand,
}

/// The cells walked, in order.
pub open spec fn walked(log: Seq<WalkStep>) -> Seq<GridCell> {
    log.map_values(|s: WalkStep| s.address@)
}

/// The cells at which the visitor answered `Continue`.
pub open spec fn passed(log: Seq<WalkStep>) -> Set<GridCell> {
    Set::new(
        |c: GridCell|
            exists|i: int|
                0 <= i < log.len() && (#[trigger] log[i]).address@ == c && log[i].command
                    == VisitCommand::Continue,
    )
}

/// Every step holds the cube of its node, and its command is one that the
/// visitor gave for that node and cube.
pub open spec fn observed<F: Fn(NodeAddress, WorldBox) -> VisitCommand>(
    visitor: F,
    log: Seq<WalkStep>,
) -> bool {
    forall|i: int|
        0 <= i < log.len() ==> is_world_box((#[trigger] log[i]).address@, log[i].bounds)
            && call_ensures(visitor, (log[i].address, log[i].bounds), log[i].command)
}

/// What a walk from `root` leaves: the log is the depth-first order from
/// `root` through the cells that are present, going below exactly the cells
/// at which the visitor answered `Continue`.
pub open spec fn walk_outcome<F: Fn(NodeAddress, WorldBox) -> VisitCommand>(
    visitor: F,
    root: GridCell,
    present: Set<GridCell>,
    log: Seq<WalkStep>,
) -> bool {
    &&& walked(log) == preorder(root, present, passed(log))
    &&& observed(visitor, log)
}

/// The same for the part of a walk below the first `upto` children of
/// `parent`.
pub open spec fn walk_children_outcome<F: Fn(NodeAddress, WorldBox) -> VisitCommand>(
    visitor: F,
    parent: GridCell,
    upto: int,
    present: Set<GridCell>,
    log: Seq<WalkStep>,
) -> bool {
    &&& walked(log) == preorder_children(parent, present, passed(log), upto)
    &&& observed(visitor, log)
}

/// A cell at which the visitor answered `Continue` was walked.
pub proof fn lemma_passed_walked(log: Seq<WalkStep>, c: GridCell)
    requires
        passed(log).contains(c),
    ensures
        walked(log).contains(c),
{
    let i = choose|i: int|
        0 <= i < log.len() && (#[trigger] log[i]).address@ == c && log[i].command
            == VisitCommand::Continue;
    assert(walked(log)[i] == c);
}

/// A cell was passed in a log of two parts if it was passed in one of
/// them.
proof fn lemma_passed_concat(a: Seq<WalkStep>, b: Seq<WalkStep>, c: GridCell)
    ensures
        passed(a + b).contains(c) <==> passed(a).contains(c) || passed(b).contains(c),
{
    if passed(a + b).contains(c) {
        let i = choose|i: int|
            0 <= i < (a + b).len() && (#[trigger] (a + b)[i]).address@ == c && (a + b)[i].command
                == VisitCommand::Continue;
        if i < a.len() {
            assert(a[i].address@ == c);
        } else {
            assert(b[i - a.len()].address@ == c);
        }
    }
    if passed(a).contains(c) {
        let i = choose|i: int|
            0 <= i < a.len() && (#[trigger] a[i]).address@ == c && a[i].command
                == VisitCommand::Continue;
        assert((a + b)[i].address@ == c);
    }
    if passed(b).contains(c) {
        let i = choose|i: int|
            0 <= i < b.len() && (#[trigger] b[i]).address@ == c && b[i].command
                == VisitCommand::Continue;
        assert((a + b)[a.len() + i].address@ == c);
    }
}

/// The walk below one more child extends the walk below the children
/// before it.
proof fn lemma_walk_step<F: Fn(NodeAddress, WorldBox) -> VisitCommand>(
    visitor: F,
    parent: GridCell,
    i: int,
    present: Set<GridCell>,
    seg: Seq<WalkStep>,
    more: Seq<WalkStep>,
)
    requires
        parent.level > 0,
        0 <= i < 8,
        walk_children_outcome(visitor, parent, i, present, seg),
        walk_outcome(visitor, parent.child(i), present, more),
    ensures
        walk_children_outcome(visitor, parent, i + 1, present, seg + more),
{
    let all = seg + more;
    let kid = parent.child(i);
    assert(walked(all) =~= walked(seg) + walked(more));
    assert forall|x: GridCell| #[trigger]
        preorder_children(parent, present, passed(seg), i).contains(x) implies (passed(
        seg,
    ).contains(x) <==> passed(all).contains(x)) by {
        lemma_passed_concat(seg, more, x);
        if passed(more).contains(x) {
            lemma_passed_walked(more, x);
            lemma_preorder_covered(kid, present, passed(more), x);
            lemma_children_place(parent, present, passed(seg), i, i, x);
        }
    }
    lemma_children_agree(parent, present, passed(seg), passed(all), i);
    assert forall|x: GridCell| #[trigger]
        preorder(kid, present, passed(more)).contains(x) implies (passed(more).contains(x)
        <==> passed(all).contains(x)) by {
        lemma_passed_concat(seg, more, x);
        lemma_preorder_covered(kid, present, passed(more), x);
        if passed(seg).contains(x) {
            lemma_passed_walked(seg, x);
            lemma_children_place(parent, present, passed(seg), i, i, x);
        }
    }
    lemma_preorder_agree(kid, present, passed(more), passed(all));
    assert(walked(all) == preorder_children(parent, present, passed(all), i + 1));
    assert forall|k: int| 0 <= k < all.len() implies is_world_box(
        (#[trigger] all[k]).address@,
        all[k].bounds,
    ) && call_ensures(visitor, (all[k].address, all[k].bounds), all[k].command) by {
        if k < seg.len() {
            assert(all[k] == seg[k]);
        } else {
            assert(all[k] == more[k - seg.len()]);
        }
    }
}

/// A step at a present cell followed by the walk below its children, or by
/// nothing where the descent stops, is a walk from that cell.
proof fn lemma_walk_close<F: Fn(NodeAddress, WorldBox) -> VisitCommand>(
    visitor: F,
    present: Set<GridCell>,
    s: WalkStep,
    below: Seq<WalkStep>,
)
    requires
        present.contains(s.address@),
        is_world_box(s.address@, s.bounds),
        call_ensures(visitor, (s.address, s.bounds), s.command),
        if s.command == VisitCommand::Continue && s.address.level > 0 {
            walk_children_outcome(visitor, s.address@, 8, present, below)
        } else {
            below == Seq::<WalkStep>::empty()
        },
    ensures
        walk_outcome(visitor, s.address@, present, seq![s] + below),
{
    let c = s.address@;
    let all = seq![s] + below;
    assert(walked(all) =~= seq![c] + walked(below));
    if s.command == VisitCommand::Continue && s.address.level > 0 {
        assert(all[0].address@ == c);
        assert(passed(all).contains(c));
        assert forall|x: GridCell| #[trigger]
            preorder_children(c, present, passed(below), 8).contains(x) implies (passed(
            below,
        ).contains(x) <==> passed(all).contains(x)) by {
            lemma_passed_concat(seq![s], below, x);
            lemma_children_place(c, present, passed(below), 8, 7, x);
            if passed(seq![s]).contains(x) {
                lemma_passed_walked(seq![s], x);
            }
        }
        lemma_children_agree(c, present, passed(below), passed(all), 8);
        assert forall|k: int| 0 <= k < all.len() implies is_world_box(
            (#[trigger] all[k]).address@,
            all[k].bounds,
        ) && call_ensures(visitor, (all[k].address, all[k].bounds), all[k].command) by {
            if k > 0 {
                assert(all[k] == below[k - 1]);
            }
        }
    } else {
        assert(all =~= seq![s]);
        if passed(all).contains(c) {
            let i = choose|i: int|
                0 <= i < all.len() && (#[trigger] all[i]).address@ == c && all[i].command
                    == VisitCommand::Continue;
        }
    }
}

/// Walks the node at `address`, if the tree holds it, and below it where
/// the visitor says so.
fn walk_subtree<F: Fn(NodeAddress, WorldBox) -> VisitCommand>(
    tree: &SparseOctree,
    address: NodeAddress,
    visitor: &F,
    log: &mut Vec<WalkStep>,
)
    requires
        tree.wf(),
        address@.in_index_space(),
        forall|a: NodeAddress, b: WorldBox| call_requires(*visitor, (a, b)),
    ensures
        final(log)@.len() >= old(log)@.len(),
        final(log)@.take(old(log)@.len() as int) == old(log)@,
        walk_outcome(
            *visitor,
            address@,
            tree.cells(),
            final(log)@.skip(old(log)@.len() as int),
        ),
    decreases address.level, 1int,
{
    let ghost l0 = log@;
    let ghost n = l0.len() as int;
    if !tree.contains(address) {
        proof {
            assert(log@.skip(n) =~= Seq::<WalkStep>::empty());
            assert(walked(log@.skip(n)) =~= Seq::<GridCell>::empty());
            assert(log@.take(n) =~= l0);
        }
        return ;
    }
    proof {
        lemma_index_space_level(address@);
    }
    let bounds = address.world_box();
    let command = visitor(address, bounds);
    let s = WalkStep { address, bounds, command };
    log.push(s);
    let ghost l1 = log@;
    let descend = match command {
        VisitCommand::Continue => address.level > 0,
        VisitCommand::SkipDescendants => false,
    };
    if descend {
        walk_children(tree, address, visitor, log);
    }
    proof {
        let below = log@.skip(n + 1);
        assert(l1 == l0.push(s) && l1.len() == n + 1);
        if descend {
            assert(log@.take(l1.len() as int) == l1);
            assert(below == log@.skip(l1.len() as int));
        } else {
            assert(log@.take(n + 1) =~= l1);
            assert(below =~= Seq::<WalkStep>::empty());
        }
        assert(log@.take(n + 1) == l1);
        assert(log@[n] == log@.take(n + 1)[n]);
        assert(log@.take(n) =~= log@.take(n + 1).take(n));
        assert(log@.take(n) =~= l0);
        assert(log@.skip(n) =~= seq![s] + below);
        lemma_walk_close(*visitor, tree.cells(), s, below);
    }
}

/// Walks below each of the eight children of `parent`, in their order.
fn walk_children<F: Fn(NodeAddress, WorldBox) -> VisitCommand>(
    tree: &SparseOctree,
    parent: NodeAddress,
    visitor: &F,
    log: &mut Vec<WalkStep>,
)
    requires
        tree.wf(),
        parent.level > 0,
        parent@.in_index_space(),
        forall|a: NodeAddress, b: WorldBox| call_requires(*visitor, (a, b)),
    ensures
        final(log)@.len() >= old(log)@.len(),
        final(log)@.take(old(log)@.len() as int) == old(log)@,
        walk_children_outcome(
            *visitor,
            parent@,
            8,
            tree.cells(),
            final(log)@.skip(old(log)@.len() as int),
        ),
    decreases parent.level, 0int,
{
    let ghost l0 = log@;
    let mut i: u8 = 0;
    proof {
        assert(log@.skip(l0.len() as int) =~= Seq::<WalkStep>::empty());
        assert(walked(Seq::<WalkStep>::empty()) =~= Seq::<GridCell>::empty());
        assert(log@.take(l0.len() as int) =~= l0);
    }
    while i < 8
        invariant
            i <= 8,
            tree.wf(),
            parent.level > 0,
            parent@.in_index_space(),
            forall|a: NodeAddress, b: WorldBox| call_requires(*visitor, (a, b)),
            log@.len() >= l0.len(),
            log@.take(l0.len() as int) == l0,
            walk_children_outcome(
                *visitor,
                parent@,
                i as int,
                tree.cells(),
                log@.skip(l0.len() as int),
            ),
        decreases 8 - i,
    {
        let ghost l1 = log@;
        let kid = parent.child(i);
        walk_subtree(tree, kid, visitor, log);
        proof {
            let seg = l1.skip(l0.len() as int);
            let more = log@.skip(l1.len() as int);
            assert(log@ =~= log@.take(l1.len() as int) + more);
            assert(log@.skip(l0.len() as int) =~= seg + more);
            assert(log@.take(l0.len() as int) =~= l1.take(l0.len() as int));
            lemma_walk_step(*visitor, parent@, i as int, tree.cells(), seg, more);
        }
        i = i + 1;
    }
}

/// Walks the nodes of the tree from `root` downwards, parent before
/// children and children in the order of their index. Only nodes that the
/// tree holds are visited; each is shown to `visitor` with its address and
/// its cube in world space. On `Continue` the walk goes on below the node,
/// on `SkipDescendants` and at level 0 it does not. Nothing is put in. The
/// log holds the steps in order.
pub fn visit_depth_first<F: Fn(NodeAddress, WorldBox) -> VisitCommand>(
    tree: &SparseOctree,
    root: NodeAddress,
    visitor: &F,
) -> (log: Vec<WalkStep>)
    requires
        tree.wf(),
        root@.in_index_space(),
        forall|a: NodeAddress, b: WorldBox| call_requires(*visitor, (a, b)),
    ensures
        walk_outcome(*visitor, root@, tree.cells(), log@),
{
    let mut log: Vec<WalkStep> = Vec::new();
    walk_subtree(tree, root, visitor, &mut log);
    proof {
        assert(log@.skip(0) =~= log@);
    }
    log
}

/// A walk visits exactly the nodes under the root that hang on it by an
/// unbroken chain of nodes of the tree at each of which, above the node
/// itself, the visitor answered `Continue`; and it visits each of them once.
pub proof fn lemma_walk_exact<F: Fn(NodeAddress, WorldBox) -> VisitCommand>(
    visitor: F,
    root: GridCell,
    present: Set<GridCell>,
    log: Seq<WalkStep>,
)
    requires
        walk_outcome(visitor, root, present, log),
    ensures
        walked(log).no_duplicates(),
        forall|x: GridCell|
            walked(log).contains(x) <==> reached(root, present, passed(log), x),
{
    lemma_preorder_no_duplicates(root, present, passed(log));
    assert forall|x: GridCell|
        walked(log).contains(x) <==> reached(root, present, passed(log), x) by {
        lemma_preorder_members(root, present, passed(log), x);
    }
}

/// A walk whose visitor always answers `Continue` visits exactly the nodes
/// under the root that hang on it by an unbroken chain of nodes of the
/// tree, and each of them once.
pub proof fn lemma_walk_complete<F: Fn(NodeAddress, WorldBox) -> VisitCommand>(
    visitor: F,
    root: GridCell,
    present: Set<GridCell>,
    log: Seq<WalkStep>,
)
    requires
        walk_outcome(visitor, root, present, log),
        forall|i: int| 0 <= i < log.len() ==> (#[trigger] log[i]).command == VisitCommand::Continue,
    ensures
        walked(log).no_duplicates(),
        forall|x: GridCell|
            walked(log).contains(x) <==> root.covers(x) && forall|n: nat|
                n <= root.level - x.level ==> present.contains(#[trigger] x.ancestor(n)),
{
    let open = passed(log);
    lemma_preorder_no_duplicates(root, present, open);
    assert forall|x: GridCell|
        walked(log).contains(x) <==> root.covers(x) && forall|n: nat|
            n <= root.level - x.level ==> present.contains(#[trigger] x.ancestor(n)) by {
        if walked(log).contains(x) {
            lemma_preorder_covered(root, present, open, x);
            assert forall|n: nat| n <= root.level - x.level implies present.contains(
                #[trigger] x.ancestor(n),
            ) by {
                lemma_preorder_ancestors(root, present, open, x, n);
            }
        }
        if root.covers(x) && forall|n: nat|
            n <= root.level - x.level ==> present.contains(#[trigger] x.ancestor(n)) {
            lemma_walk_reaches(visitor, root, present, log, x);
        }
    }
}

/// With a visitor that always answers `Continue`, a walk reaches every cell
/// whose ancestors up to the root are all present.
proof fn lemma_walk_reaches<F: Fn(NodeAddress, WorldBox) -> VisitCommand>(
    visitor: F,
    root: GridCell,
    present: Set<GridCell>,
    log: Seq<WalkStep>,
    x: GridCell,
)
    requires
        walk_outcome(visitor, root, present, log),
        forall|i: int| 0 <= i < log.len() ==> (#[trigger] log[i]).command == VisitCommand::Continue,
        root.covers(x),
        forall|n: nat| n <= root.level - x.level ==> present.contains(#[trigger] x.ancestor(n)),
    ensures
        walked(log).contains(x),
{
    lemma_walk_all_open(visitor, root, present, log);
    lemma_preorder_reaches(root, present, Set::full(), x);
}

/// A walk whose visitor always answers `Continue` is the traversal in
/// which every cell is open.
pub proof fn lemma_walk_all_open<F: Fn(NodeAddress, WorldBox) -> VisitCommand>(
    visitor: F,
    root: GridCell,
    present: Set<GridCell>,
    log: Seq<WalkStep>,
)
    requires
        walk_outcome(visitor, root, present, log),
        forall|i: int| 0 <= i < log.len() ==> (#[trigger] log[i]).command == VisitCommand::Continue,
    ensures
        walked(log) == preorder(root, present, Set::full()),
{
    let full = Set::<GridCell>::full();
    let open = passed(log);
    assert forall|y: GridCell| #[trigger] preorder(root, present, open).contains(y) implies (
    open.contains(y) <==> full.contains(y)) by {
        let i = choose|i: int| 0 <= i < walked(log).len() && walked(log)[i] == y;
        assert(log[i].address@ == y && log[i].command == VisitCommand::Continue);
    }
    lemma_preorder_agree(root, present, open, full);
}

/// What a consumer is told of a node: where it stands in the tree.
#[derive(Clone, Copy, Debug, PartialEq, Eq, Structural)]
pub enum NodeCategory {
    /// A node at the root level.
    Root,
    /// A node between the root level and level 0.
    Internal,
    /// A node at level 0, below the root level.
    Leaf,
}

/// The category of a node at `level` in a tree whose roots sit at
/// `root_level`.
pub open spec fn category_of(level: u8, root_level: u8) -> NodeCategory {
    if level == root_level {
        NodeCategory::Root
    } else if level == 0 {
        NodeCategory::Leaf
    } else {
        NodeCategory::Internal
    }
}

/// The category of a node at `level` in a tree whose roots sit at
/// `root_level`.
pub fn categorize(level: u8, root_level: u8) -> (c: NodeCategory)
    ensures
        c == category_of(level, root_level),
{
    if level == root_level {
        NodeCategory::Root
    } else if level == 0 {
        NodeCategory::Leaf
    } else {
        NodeCategory::Internal
    }
}

/// A node as a consumer gets it: address, cube in world space, category.
#[derive(Clone, Copy, Debug, PartialEq, Eq, Structural)]
pub struct VisibleNode {
    pub address: NodeAddress,
    pub bounds: WorldBox,
    pub category: NodeCategory,
}

/// The cells of the nodes listed, in order.
pub open spec fn listed(out: Seq<VisibleNode>) -> Seq<GridCell> {
    out.map_values(|v: VisibleNode| v.address@)
}

/// The full depth-first order from each of `roots` in turn.
pub open spec fn forest(roots: Seq<NodeAddress>, present: Set<GridCell>) -> Seq<GridCell>
    decreases roots.len(),
{
    if roots.len() == 0 {
        Seq::empty()
    } else {
        forest(roots.drop_last(), present) + preorder(roots.last()@, present, Set::full())
    }
}

/// Every node of the tree that hangs on a root, root by root in the order
/// in which the roots were put in and depth-first below each, with its
/// cube in world space and its category.
pub fn visible_nodes(tree: &SparseOctree) -> (out: Vec<VisibleNode>)
    requires
        tree.wf(),
        tree.roots_in_index_space(),
    ensures
        listed(out@) == forest(
            tree@.filter(|a: NodeAddress| a.level == tree.spec_root_level()),
            tree.cells(),
        ),
        forall|i: int|
            0 <= i < out@.len() ==> is_world_box((#[trigger] out@[i]).address@, out@[i].bounds)
                && out@[i].category == category_of(
                out@[i].address.level,
                tree.spec_root_level(),
            ),
{
    let top = tree.root_level();
    let roots = tree.roots();
    let mut out: Vec<VisibleNode> = Vec::new();
    let mut i: usize = 0;
    proof {
        assert(roots@.take(0) =~= Seq::<NodeAddress>::empty());
        assert(listed(out@) =~= Seq::<GridCell>::empty());
    }
    while i < roots.len()
        invariant
            i <= roots@.len(),
            tree.wf(),
            tree.roots_in_index_space(),
            top == tree.spec_root_level(),
            forall|k: int|
                0 <= k < roots@.len() ==> tree@.contains(#[trigger] roots@[k]) && roots@[k].level
                    == top,
            listed(out@) == forest(roots@.take(i as int), tree.cells()),
            forall|k: int|
                0 <= k < out@.len() ==> is_world_box(
                    (#[trigger] out@[k]).address@,
                    out@[k].bounds,
                ) && out@[k].category == category_of(out@[k].address.level, top),
        decreases roots@.len() - i,
    {
        let root = roots[i];
        let always = |a: NodeAddress, b: WorldBox| -> (c: VisitCommand)
            ensures
                c == VisitCommand::Continue,
            { VisitCommand::Continue };
        proof {
            assert(tree@.contains(roots@[i as int]));
            let k = choose|k: int| 0 <= k < tree@.len() && tree@[k] == root;
            assert(tree@[k]@.in_index_space());
        }
        let steps = visit_depth_first(tree, root, &always);
        let ghost base = out@;
        proof {
            lemma_walk_all_open(always, root@, tree.cells(), steps@);
            let next = roots@.take(i + 1);
            assert(next.drop_last() =~= roots@.take(i as int));
            assert(next.last() == root);
            assert(steps@.take(0) =~= Seq::<WalkStep>::empty());
            assert(listed(base) + walked(steps@.take(0)) =~= listed(base));
        }
        let mut j: usize = 0;
        while j < steps.len()
            invariant
                j <= steps@.len(),
                top == tree.spec_root_level(),
                observed(always, steps@),
                listed(out@) == listed(base) + walked(steps@.take(j as int)),
                forall|k: int|
                    0 <= k < out@.len() ==> is_world_box(
                        (#[trigger] out@[k]).address@,
                        out@[k].bounds,
                    ) && out@[k].category == category_of(out@[k].address.level, top),
            decreases steps@.len() - j,
        {
            let s = steps[j];
            let node = VisibleNode {
                address: s.address,
                bounds: s.bounds,
                category: categorize(s.address.level, top),
            };
            let ghost before = out@;
            out.push(node);
            proof {
                assert(steps@.take(j + 1) =~= steps@.take(j as int).push(s));
                assert(walked(steps@.take(j + 1)) =~= walked(steps@.take(j as int)).push(
                    s.address@,
                ));
                assert(listed(out@) =~= listed(before).push(s.address@));
                assert forall|k: int| 0 <= k < out@.len() implies is_world_box(
                    (#[trigger] out@[k]).address@,
                    out@[k].bounds,
                ) && out@[k].category == category_of(out@[k].address.level, top) by {
                    if k < before.len() {
                        assert(out@[k] == before[k]);
                    }
                }
            }
            j = j + 1;
        }
        proof {
            assert(steps@.take(j as int) =~= steps@);
        }
        i = i + 1;
    }
    proof {
        assert(roots@.take(i as int) =~= roots@);
    }
    out
}

} // verus!
