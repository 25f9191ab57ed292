//! Filling a tree from the top: a depth-first descent that puts in every
//! node it visits and asks a visitor whether to go below it.

use crate::address::{lemma_ancestor_add, lemma_ancestor_level, GridCell, NodeAddress};
use crate::criterion::{lemma_focus_ancestor_refines, refines};
use crate::octree::{NodeEntry, OctreeError, SparseOctree};
use crate::traversal::{
    lemma_children_agree, lemma_children_place, lemma_concat_contains, lemma_preorder_agree,
    lemma_preorder_ancestors, lemma_preorder_covered, lemma_preorder_members,
    lemma_preorder_no_duplicates, lemma_preorder_parent, lemma_preorder_reaches, path_down,
    preorder, preorder_children, reached, VisitCommand,
};
use vstd::prelude::*;

verus! {

/// One step of a fill: the node visited, how it was found, and what the
/// visitor answered.
#[derive(Clone, Copy, Debug, PartialEq, Eq, Structural)]
pub struct Visit {
    pub address: NodeAddress,
    pub entry: NodeEntry,
    pub command: VisitCommand,
}

/// The cells visited, in order.
pub open spec fn visited(log: Seq<Visit>) -> Seq<GridCell> {
    log.map_values(|v: Visit| v.address@)
}

/// The cells at which the visitor answered `Continue`.
pub open spec fn opened(log: Seq<Visit>) -> Set<GridCell> {
    Set::new(
        |c: GridCell|
            exists|i: int|
                0 <= i < log.len() && (#[trigger] log[i]).address@ == c && log[i].command
                    == VisitCommand::Continue,
    )
}

/// The addresses of the nodes that the fill put in, in order.
pub open spec fn inserted(log: Seq<Visit>) -> Seq<NodeAddress>
    decreases log.len(),
{
    if log.len() == 0 {
        Seq::empty()
    } else if log.last().entry is Inserted {
        inserted(log.drop_last()).push(log.last().address)
    } else {
        inserted(log.drop_last())
    }
}

/// The entry of a step fits the tree: its slot holds the node afterwards,
/// and it says `Inserted` exactly when the node was not there before.
pub open spec fn placed(before: Seq<NodeAddress>, after: Seq<NodeAddress>, v: Visit) -> bool {
    &&& v.entry.spec_slot() < after.len()
    &&& after[v.entry.spec_slot() as int] == v.address
    &&& v.entry is Inserted <==> !before.contains(v.address)
}

/// Every step of the log fits the tree, its command is one that the visitor
/// gave for its address and entry, and the tree grew by the nodes put in.
pub open spec fn recorded<F: Fn(NodeAddress, NodeEntry) -> VisitCommand>(
    visit: F,
    before: Seq<NodeAddress>,
    after: Seq<NodeAddress>,
    log: Seq<Visit>,
) -> bool {
    &&& forall|i: int|
        0 <= i < log.len() ==> placed(before, after, #[trigger] log[i]) && call_ensures(
            visit,
            (log[i].address, log[i].entry),
            log[i].command,
        )
    &&& after == before + inserted(log)
}

/// What a fill from `root` leaves: the log is the depth-first order from
/// `root` through all cells, going below exactly the cells at which the
/// visitor answered `Continue`, and it is a faithful record.
pub open spec fn fill_outcome<F: Fn(NodeAddress, NodeEntry) -> VisitCommand>(
    visit: F,
    root: GridCell,
    before: Seq<NodeAddress>,
    after: Seq<NodeAddress>,
    log: Seq<Visit>,
) -> bool {
    &&& visited(log) == preorder(root, Set::full(), opened(log))
    &&& recorded(visit, before, after, log)
}

/// The same for the part of a fill below the first `upto` children of
/// `parent`.
pub open spec fn children_outcome<F: Fn(NodeAddress, NodeEntry) -> VisitCommand>(
    visit: F,
    parent: GridCell,
    upto: int,
    before: Seq<NodeAddress>,
    after: Seq<NodeAddress>,
    log: Seq<Visit>,
) -> bool {
    &&& visited(log) == preorder_children(parent, Set::full(), opened(log), upto)
    &&& recorded(visit, before, after, log)
}

/// What a fill of the path to `target` leaves: the log follows the path
/// from the root level down, stops behind the first `SkipDescendants` or at
/// `target`, and is a faithful record.
pub open spec fn path_outcome<F: Fn(NodeAddress, NodeEntry) -> VisitCommand>(
    visit: F,
    target: GridCell,
    up: nat,
    before: Seq<NodeAddress>,
    after: Seq<NodeAddress>,
    log: Seq<Visit>,
) -> bool {
    &&& 1 <= log.len() <= up + 1
    &&& visited(log) == path_down(target, up).take(log.len() as int)
    &&& forall|i: int| 0 <= i < log.len() - 1 ==> (#[trigger] log[i]).command == VisitCommand::Continue
    &&& log.len() < up + 1 ==> log.last().command == VisitCommand::SkipDescendants
    &&& recorded(visit, before, after, log)
}

/// The nodes put in over two parts of a log are those of the first part,
/// then those of the second.
proof fn lemma_inserted_concat(a: Seq<Visit>, b: Seq<Visit>)
    ensures
        inserted(a + b) == inserted(a) + inserted(b),
    decreases b.len(),
{
    if b.len() == 0 {
        assert(a + b =~= a);
        assert(inserted(a) + inserted(b) =~= inserted(a));
    } else {
        assert((a + b).drop_last() =~= a + b.drop_last());
        assert((a + b).last() == b.last());
        lemma_inserted_concat(a, b.drop_last());
        assert(inserted(a + b) =~= inserted(a) + inserted(b));
    }
}

/// A single visit puts in its node or nothing.
proof fn lemma_inserted_single(v: Visit)
    ensures
        inserted(seq![v]) == if v.entry is Inserted {
            seq![v.address]
        } else {
            Seq::<NodeAddress>::empty()
        },
{
    assert(seq![v].drop_last() =~= Seq::<Visit>::empty());
    assert(inserted(seq![v].drop_last()) =~= Seq::<NodeAddress>::empty());
    assert(Seq::<NodeAddress>::empty().push(v.address) =~= seq![v.address]);
}

/// Every node put in was visited.
pub proof fn lemma_inserted_origin(log: Seq<Visit>, a: NodeAddress) -> (i: int)
    requires
        inserted(log).contains(a),
    ensures
        0 <= i < log.len(),
        log[i].address == a,
        log[i].entry is Inserted,
    decreases log.len(),
{
    if log.last().entry is Inserted && log.last().address == a {
        log.len() - 1
    } else {
        if log.last().entry is Inserted {
            let rest = inserted(log.drop_last());
            let k = choose|k: int| 0 <= k < inserted(log).len() && inserted(log)[k] == a;
            assert(rest[k] == a);
        }
        lemma_inserted_origin(log.drop_last(), a)
    }
}

/// A cell at which the visitor answered `Continue` was visited.
pub proof fn lemma_opened_visited(log: Seq<Visit>, c: GridCell)
    requires
        opened(log).contains(c),
    ensures
        visited(log).contains(c),
{
    let i = choose|i: int|
        0 <= i < log.len() && (#[trigger] log[i]).address@ == c && log[i].command
            == VisitCommand::Continue;
    assert(visited(log)[i] == c);
}

/// A cell was opened in a log of two parts if it was opened in one of
/// them.
proof fn lemma_opened_concat(a: Seq<Visit>, b: Seq<Visit>, c: GridCell)
    ensures
        opened(a + b).contains(c) <==> opened(a).contains(c) || opened(b).contains(c),
{
    if opened(a + b).contains(c) {
        let i = choose|i: int|
            0 <= i < (a + b).len() && (#[trigger] (a + b)[i]).address@ == c && (a + b)[i].command
                == VisitCommand::Continue;
        if i < a.len() {
            assert(a[i].address@ == c);
        } else {
            assert(b[i - a.len()].address@ == c);
        }
    }
    if opened(a).contains(c) {
        let i = choose|i: int|
            0 <= i < a.len() && (#[trigger] a[i]).address@ == c && a[i].command
                == VisitCommand::Continue;
        assert((a + b)[i].address@ == c);
    }
    if opened(b).contains(c) {
        let i = choose|i: int|
            0 <= i < b.len() && (#[trigger] b[i]).address@ == c && b[i].command
                == VisitCommand::Continue;
        assert((a + b)[a.len() + i].address@ == c);
    }
}

/// The fill below one more child extends the fill below the children
/// before it.
proof fn lemma_children_step<F: Fn(NodeAddress, NodeEntry) -> VisitCommand>(
    visit: F,
    parent: GridCell,
    i: int,
    t0: Seq<NodeAddress>,
    t1: Seq<NodeAddress>,
    t2: Seq<NodeAddress>,
    seg: Seq<Visit>,
    more: Seq<Visit>,
)
    requires
        parent.level > 0,
        0 <= i < 8,
        children_outcome(visit, parent, i, t0, t1, seg),
        fill_outcome(visit, parent.child(i), t1, t2, more),
    ensures
        children_outcome(visit, parent, i + 1, t0, t2, seg + more),
{
    let full = Set::<GridCell>::full();
    let all = seg + more;
    let kid = parent.child(i);
    lemma_inserted_concat(seg, more);
    assert(t2 =~= t0 + inserted(all));
    assert(visited(all) =~= visited(seg) + visited(more));
    // the cells opened in one part are not reached in the other
    assert forall|x: GridCell| #[trigger]
        preorder_children(parent, full, opened(seg), i).contains(x) implies (opened(seg).contains(
        x,
    ) <==> opened(all).contains(x)) by {
        lemma_opened_concat(seg, more, x);
        if opened(more).contains(x) {
            lemma_opened_visited(more, x);
            lemma_preorder_covered(kid, full, opened(more), x);
            lemma_children_place(parent, full, opened(seg), i, i, x);
        }
    }
    lemma_children_agree(parent, full, opened(seg), opened(all), i);
    assert forall|x: GridCell| #[trigger]
        preorder(kid, full, opened(more)).contains(x) implies (opened(more).contains(x)
        <==> opened(all).contains(x)) by {
        lemma_opened_concat(seg, more, x);
        lemma_preorder_covered(kid, full, opened(more), x);
        if opened(seg).contains(x) {
            lemma_opened_visited(seg, x);
            lemma_children_place(parent, full, opened(seg), i, i, x);
        }
    }
    lemma_preorder_agree(kid, full, opened(more), opened(all));
    assert(visited(all) == preorder_children(parent, full, opened(all), i + 1));
    assert forall|k: int| 0 <= k < all.len() implies placed(t0, t2, #[trigger] all[k])
        && call_ensures(visit, (all[k].address, all[k].entry), all[k].command) by {
        if k < seg.len() {
            assert(all[k] == seg[k]);
            assert(placed(t0, t1, seg[k]));
        } else {
            let v = more[k - seg.len()];
            assert(all[k] == v);
            assert(placed(t1, t2, v));
            lemma_concat_contains(t0, inserted(seg), v.address);
            assert(visited(more)[k - seg.len()] == v.address@);
            lemma_preorder_covered(kid, full, opened(more), v.address@);
            if inserted(seg).contains(v.address) {
                let j = lemma_inserted_origin(seg, v.address);
                assert(visited(seg)[j] == v.address@);
                lemma_children_place(parent, full, opened(seg), i, i, v.address@);
            }
        }
    }
}

/// A visit of `c` followed by the fill below its children, or by nothing
/// where the descent stops, is a fill from `c`.
proof fn lemma_subtree_close<F: Fn(NodeAddress, NodeEntry) -> VisitCommand>(
    visit: F,
    t0: Seq<NodeAddress>,
    t1: Seq<NodeAddress>,
    t2: Seq<NodeAddress>,
    v: Visit,
    below: Seq<Visit>,
)
    requires
        call_ensures(visit, (v.address, v.entry), v.command),
        placed(t0, t1, v),
        t1 == t0 + inserted(seq![v]),
        if v.command == VisitCommand::Continue && v.address.level > 0 {
            children_outcome(visit, v.address@, 8, t1, t2, below)
        } else {
            below == Seq::<Visit>::empty() && t2 == t1
        },
    ensures
        fill_outcome(visit, v.address@, t0, t2, seq![v] + below),
{
    let full = Set::<GridCell>::full();
    let c = v.address@;
    let all = seq![v] + below;
    lemma_inserted_concat(seq![v], below);
    assert(visited(all) =~= seq![c] + visited(below));
    if v.command == VisitCommand::Continue && v.address.level > 0 {
        assert(t2 =~= t0 + inserted(all));
        assert(all[0].address@ == c);
        assert(opened(all).contains(c));
        assert forall|x: GridCell| #[trigger]
            preorder_children(c, full, opened(below), 8).contains(x) implies (opened(
            below,
        ).contains(x) <==> opened(all).contains(x)) by {
            lemma_opened_concat(seq![v], below, x);
            lemma_children_place(c, full, opened(below), 8, 7, x);
            if opened(seq![v]).contains(x) {
                lemma_opened_visited(seq![v], x);
            }
        }
        lemma_children_agree(c, full, opened(below), opened(all), 8);
        assert forall|k: int| 0 <= k < all.len() implies placed(t0, t2, #[trigger] all[k])
            && call_ensures(visit, (all[k].address, all[k].entry), all[k].command) by {
            if k > 0 {
                let w = below[k - 1];
                assert(all[k] == w);
                assert(placed(t1, t2, w));
                assert(visited(below)[k - 1] == w.address@);
                lemma_children_place(c, full, opened(below), 8, 7, w.address@);
                lemma_concat_contains(t0, inserted(seq![v]), w.address);
                lemma_inserted_single(v);
            }
        }
    } else {
        assert(all =~= seq![v]);
        assert(inserted(below) =~= Seq::<NodeAddress>::empty());
        assert(t2 =~= t0 + inserted(all));
        if opened(all).contains(c) {
            let i = choose|i: int|
                0 <= i < all.len() && (#[trigger] all[i]).address@ == c && all[i].command
                    == VisitCommand::Continue;
        }
    }
}

/// Visits `address` and, where the visitor says so, everything below it.
fn fill_subtree<F: Fn(NodeAddress, NodeEntry) -> VisitCommand>(
    tree: &mut SparseOctree,
    address: NodeAddress,
    visit: &F,
    log: &mut Vec<Visit>,
)
    requires
        old(tree).wf(),
        address.level <= old(tree).spec_root_level(),
        address@.in_index_space(),
        forall|a: NodeAddress, e: NodeEntry| call_requires(*visit, (a, e)),
    ensures
        final(tree).wf(),
        final(tree).spec_height() == old(tree).spec_height(),
        final(log)@.len() >= old(log)@.len(),
        final(log)@.take(old(log)@.len() as int) == old(log)@,
        fill_outcome(
            *visit,
            address@,
            old(tree)@,
            final(tree)@,
            final(log)@.skip(old(log)@.len() as int),
        ),
    decreases address.level, 1int,
{
    let ghost t0 = tree@;
    let ghost l0 = log@;
    let entry = tree.get_or_insert(address);
    let command = visit(address, entry);
    let v = Visit { address, entry, command };
    log.push(v);
    let ghost t1 = tree@;
    let ghost l1 = log@;
    proof {
        lemma_inserted_single(v);
        assert(t0 + Seq::<NodeAddress>::empty() =~= t0);
        assert(t0 + seq![address] =~= t0.push(address));
    }
    let descend = match command {
        VisitCommand::Continue => address.level > 0,
        VisitCommand::SkipDescendants => false,
    };
    if descend {
        fill_children(tree, address, visit, log);
    }
    proof {
        let n = l0.len() as int;
        let below = log@.skip(n + 1);
        assert(l1 == l0.push(v) && l1.len() == n + 1);
        if descend {
            assert(log@.take(l1.len() as int) == l1);
            assert(below == log@.skip(l1.len() as int));
        } else {
            assert(log@.take(n + 1) =~= l1);
            assert(below =~= Seq::<Visit>::empty());
        }
        assert(log@.take(n + 1) == l1);
        assert(log@[n] == log@.take(n + 1)[n]);
        assert(log@.take(n) =~= log@.take(n + 1).take(n));
        assert(log@.take(n) =~= l0);
        assert(log@.skip(n) =~= seq![v] + below);
        lemma_subtree_close(*visit, t0, t1, tree@, v, below);
    }
}

/// Fills below each of the eight children of `parent`, in their order.
fn fill_children<F: Fn(NodeAddress, NodeEntry) -> VisitCommand>(
    tree: &mut SparseOctree,
    parent: NodeAddress,
    visit: &F,
    log: &mut Vec<Visit>,
)
    requires
        old(tree).wf(),
        parent.level <= old(tree).spec_root_level(),
        parent.level > 0,
        parent@.in_index_space(),
        forall|a: NodeAddress, e: NodeEntry| call_requires(*visit, (a, e)),
    ensures
        final(tree).wf(),
        final(tree).spec_height() == old(tree).spec_height(),
        final(log)@.len() >= old(log)@.len(),
        final(log)@.take(old(log)@.len() as int) == old(log)@,
        children_outcome(
            *visit,
            parent@,
            8,
            old(tree)@,
            final(tree)@,
            final(log)@.skip(old(log)@.len() as int),
        ),
    decreases parent.level, 0int,
{
    let ghost t0 = tree@;
    let ghost l0 = log@;
    let mut i: u8 = 0;
    proof {
        assert(log@.skip(l0.len() as int) =~= Seq::<Visit>::empty());
        assert(visited(Seq::<Visit>::empty()) =~= Seq::<GridCell>::empty());
        assert(t0 + inserted(Seq::<Visit>::empty()) =~= t0);
        assert(log@.take(l0.len() as int) =~= l0);
    }
    while i < 8
        invariant
            i <= 8,
            tree.wf(),
            tree.spec_height() == old(tree).spec_height(),
            parent.level <= tree.spec_root_level(),
            parent.level > 0,
            parent@.in_index_space(),
            forall|a: NodeAddress, e: NodeEntry| call_requires(*visit, (a, e)),
            log@.len() >= l0.len(),
            log@.take(l0.len() as int) == l0,
            children_outcome(*visit, parent@, i as int, t0, tree@, log@.skip(l0.len() as int)),
        decreases 8 - i,
    {
        let ghost t1 = tree@;
        let ghost l1 = log@;
        let kid = parent.child(i);
        fill_subtree(tree, kid, visit, log);
        proof {
            let seg = l1.skip(l0.len() as int);
            let more = log@.skip(l1.len() as int);
            assert(log@ =~= log@.take(l1.len() as int) + more);
            assert(log@.skip(l0.len() as int) =~= seg + more);
            assert(log@.take(l0.len() as int) =~= l1.take(l0.len() as int));
            lemma_children_step(*visit, parent@, i as int, t0, t1, tree@, seg, more);
        }
        i = i + 1;
    }
}

/// Fills the tree from `root` downwards, parent before children and
/// children in the order of their index. Each node visited is looked up or
/// put in, then shown to `visit` with its address and entry; on `Continue`
/// the fill goes on below it, on `SkipDescendants` and at level 0 it does
/// not. The log holds the visits in order.
pub fn fill_from_root<F: Fn(NodeAddress, NodeEntry) -> VisitCommand>(
    tree: &mut SparseOctree,
    root: NodeAddress,
    visit: &F,
) -> (log: Vec<Visit>)
    requires
        old(tree).wf(),
        root.level <= old(tree).spec_root_level(),
        root@.in_index_space(),
        forall|a: NodeAddress, e: NodeEntry| call_requires(*visit, (a, e)),
    ensures
        final(tree).wf(),
        final(tree).spec_height() == old(tree).spec_height(),
        fill_outcome(*visit, root@, old(tree)@, final(tree)@, log@),
{
    let mut log: Vec<Visit> = Vec::new();
    fill_subtree(tree, root, visit, &mut log);
    proof {
        assert(log@.skip(0) =~= log@);
    }
    log
}

/// A faithful record stays one when one more visit is appended, of a node
/// that no earlier visit put in.
proof fn lemma_recorded_push<F: Fn(NodeAddress, NodeEntry) -> VisitCommand>(
    visit: F,
    t0: Seq<NodeAddress>,
    t1: Seq<NodeAddress>,
    t2: Seq<NodeAddress>,
    log: Seq<Visit>,
    v: Visit,
)
    requires
        recorded(visit, t0, t1, log),
        placed(t1, t2, v),
        t2 == t1 + inserted(seq![v]),
        call_ensures(visit, (v.address, v.entry), v.command),
        !inserted(log).contains(v.address),
    ensures
        recorded(visit, t0, t2, log.push(v)),
{
    let all = log.push(v);
    assert(all =~= log + seq![v]);
    lemma_inserted_concat(log, seq![v]);
    lemma_inserted_single(v);
    assert(t2 =~= t0 + inserted(all));
    lemma_concat_contains(t0, inserted(log), v.address);
    assert forall|i: int| 0 <= i < all.len() implies placed(t0, t2, #[trigger] all[i])
        && call_ensures(visit, (all[i].address, all[i].entry), all[i].command) by {
        if i < log.len() {
            assert(all[i] == log[i]);
            assert(placed(t0, t1, log[i]));
        }
    }
}

/// Where every visit put its node in, the nodes put in are the nodes
/// visited.
proof fn lemma_inserted_all(log: Seq<Visit>)
    requires
        forall|i: int| 0 <= i < log.len() ==> (#[trigger] log[i]).entry is Inserted,
    ensures
        inserted(log).map_values(|a: NodeAddress| a@) == visited(log),
    decreases log.len(),
{
    if log.len() == 0 {
        assert(inserted(log).map_values(|a: NodeAddress| a@) =~= visited(log));
    } else {
        let rest = log.drop_last();
        assert forall|i: int| 0 <= i < rest.len() implies (#[trigger] rest[i]).entry is Inserted by {
            assert(rest[i] == log[i]);
        }
        lemma_inserted_all(rest);
        assert(log.last() == log[log.len() - 1]);
        assert(visited(log) =~= visited(rest).push(log.last().address@));
        assert(inserted(log).map_values(|a: NodeAddress| a@) =~= inserted(rest).map_values(
            |a: NodeAddress| a@,
        ).push(log.last().address@));
    }
}

/// A fill visits exactly the cells under the root at whose ancestors, up to
/// the root, the visitor answered `Continue`; and it visits each of them
/// once.
pub proof fn lemma_fill_exact<F: Fn(NodeAddress, NodeEntry) -> VisitCommand>(
    visit: F,
    root: GridCell,
    before: SparseOctree,
    after: SparseOctree,
    log: Seq<Visit>,
)
    requires
        fill_outcome(visit, root, before@, after@, log),
    ensures
        visited(log).no_duplicates(),
        forall|x: GridCell|
            visited(log).contains(x) <==> reached(root, Set::full(), opened(log), x),
{
    lemma_preorder_no_duplicates(root, Set::full(), opened(log));
    assert forall|x: GridCell|
        visited(log).contains(x) <==> reached(root, Set::full(), opened(log), x) by {
        lemma_preorder_members(root, Set::full(), opened(log), x);
    }
}

/// After a fill, every node visited below the start has its parent in the
/// tree: the parent was visited before it.
pub proof fn lemma_fill_keeps_parents<F: Fn(NodeAddress, NodeEntry) -> VisitCommand>(
    visit: F,
    root: GridCell,
    before: SparseOctree,
    after: SparseOctree,
    log: Seq<Visit>,
    i: int,
)
    requires
        fill_outcome(visit, root, before@, after@, log),
        0 <= i < log.len(),
        log[i].address@.level < root.level,
    ensures
        visited(log).contains(log[i].address@.parent()),
        after.holds(log[i].address@.parent()),
{
    let x = log[i].address@;
    assert(visited(log)[i] == x);
    lemma_preorder_parent(root, Set::full(), opened(log), x);
    let j = choose|j: int| 0 <= j < visited(log).len() && visited(log)[j] == x.parent();
    assert(placed(before@, after@, log[j]));
    assert(after@[log[j].entry.spec_slot() as int]@ == x.parent());
}

/// After a fill, every node that it put in below the start has its parent
/// in the tree.
pub proof fn lemma_inserted_has_parent<F: Fn(NodeAddress, NodeEntry) -> VisitCommand>(
    visit: F,
    root: GridCell,
    before: SparseOctree,
    after: SparseOctree,
    log: Seq<Visit>,
    a: NodeAddress,
)
    requires
        fill_outcome(visit, root, before@, after@, log),
        inserted(log).contains(a),
        a@.level < root.level,
    ensures
        after.holds(a@),
        after.holds(a@.parent()),
{
    let i = lemma_inserted_origin(log, a);
    lemma_fill_keeps_parents(visit, root, before, after, log, i);
    assert(placed(before@, after@, log[i]));
    assert(after@[log[i].entry.spec_slot() as int]@ == a@);
}

/// Where the visitor answered `SkipDescendants`, the fill visited nothing
/// below: the only visit under that node is the visit of the node itself.
pub proof fn lemma_fill_prunes<F: Fn(NodeAddress, NodeEntry) -> VisitCommand>(
    visit: F,
    root: GridCell,
    before: SparseOctree,
    after: SparseOctree,
    log: Seq<Visit>,
    i: int,
    j: int,
)
    requires
        fill_outcome(visit, root, before@, after@, log),
        0 <= i < log.len(),
        0 <= j < log.len(),
        log[i].command == VisitCommand::SkipDescendants,
        log[i].address@.covers(log[j].address@),
    ensures
        i == j,
{
    let full = Set::<GridCell>::full();
    let top = log[i].address@;
    let x = log[j].address@;
    assert(visited(log)[i] == top);
    assert(visited(log)[j] == x);
    lemma_preorder_no_duplicates(root, full, opened(log));
    if x != top {
        let n = (top.level - x.level) as nat;
        assert(x.ancestor(0) == x);
        lemma_preorder_covered(root, full, opened(log), top);
        lemma_preorder_ancestors(root, full, opened(log), x, n);
        let k = choose|k: int|
            0 <= k < log.len() && (#[trigger] log[k]).address@ == top && log[k].command
                == VisitCommand::Continue;
        assert(visited(log)[k] == top);
    }
}

/// Where the visitor answered `SkipDescendants`, the fill put in no node
/// below that node.
pub proof fn lemma_nothing_inserted_below_skip<F: Fn(NodeAddress, NodeEntry) -> VisitCommand>(
    visit: F,
    root: GridCell,
    before: SparseOctree,
    after: SparseOctree,
    log: Seq<Visit>,
    i: int,
    a: NodeAddress,
)
    requires
        fill_outcome(visit, root, before@, after@, log),
        0 <= i < log.len(),
        log[i].command == VisitCommand::SkipDescendants,
        inserted(log).contains(a),
        log[i].address@.covers(a@),
    ensures
        a == log[i].address,
{
    let j = lemma_inserted_origin(log, a);
    lemma_fill_prunes(visit, root, before, after, log, i, j);
}

/// Refining around a focus that lies under the root puts the whole chain
/// from the root down to the focus into the tree, for every detail that is
/// not negative, as long as the doubled coordinate of the focus stays below
/// the 32-bit limit.
pub proof fn lemma_focus_chain_built(
    focus: GridCell,
    detail: int,
    root: GridCell,
    before: SparseOctree,
    after: SparseOctree,
    log: Seq<Visit>,
    n: nat,
)
    requires
        lod_outcome(focus, detail, root, before@, after@, log),
        root.covers(focus),
        detail >= 0,
        focus.x < 0x4000_0000,
        focus.y < 0x4000_0000,
        focus.z < 0x4000_0000,
        n <= root.level - focus.level,
    ensures
        visited(log).contains(focus.ancestor(n)),
        after.holds(focus.ancestor(n)),
{
    let full = Set::<GridCell>::full();
    let x = focus.ancestor(n);
    lemma_ancestor_level(focus, n);
    let up = (root.level - x.level) as nat;
    lemma_ancestor_add(focus, n, up);
    assert forall|k: nat| 1 <= k <= root.level - x.level implies refined(focus, detail).contains(
        #[trigger] x.ancestor(k),
    ) by {
        lemma_ancestor_add(focus, n, k);
        lemma_focus_ancestor_refines(focus, n + k, detail);
    }
    lemma_preorder_reaches(root, full, refined(focus, detail), x);
    let j = choose|j: int| 0 <= j < visited(log).len() && visited(log)[j] == x;
    assert(placed(before@, after@, log[j]));
    assert(after@[log[j].entry.spec_slot() as int]@ == x);
}

/// The path from the ancestor `up` levels above `target` down to `target`
/// has `up + 1` cells, the `i`-th of them `up - i` levels above `target`.
pub proof fn lemma_path_down(target: GridCell, up: nat)
    ensures
        path_down(target, up).len() == up + 1,
        forall|i: int|
            0 <= i <= up ==> #[trigger] path_down(target, up)[i] == target.ancestor(
                (up - i) as nat,
            ),
    decreases up,
{
    if up > 0 {
        lemma_path_down(target, (up - 1) as nat);
        let rest = path_down(target, (up - 1) as nat);
        assert forall|i: int| 0 <= i <= up implies #[trigger] path_down(target, up)[i]
            == target.ancestor((up - i) as nat) by {
            if i > 0 {
                assert(path_down(target, up)[i] == rest[i - 1]);
            }
        }
    }
}

/// Puts in the nodes on the straight way from the root level down to
/// `target`, and none beside it. Each is looked up or put in and shown to
/// `visit`, highest first; the walk ends at `target`, or earlier behind the
/// first `SkipDescendants`.
pub fn fill_path_to_node<F: Fn(NodeAddress, NodeEntry) -> VisitCommand>(
    tree: &mut SparseOctree,
    target: NodeAddress,
    visit: &F,
) -> (log: Vec<Visit>)
    requires
        old(tree).wf(),
        target.level <= old(tree).spec_root_level(),
        forall|a: NodeAddress, e: NodeEntry| call_requires(*visit, (a, e)),
    ensures
        final(tree).wf(),
        final(tree).spec_height() == old(tree).spec_height(),
        path_outcome(
            *visit,
            target@,
            (old(tree).spec_root_level() - target.level) as nat,
            old(tree)@,
            final(tree)@,
            log@,
        ),
{
    let top = tree.root_level();
    let ghost up = (top - target.level) as nat;
    let ghost t0 = tree@;
    let mut chain: Vec<NodeAddress> = Vec::new();
    chain.push(target);
    let mut cur = target;
    while cur.level < top
        invariant
            target.level <= cur.level <= top,
            chain@.len() == cur.level - target.level + 1,
            cur == chain@[chain@.len() - 1],
            forall|k: int|
                0 <= k < chain@.len() ==> (#[trigger] chain@[k])@ == target@.ancestor(k as nat),
        decreases top - cur.level,
    {
        let p = cur.parent().unwrap();
        chain.push(p);
        cur = p;
    }
    let mut log: Vec<Visit> = Vec::new();
    let mut k: usize = chain.len();
    let mut go = true;
    proof {
        lemma_path_down(target@, up);
        assert(visited(log@) =~= path_down(target@, up).take(0));
        assert(t0 + inserted(log@) =~= t0);
    }
    while go && k > 0
        invariant
            tree.wf(),
            tree.spec_height() == old(tree).spec_height(),
            top == tree.spec_root_level(),
            up == top - target.level,
            chain@.len() == up + 1,
            forall|i: int|
                0 <= i < chain@.len() ==> (#[trigger] chain@[i])@ == target@.ancestor(i as nat),
            forall|a: NodeAddress, e: NodeEntry| call_requires(*visit, (a, e)),
            k <= up + 1,
            log@.len() == up + 1 - k,
            visited(log@) == path_down(target@, up).take(log@.len() as int),
            go ==> forall|i: int|
                0 <= i < log@.len() ==> (#[trigger] log@[i]).command == VisitCommand::Continue,
            !go ==> log@.len() >= 1 && log@[log@.len() - 1].command
                == VisitCommand::SkipDescendants && forall|i: int|
                0 <= i < log@.len() - 1 ==> (#[trigger] log@[i]).command
                    == VisitCommand::Continue,
            recorded(*visit, t0, tree@, log@),
        decreases k + (if go { 1int } else { 0int }),
    {
        k = k - 1;
        let a = chain[k];
        let ghost t1 = tree@;
        let ghost l1 = log@;
        proof {
            lemma_ancestor_level(target@, k as nat);
        }
        let entry = tree.get_or_insert(a);
        let command = visit(a, entry);
        let v = Visit { address: a, entry, command };
        log.push(v);
        match command {
            VisitCommand::Continue => {},
            VisitCommand::SkipDescendants => {
                go = false;
            },
        }
        proof {
            lemma_path_down(target@, up);
            lemma_inserted_single(v);
            assert(t1 + Seq::<NodeAddress>::empty() =~= t1);
            assert(t1 + seq![a] =~= t1.push(a));
            if inserted(l1).contains(a) {
                let j = lemma_inserted_origin(l1, a);
                assert(visited(l1)[j] == a@);
                lemma_ancestor_level(target@, (up - j) as nat);
            }
            lemma_recorded_push(*visit, t0, t1, tree@, l1, v);
            assert(visited(log@) =~= path_down(target@, up).take(log@.len() as int)) by {
                assert(visited(log@) =~= visited(l1).push(a@));
                assert(path_down(target@, up)[l1.len() as int] == target@.ancestor(k as nat));
            }
        }
    }
    log
}

/// The answer of the visitor that refines around a focus.
pub open spec fn lod_command(focus: GridCell, c: GridCell, detail: int) -> VisitCommand {
    if refines(focus, c, detail) {
        VisitCommand::Continue
    } else {
        VisitCommand::SkipDescendants
    }
}

/// The cells that are refined for a focus.
pub open spec fn refined(focus: GridCell, detail: int) -> Set<GridCell> {
    Set::new(|c: GridCell| refines(focus, c, detail))
}

/// What refining around a focus leaves: the log is the depth-first order
/// from `root` that goes below exactly the refined cells, each command is
/// the criterion's answer, and the tree grew by the nodes put in.
pub open spec fn lod_outcome(
    focus: GridCell,
    detail: int,
    root: GridCell,
    before: Seq<NodeAddress>,
    after: Seq<NodeAddress>,
    log: Seq<Visit>,
) -> bool {
    &&& visited(log) == preorder(root, Set::full(), refined(focus, detail))
    &&& forall|i: int|
        0 <= i < log.len() ==> placed(before, after, #[trigger] log[i]) && log[i].command
            == lod_command(focus, log[i].address@, detail)
    &&& after == before + inserted(log)
}

/// Fills the tree from `root`, going below a node exactly when the
/// subdivision criterion refines it for `focus` and `detail`.
pub fn refine_around(
    tree: &mut SparseOctree,
    root: NodeAddress,
    focus: NodeAddress,
    detail: i32,
) -> (log: Vec<Visit>)
    requires
        old(tree).wf(),
        root.level <= old(tree).spec_root_level(),
        root@.in_index_space(),
    ensures
        final(tree).wf(),
        final(tree).spec_height() == old(tree).spec_height(),
        lod_outcome(focus@, detail as int, root@, old(tree)@, final(tree)@, log@),
{
    let visit = |a: NodeAddress, e: NodeEntry| -> (c: VisitCommand)
        ensures
            c == lod_command(focus@, a@, detail as int),
        {
            if focus.can_subdivide(a, detail) {
                VisitCommand::Continue
            } else {
                VisitCommand::SkipDescendants
            }
        };
    let log = fill_from_root(tree, root, &visit);
    proof {
        let full = Set::<GridCell>::full();
        let goal = refined(focus@, detail as int);
        lemma_preorder_no_duplicates(root@, full, opened(log@));
        assert forall|x: GridCell| #[trigger]
            preorder(root@, full, opened(log@)).contains(x) implies (opened(log@).contains(x)
            <==> goal.contains(x)) by {
            let i = choose|i: int| 0 <= i < visited(log@).len() && visited(log@)[i] == x;
            assert(log@[i].address@ == x);
            assert(log@[i].command == lod_command(focus@, x, detail as int));
            if opened(log@).contains(x) {
                let k = choose|k: int|
                    0 <= k < log@.len() && (#[trigger] log@[k]).address@ == x && log@[k].command
                        == VisitCommand::Continue;
                assert(visited(log@)[k] == x);
            }
        }
        lemma_preorder_agree(root@, full, opened(log@), goal);
    }
    log
}

/// A new tree of `height` levels, filled from the root at the origin
/// around `focus`. The nodes stand in it in depth-first order.
pub fn rebuild(height: u8, focus: NodeAddress, detail: i32) -> (r: Result<
    SparseOctree,
    OctreeError,
>)
    requires
        height <= 32,
    ensures
        height == 0 <==> r is Err,
        r is Err ==> r == Err::<SparseOctree, OctreeError>(OctreeError::InvalidHeight),
        r is Ok ==> {
            let t = r->Ok_0;
            let root = GridCell { level: (height - 1) as nat, x: 0, y: 0, z: 0 };
            &&& t.wf()
            &&& t.spec_height() == height
            &&& t.cell_seq() == preorder(root, Set::full(), refined(focus@, detail as int))
            &&& t.roots_in_index_space()
        },
{
    match SparseOctree::new(height) {
        Err(e) => Err(e),
        Ok(mut tree) => {
            let root = NodeAddress::new(height - 1, 0, 0, 0);
            proof {
                vstd::arithmetic::power2::lemma2_to64();
                if height - 1 < 31 {
                    vstd::arithmetic::power2::lemma_pow2_strictly_increases(
                        (height - 1) as nat,
                        31,
                    );
                }
                assert(0 * root@.edge() == 0);
                assert(1 * root@.edge() == root@.edge());
            }
            let log = refine_around(&mut tree, root, focus, detail);
            proof {
                assert(Seq::<NodeAddress>::empty() + inserted(log@) =~= inserted(log@));
                lemma_inserted_all(log@);
                assert forall|i: int|
                    0 <= i < tree@.len() && (#[trigger] tree@[i]).level
                        == tree.spec_root_level() implies tree@[i]@.in_index_space() by {
                    let x = tree@[i]@;
                    assert(tree.cell_seq()[i] == x);
                    lemma_preorder_covered(
                        root@,
                        Set::full(),
                        refined(focus@, detail as int),
                        x,
                    );
                    assert(x.ancestor(0) == x);
                }
            }
            Ok(tree)
        },
    }
}

} // verus!
