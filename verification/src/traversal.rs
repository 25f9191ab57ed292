//! The order in which a depth-first traversal reaches the cells of a tree,
//! as a mathematical sequence, and what holds of it.

use crate::address::{
    lemma_ancestor_level, lemma_child_parent, lemma_children_disjoint, lemma_covers_below,
    lemma_covers_child, GridCell,
};
use vstd::prelude::*;

verus! {

/// What a visitor asks of the traversal after it has seen a node.
#[derive(Clone, Copy, Debug, PartialEq, Eq, Structural)]
pub enum VisitCommand {
    /// Go on with the children of the node.
    Continue,
    /// Leave out everything below the node.
    SkipDescendants,
}

/// The cells that a depth-first traversal from `c` reaches, parent before
/// children and children in the order of their index. Only cells in
/// `present` are reached, and the traversal goes below a cell only if the
/// cell is in `open` and above level 0.
pub open spec fn preorder(c: GridCell, present: Set<GridCell>, open: Set<GridCell>) -> Seq<
    GridCell,
>
    decreases c.level, 9int,
{
    if !present.contains(c) {
        Seq::empty()
    } else if c.level > 0 && open.contains(c) {
        seq![c] + preorder_children(c, present, open, 8)
    } else {
        seq![c]
    }
}

/// What the traversal reaches below the first `upto` children of `c`.
pub open spec fn preorder_children(
    c: GridCell,
    present: Set<GridCell>,
    open: Set<GridCell>,
    upto: int,
) -> Seq<GridCell>
    decreases c.level, upto,
{
    if c.level == 0 || upto <= 0 || upto > 8 {
        Seq::empty()
    } else {
        preorder_children(c, present, open, upto - 1) + preorder(
            c.child(upto - 1),
            present,
            open,
        )
    }
}

/// The cells that a walk from `target`'s ancestor `up` levels above it down
/// to `target` passes, highest first.
pub open spec fn path_down(target: GridCell, up: nat) -> Seq<GridCell>
    decreases up,
{
    if up == 0 {
        seq![target]
    } else {
        seq![target.ancestor(up)] + path_down(target, (up - 1) as nat)
    }
}

/// An element of a concatenation is in one of its parts.
pub proof fn lemma_concat_contains<A>(a: Seq<A>, b: Seq<A>, x: A)
    ensures
        (a + b).contains(x) <==> a.contains(x) || b.contains(x),
{
    if (a + b).contains(x) {
        let i = choose|i: int| 0 <= i < (a + b).len() && (a + b)[i] == x;
        if i < a.len() {
            assert(a[i] == x);
        } else {
            assert(b[i - a.len()] == x);
        }
    }
    if a.contains(x) {
        let i = choose|i: int| 0 <= i < a.len() && a[i] == x;
        assert((a + b)[i] == x);
    }
    if b.contains(x) {
        let i = choose|i: int| 0 <= i < b.len() && b[i] == x;
        assert((a + b)[a.len() + i] == x);
    }
}

/// Two sequences without repetition that share no element concatenate to
/// one without repetition.
pub proof fn lemma_concat_no_duplicates<A>(a: Seq<A>, b: Seq<A>)
    requires
        a.no_duplicates(),
        b.no_duplicates(),
        forall|x: A| a.contains(x) ==> !b.contains(x),
    ensures
        (a + b).no_duplicates(),
{
    assert forall|i: int, j: int| 0 <= i < (a + b).len() && 0 <= j < (a + b).len() && i != j implies (
    a + b)[i] != (a + b)[j] by {
        if i < a.len() && j >= a.len() {
            assert(a.contains(a[i]));
            assert(b.contains(b[j - a.len()]));
        }
        if j < a.len() && i >= a.len() {
            assert(a.contains(a[j]));
            assert(b.contains(b[i - a.len()]));
        }
    }
}

/// What is reached below one of the first `upto` children is part of what
/// is reached below all of them.
pub proof fn lemma_children_include(
    c: GridCell,
    present: Set<GridCell>,
    open: Set<GridCell>,
    upto: int,
    j: int,
    x: GridCell,
)
    requires
        c.level > 0,
        0 <= j < upto <= 8,
        preorder(c.child(j), present, open).contains(x),
    ensures
        preorder_children(c, present, open, upto).contains(x),
    decreases upto,
{
    let head = preorder_children(c, present, open, upto - 1);
    let last = preorder(c.child(upto - 1), present, open);
    lemma_concat_contains(head, last, x);
    if j < upto - 1 {
        lemma_children_include(c, present, open, upto - 1, j, x);
    }
}

/// What is reached below the first `upto` children is reached from one of
/// them.
pub proof fn lemma_children_origin(
    c: GridCell,
    present: Set<GridCell>,
    open: Set<GridCell>,
    upto: int,
    x: GridCell,
) -> (j: int)
    requires
        preorder_children(c, present, open, upto).contains(x),
    ensures
        c.level > 0,
        0 <= j < upto <= 8,
        preorder(c.child(j), present, open).contains(x),
    decreases upto,
{
    let head = preorder_children(c, present, open, upto - 1);
    let last = preorder(c.child(upto - 1), present, open);
    lemma_concat_contains(head, last, x);
    if last.contains(x) {
        upto - 1
    } else {
        lemma_children_origin(c, present, open, upto - 1, x)
    }
}

/// The traversal from `c` reaches only present cells that `c` covers.
pub proof fn lemma_preorder_covered(
    c: GridCell,
    present: Set<GridCell>,
    open: Set<GridCell>,
    x: GridCell,
)
    requires
        preorder(c, present, open).contains(x),
    ensures
        c.covers(x),
        present.contains(x),
    decreases c.level,
{
    assert(c.ancestor(0) == c);
    if present.contains(c) && c.level > 0 && open.contains(c) {
        let kids = preorder_children(c, present, open, 8);
        lemma_concat_contains(seq![c], kids, x);
        if kids.contains(x) {
            let j = lemma_children_origin(c, present, open, 8, x);
            lemma_preorder_covered(c.child(j), present, open, x);
            lemma_covers_child(c, j, x);
        }
    }
}

/// A cell reached below the first `upto` children lies under one of them,
/// so under no later child, and is not the parent.
pub proof fn lemma_children_place(
    parent: GridCell,
    present: Set<GridCell>,
    open: Set<GridCell>,
    upto: int,
    other: int,
    x: GridCell,
)
    requires
        preorder_children(parent, present, open, upto).contains(x),
    ensures
        x != parent,
        upto <= other < 8 ==> !parent.child(other).covers(x),
{
    let j = lemma_children_origin(parent, present, open, upto, x);
    lemma_preorder_covered(parent.child(j), present, open, x);
    if upto <= other < 8 {
        lemma_children_disjoint(parent, j, other, x);
    } else {
        lemma_children_disjoint(parent, j, j, x);
    }
}

/// A traversal starts with the cell it is run from, if that is present.
pub proof fn lemma_preorder_first(c: GridCell, present: Set<GridCell>, open: Set<GridCell>)
    requires
        present.contains(c),
    ensures
        preorder(c, present, open).len() > 0,
        preorder(c, present, open)[0] == c,
        preorder(c, present, open).contains(c),
{
}

/// Of every cell reached other than the start, the parent was reached too,
/// and the traversal was let through at the parent.
pub proof fn lemma_preorder_parent(
    c: GridCell,
    present: Set<GridCell>,
    open: Set<GridCell>,
    x: GridCell,
)
    requires
        preorder(c, present, open).contains(x),
        x != c,
    ensures
        x.level < c.level,
        preorder(c, present, open).contains(x.parent()),
        open.contains(x.parent()),
    decreases c.level,
{
    let kids = preorder_children(c, present, open, 8);
    lemma_concat_contains(seq![c], kids, x);
    let j = lemma_children_origin(c, present, open, 8, x);
    let k = c.child(j);
    lemma_child_parent(c, j);
    lemma_preorder_first(c, present, open);
    lemma_preorder_covered(k, present, open, x);
    if x != k {
        lemma_preorder_parent(k, present, open, x);
        lemma_children_include(c, present, open, 8, j, x.parent());
        lemma_concat_contains(seq![c], kids, x.parent());
    }
}

/// Every ancestor of a reached cell, up to the start, was reached, and the
/// traversal was let through at each of them above the cell itself.
pub proof fn lemma_preorder_ancestors(
    c: GridCell,
    present: Set<GridCell>,
    open: Set<GridCell>,
    x: GridCell,
    n: nat,
)
    requires
        preorder(c, present, open).contains(x),
        n <= c.level - x.level,
    ensures
        preorder(c, present, open).contains(x.ancestor(n)),
        present.contains(x.ancestor(n)),
        n >= 1 ==> open.contains(x.ancestor(n)),
    decreases n,
{
    if n > 0 {
        let below = x.ancestor((n - 1) as nat);
        lemma_preorder_ancestors(c, present, open, x, (n - 1) as nat);
        lemma_ancestor_level(x, (n - 1) as nat);
        lemma_preorder_parent(c, present, open, below);
    }
    lemma_preorder_covered(c, present, open, x.ancestor(n));
}

/// A present cell under `c` is reached if all its ancestors up to `c` are
/// present and the traversal is let through at each of them.
pub proof fn lemma_preorder_reaches(
    c: GridCell,
    present: Set<GridCell>,
    open: Set<GridCell>,
    x: GridCell,
)
    requires
        c.covers(x),
        forall|n: nat| n <= c.level - x.level ==> present.contains(#[trigger] x.ancestor(n)),
        forall|n: nat| 1 <= n <= c.level - x.level ==> open.contains(#[trigger] x.ancestor(n)),
    ensures
        preorder(c, present, open).contains(x),
    decreases c.level,
{
    let up = (c.level - x.level) as nat;
    assert(present.contains(x.ancestor(up)));
    lemma_preorder_first(c, present, open);
    if x != c {
        lemma_covers_below(c, x);
        let k = x.ancestor((up - 1) as nat);
        let j = k.child_index();
        assert(open.contains(x.ancestor(up)));
        lemma_ancestor_level(x, (up - 1) as nat);
        lemma_preorder_reaches(k, present, open, x);
        lemma_children_include(c, present, open, 8, j, x);
        lemma_concat_contains(seq![c], preorder_children(c, present, open, 8), x);
    }
}

/// Whether `x` hangs on `c` by an unbroken chain: `c` covers it, it and all
/// its ancestors up to `c` are present, and all those ancestors are open.
pub open spec fn reached(c: GridCell, present: Set<GridCell>, open: Set<GridCell>, x: GridCell) -> bool {
    &&& c.covers(x)
    &&& forall|n: nat| n <= c.level - x.level ==> present.contains(#[trigger] x.ancestor(n))
    &&& forall|n: nat| 1 <= n <= c.level - x.level ==> open.contains(#[trigger] x.ancestor(n))
}

/// The traversal from `c` reaches exactly the cells that hang on `c` by an
/// unbroken chain.
pub proof fn lemma_preorder_members(
    c: GridCell,
    present: Set<GridCell>,
    open: Set<GridCell>,
    x: GridCell,
)
    ensures
        preorder(c, present, open).contains(x) <==> reached(c, present, open, x),
{
    if preorder(c, present, open).contains(x) {
        lemma_preorder_covered(c, present, open, x);
        assert forall|n: nat| n <= c.level - x.level implies present.contains(
            #[trigger] x.ancestor(n),
        ) by {
            lemma_preorder_ancestors(c, present, open, x, n);
        }
        assert forall|n: nat| 1 <= n <= c.level - x.level implies open.contains(
            #[trigger] x.ancestor(n),
        ) by {
            lemma_preorder_ancestors(c, present, open, x, n);
        }
    }
    if reached(c, present, open, x) {
        lemma_preorder_reaches(c, present, open, x);
    }
}

/// No cell is reached twice below the first `upto` children.
pub proof fn lemma_children_no_duplicates(
    c: GridCell,
    present: Set<GridCell>,
    open: Set<GridCell>,
    upto: int,
)
    ensures
        preorder_children(c, present, open, upto).no_duplicates(),
    decreases c.level, upto,
{
    if !(c.level == 0 || upto <= 0 || upto > 8) {
        let head = preorder_children(c, present, open, upto - 1);
        let last = preorder(c.child(upto - 1), present, open);
        lemma_children_no_duplicates(c, present, open, upto - 1);
        lemma_preorder_no_duplicates(c.child(upto - 1), present, open);
        assert forall|x: GridCell| head.contains(x) implies !last.contains(x) by {
            let j = lemma_children_origin(c, present, open, upto - 1, x);
            lemma_preorder_covered(c.child(j), present, open, x);
            if last.contains(x) {
                lemma_preorder_covered(c.child(upto - 1), present, open, x);
                lemma_children_disjoint(c, j, upto - 1, x);
            }
        }
        lemma_concat_no_duplicates(head, last);
    }
}

/// No cell is reached twice.
pub proof fn lemma_preorder_no_duplicates(
    c: GridCell,
    present: Set<GridCell>,
    open: Set<GridCell>,
)
    ensures
        preorder(c, present, open).no_duplicates(),
    decreases c.level, 9int,
{
    if present.contains(c) && c.level > 0 && open.contains(c) {
        let kids = preorder_children(c, present, open, 8);
        lemma_children_no_duplicates(c, present, open, 8);
        assert forall|x: GridCell| seq![c].contains(x) implies !kids.contains(x) by {
            if kids.contains(x) {
                let j = lemma_children_origin(c, present, open, 8, x);
                lemma_preorder_covered(c.child(j), present, open, x);
                lemma_children_disjoint(c, j, j, x);
            }
        }
        lemma_concat_no_duplicates(seq![c], kids);
    }
}

/// Two sets of open cells that agree on the cells reached below the first
/// `upto` children give the same traversal there.
pub proof fn lemma_children_agree(
    c: GridCell,
    present: Set<GridCell>,
    o1: Set<GridCell>,
    o2: Set<GridCell>,
    upto: int,
)
    requires
        forall|x: GridCell| #[trigger]
            preorder_children(c, present, o1, upto).contains(x) ==> (o1.contains(x)
                <==> o2.contains(x)),
    ensures
        preorder_children(c, present, o1, upto) == preorder_children(c, present, o2, upto),
    decreases c.level, upto,
{
    if !(c.level == 0 || upto <= 0 || upto > 8) {
        let head = preorder_children(c, present, o1, upto - 1);
        let last = preorder(c.child(upto - 1), present, o1);
        let whole = preorder_children(c, present, o1, upto);
        assert(whole == head + last);
        assert forall|x: GridCell| #[trigger] head.contains(x) implies (o1.contains(x)
            <==> o2.contains(x)) by {
            lemma_concat_contains(head, last, x);
            assert(whole.contains(x));
        }
        assert forall|x: GridCell| #[trigger] last.contains(x) implies (o1.contains(x)
            <==> o2.contains(x)) by {
            lemma_concat_contains(head, last, x);
            assert(whole.contains(x));
        }
        lemma_children_agree(c, present, o1, o2, upto - 1);
        lemma_preorder_agree(c.child(upto - 1), present, o1, o2);
    }
}

/// Two sets of open cells that agree on the cells reached give the same
/// traversal.
pub proof fn lemma_preorder_agree(
    c: GridCell,
    present: Set<GridCell>,
    o1: Set<GridCell>,
    o2: Set<GridCell>,
)
    requires
        forall|x: GridCell| #[trigger]
            preorder(c, present, o1).contains(x) ==> (o1.contains(x) <==> o2.contains(x)),
    ensures
        preorder(c, present, o1) == preorder(c, present, o2),
    decreases c.level, 9int,
{
    if present.contains(c) {
        lemma_preorder_first(c, present, o1);
        if c.level > 0 && o1.contains(c) {
            let kids = preorder_children(c, present, o1, 8);
            let whole = preorder(c, present, o1);
            assert(whole == seq![c] + kids);
            assert forall|x: GridCell| #[trigger] kids.contains(x) implies (o1.contains(x)
                <==> o2.contains(x)) by {
                lemma_concat_contains(seq![c], kids, x);
                assert(whole.contains(x));
            }
            lemma_children_agree(c, present, o1, o2, 8);
        }
    }
}

} // verus!
