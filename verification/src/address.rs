//! Node addresses: a level and an integer grid coordinate.

use vstd::arithmetic::power2::{
    lemma2_to64, lemma2_to64_rest, lemma_pow2_strictly_increases, lemma_pow2_unfold, pow2,
};
use vstd::prelude::*;

verus! {

/// A cell of the grid hierarchy as a mathematical value.
///
/// Level 0 is the finest resolution; a cell at level `l` with coordinate
/// `c` covers `[c * 2^l, (c + 1) * 2^l)` on each axis of index space.
pub struct GridCell {
    pub level: nat,
    pub x: int,
    pub y: int,
    pub z: int,
}

impl GridCell {
    /// The `i`-th child, children being ordered lexicographically by their
    /// offset `(dx, dy, dz)` in `{0,1}^3`, so that `i == 4*dx + 2*dy + dz`.
    pub open spec fn child(self, i: int) -> GridCell {
        GridCell {
            level: (self.level - 1) as nat,
            x: 2 * self.x + (i / 4) % 2,
            y: 2 * self.y + (i / 2) % 2,
            z: 2 * self.z + i % 2,
        }
    }

    /// The cell one level up that covers this one.
    pub open spec fn parent(self) -> GridCell {
        GridCell { level: self.level + 1, x: self.x / 2, y: self.y / 2, z: self.z / 2 }
    }

    /// The position of this cell among the children of its parent.
    pub open spec fn child_index(self) -> int {
        4 * (self.x % 2) + 2 * (self.y % 2) + self.z % 2
    }

    /// The cell `n` levels up that covers this one.
    pub open spec fn ancestor(self, n: nat) -> GridCell
        decreases n,
    {
        if n == 0 {
            self
        } else {
            self.ancestor((n - 1) as nat).parent()
        }
    }

    /// Whether `d` is this cell or one of its descendants.
    pub open spec fn covers(self, d: GridCell) -> bool {
        d.level <= self.level && d.ancestor((self.level - d.level) as nat) == self
    }

    /// Edge length of the cell in index space.
    pub open spec fn edge(self) -> int {
        pow2(self.level) as int
    }

    /// Whether the cube of this cell lies within the 32-bit index space on
    /// every axis.
    pub open spec fn in_index_space(self) -> bool {
        &&& i32::MIN <= self.x * self.edge() && (self.x + 1) * self.edge() <= i32::MAX + 1
        &&& i32::MIN <= self.y * self.edge() && (self.y + 1) * self.edge() <= i32::MAX + 1
        &&& i32::MIN <= self.z * self.edge() && (self.z + 1) * self.edge() <= i32::MAX + 1
    }
}

/// A child's parent is the cell it was taken from, and its index is kept.
pub proof fn lemma_child_parent(c: GridCell, i: int)
    requires
        c.level > 0,
        0 <= i < 8,
    ensures
        c.child(i).parent() == c,
        c.child(i).child_index() == i,
        c.child(i).level + 1 == c.level,
{
}

/// Every cell is the child of its parent at its own index.
pub proof fn lemma_parent_child(c: GridCell)
    ensures
        c.parent().child(c.child_index()) == c,
        0 <= c.child_index() < 8,
{
}

/// Going up `n` levels and then `m` more is going up `n + m` levels.
pub proof fn lemma_ancestor_add(c: GridCell, n: nat, m: nat)
    ensures
        c.ancestor(n).ancestor(m) == c.ancestor(n + m),
    decreases m,
{
    if m > 0 {
        lemma_ancestor_add(c, n, (m - 1) as nat);
        assert(c.ancestor(n + m) == c.ancestor((n + m - 1) as nat).parent());
    } else {
        assert(c.ancestor(n).ancestor(0) == c.ancestor(n));
    }
}

/// The ancestor `n` levels up sits `n` levels higher.
pub proof fn lemma_ancestor_level(c: GridCell, n: nat)
    ensures
        c.ancestor(n).level == c.level + n,
    decreases n,
{
    if n > 0 {
        lemma_ancestor_level(c, (n - 1) as nat);
    }
}

proof fn lemma_halve_span(x: int, b: int, h: int)
    requires
        h > 0,
        b * h <= x < (b + 1) * h,
    ensures
        (b / 2) * (2 * h) <= x < (b / 2 + 1) * (2 * h),
{
    let a = b / 2;
    assert(a * (2 * h) <= b * h) by (nonlinear_arith)
        requires
            2 * a <= b,
            h > 0,
    ;
    assert((a + 1) * (2 * h) >= (b + 1) * h) by (nonlinear_arith)
        requires
            2 * a + 2 >= b + 1,
            h > 0,
    ;
}

/// The ancestor `n` levels up is the cell of that level whose span of
/// `2^n` cells holds this one, on every axis.
pub proof fn lemma_ancestor_span(c: GridCell, n: nat)
    ensures
        c.ancestor(n).x * pow2(n) <= c.x < (c.ancestor(n).x + 1) * pow2(n),
        c.ancestor(n).y * pow2(n) <= c.y < (c.ancestor(n).y + 1) * pow2(n),
        c.ancestor(n).z * pow2(n) <= c.z < (c.ancestor(n).z + 1) * pow2(n),
    decreases n,
{
    if n == 0 {
        lemma2_to64();
        assert(c.ancestor(0) == c);
        assert(c.x * 1 == c.x && (c.x + 1) * 1 == c.x + 1);
        assert(c.y * 1 == c.y && (c.y + 1) * 1 == c.y + 1);
        assert(c.z * 1 == c.z && (c.z + 1) * 1 == c.z + 1);
    } else {
        let b = c.ancestor((n - 1) as nat);
        let h = pow2((n - 1) as nat) as int;
        lemma_ancestor_span(c, (n - 1) as nat);
        lemma_pow2_unfold(n);
        vstd::arithmetic::power2::lemma_pow2_pos((n - 1) as nat);
        lemma_halve_span(c.x, b.x, h);
        lemma_halve_span(c.y, b.y, h);
        lemma_halve_span(c.z, b.z, h);
    }
}

/// What a child covers, its parent covers too.
pub proof fn lemma_covers_child(c: GridCell, i: int, d: GridCell)
    requires
        c.level > 0,
        0 <= i < 8,
        c.child(i).covers(d),
    ensures
        c.covers(d),
{
    lemma_child_parent(c, i);
    let n = (c.level - 1 - d.level) as nat;
    assert(d.ancestor(n + 1) == d.ancestor(n).parent());
}

/// A cell covered by `c` other than `c` itself lies under exactly the child
/// of `c` that is its ancestor one level below `c`.
pub proof fn lemma_covers_below(c: GridCell, d: GridCell)
    requires
        c.covers(d),
        d != c,
    ensures
        d.level < c.level,
        ({
            let a = d.ancestor((c.level - 1 - d.level) as nat);
            &&& a == c.child(a.child_index())
            &&& 0 <= a.child_index() < 8
            &&& a.covers(d)
        }),
{
    if d.level == c.level {
        assert(d.ancestor(0) == d);
    }
    let n = (c.level - 1 - d.level) as nat;
    let a = d.ancestor(n);
    assert(d.ancestor(n + 1) == a.parent());
    lemma_parent_child(a);
    lemma_ancestor_level(d, n);
}

/// Two different children of one cell cover no cell in common, and no child
/// covers its parent.
pub proof fn lemma_children_disjoint(c: GridCell, i: int, j: int, d: GridCell)
    requires
        c.level > 0,
        0 <= i < 8,
        0 <= j < 8,
        c.child(i).covers(d),
    ensures
        c.child(j).covers(d) ==> i == j,
        d != c,
{
    lemma_child_parent(c, i);
    lemma_child_parent(c, j);
}

/// A cell within index space at a level above 0 has children within index
/// space, and their coordinates fit in 32 bits.
pub proof fn lemma_child_in_index_space(c: GridCell, i: int)
    requires
        c.level > 0,
        0 <= i < 8,
        c.in_index_space(),
    ensures
        c.child(i).in_index_space(),
        i32::MIN <= 2 * c.x && 2 * c.x + 1 <= i32::MAX,
        i32::MIN <= 2 * c.y && 2 * c.y + 1 <= i32::MAX,
        i32::MIN <= 2 * c.z && 2 * c.z + 1 <= i32::MAX,
{
    lemma_pow2_unfold(c.level);
    let h = pow2((c.level - 1) as nat) as int;
    vstd::arithmetic::power2::lemma_pow2_pos((c.level - 1) as nat);
    lemma_axis_halves(c.x, (i / 4) % 2, h);
    lemma_axis_halves(c.y, (i / 2) % 2, h);
    lemma_axis_halves(c.z, i % 2, h);
}

proof fn lemma_axis_halves(x: int, o: int, h: int)
    requires
        h >= 1,
        0 <= o <= 1,
        i32::MIN <= x * (2 * h),
        (x + 1) * (2 * h) <= i32::MAX + 1,
    ensures
        i32::MIN <= (2 * x + o) * h,
        (2 * x + o + 1) * h <= i32::MAX + 1,
        i32::MIN <= 2 * x,
        2 * x + 1 <= i32::MAX,
{
    assert((2 * x + o) * h == x * (2 * h) + o * h) by (nonlinear_arith);
    assert((2 * x + o + 1) * h == (x + 1) * (2 * h) - (1 - o) * h) by (nonlinear_arith);
    assert(o * h >= 0) by (nonlinear_arith)
        requires
            o >= 0,
            h >= 1,
    ;
    assert((1 - o) * h >= 0) by (nonlinear_arith)
        requires
            o <= 1,
            h >= 1,
    ;
    assert(x >= 0 ==> (x + 1) * (2 * h) >= 2 * x + 2) by (nonlinear_arith)
        requires
            h >= 1,
    ;
    assert(x < 0 ==> x * (2 * h) <= 2 * x) by (nonlinear_arith)
        requires
            h >= 1,
    ;
}

/// A cell within index space sits at level 31 at most.
pub proof fn lemma_index_space_level(c: GridCell)
    requires
        c.in_index_space(),
    ensures
        c.level <= 31,
{
    if c.level > 31 {
        lemma_pow2_strictly_increases(31, c.level);
        lemma2_to64();
        let e = c.edge();
        assert(c.x >= 0 ==> (c.x + 1) * e >= e) by (nonlinear_arith)
            requires
                e > 0,
        ;
        assert(c.x < 0 ==> c.x * e <= -e) by (nonlinear_arith)
            requires
                e > 0,
        ;
    }
}

/// The address of a node: its level and its grid coordinate at that level.
#[derive(Clone, Copy, Debug, PartialEq, Eq, Structural, Hash)]
pub struct NodeAddress {
    pub level: u8,
    pub x: i32,
    pub y: i32,
    pub z: i32,
}

impl View for NodeAddress {
    type V = GridCell;

    open spec fn view(&self) -> GridCell {
        GridCell { level: self.level as nat, x: self.x as int, y: self.y as int, z: self.z as int }
    }
}

/// A point of world space.
#[derive(Clone, Copy, Debug, PartialEq, Eq, Structural)]
pub struct WorldPoint {
    pub x: i64,
    pub y: i64,
    pub z: i64,
}

/// The axis-aligned cube that a node occupies in world space; `min` is
/// inside, `max` is just outside.
#[derive(Clone, Copy, Debug, PartialEq, Eq, Structural)]
pub struct WorldBox {
    pub min: WorldPoint,
    pub max: WorldPoint,
}

/// Whether `b` is the cube of the cell `c` in world space: it starts at
/// `coordinate * 2^level` and is `2^level` long on every axis.
pub open spec fn is_world_box(c: GridCell, b: WorldBox) -> bool {
    &&& b.min.x == c.x * c.edge() && b.max.x - b.min.x == c.edge()
    &&& b.min.y == c.y * c.edge() && b.max.y - b.min.y == c.edge()
    &&& b.min.z == c.z * c.edge() && b.max.z - b.min.z == c.edge()
}

/// Two to the power `e`.
pub fn power_of_two(e: u8) -> (r: i64)
    requires
        e <= 62,
    ensures
        r == pow2(e as nat),
{
    let mut r: i64 = 1;
    let mut i: u8 = 0;
    proof {
        lemma2_to64();
    }
    while i < e
        invariant
            i <= e <= 62,
            r == pow2(i as nat),
        decreases e - i,
    {
        proof {
            lemma_pow2_unfold((i + 1) as nat);
            if i + 1 < 62 {
                lemma_pow2_strictly_increases((i + 1) as nat, 62);
            }
            lemma2_to64_rest();
        }
        r = r * 2;
        i = i + 1;
    }
    r
}

/// Half of `x`, rounded down.
fn floor_half(x: i32) -> (r: i32)
    ensures
        r == x as int / 2,
{
    if x >= 0 {
        x / 2
    } else {
        -((-(x + 1)) / 2) - 1
    }
}

proof fn lemma_scaled_bounds(x: int, e: int)
    requires
        i32::MIN <= x <= i32::MAX,
        1 <= e <= 0x8000_0000,
    ensures
        -0x4000_0000_0000_0000 <= x * e <= 0x4000_0000_0000_0000,
        -0x4000_0000_0000_0000 <= (x + 1) * e <= 0x4000_0000_0000_0000,
{
    assert(x * e <= 0x8000_0000 * e && x * e >= -0x8000_0000 * e) by (nonlinear_arith)
        requires
            -0x8000_0000 <= x <= 0x8000_0000,
            e >= 1,
    ;
    assert((x + 1) * e <= 0x8000_0000 * e && (x + 1) * e >= -0x8000_0000 * e)
        by (nonlinear_arith)
        requires
            -0x8000_0000 <= x + 1 <= 0x8000_0000,
            e >= 1,
    ;
}

impl NodeAddress {
    /// The address at `level` with coordinate `(x, y, z)`.
    pub fn new(level: u8, x: i32, y: i32, z: i32) -> (a: NodeAddress)
        ensures
            a.level == level,
            a.x == x,
            a.y == y,
            a.z == z,
    {
        NodeAddress { level, x, y, z }
    }

    /// Whether the node's cube lies within the 32-bit index space.
    pub fn in_index_space(&self) -> (b: bool)
        ensures
            b == self@.in_index_space(),
    {
        if self.level > 31 {
            proof {
                if self@.in_index_space() {
                    lemma_index_space_level(self@);
                }
            }
            return false;
        }
        let e = power_of_two(self.level);
        proof {
            lemma2_to64();
            if self.level < 31 {
                lemma_pow2_strictly_increases(self.level as nat, 31);
            }
            lemma_scaled_bounds(self.x as int, e as int);
            lemma_scaled_bounds(self.y as int, e as int);
            lemma_scaled_bounds(self.z as int, e as int);
        }
        let lo: i64 = -0x8000_0000;
        let hi: i64 = 0x8000_0000;
        let x: i64 = self.x as i64;
        let y: i64 = self.y as i64;
        let z: i64 = self.z as i64;
        lo <= x * e && (x + 1) * e <= hi && lo <= y * e && (y + 1) * e <= hi && lo <= z * e && (z
            + 1) * e <= hi
    }

    /// The `i`-th of the eight children, in lexicographic order of their
    /// offsets.
    pub fn child(&self, i: u8) -> (c: NodeAddress)
        requires
            i < 8,
            self.level > 0,
            self@.in_index_space(),
        ensures
            c@ == self@.child(i as int),
            c@.in_index_space(),
    {
        proof {
            lemma_child_in_index_space(self@, i as int);
        }
        let dx: i32 = ((i / 4) % 2) as i32;
        let dy: i32 = ((i / 2) % 2) as i32;
        let dz: i32 = (i % 2) as i32;
        NodeAddress {
            level: self.level - 1,
            x: 2 * self.x + dx,
            y: 2 * self.y + dy,
            z: 2 * self.z + dz,
        }
    }

    /// The address one level up that covers this one; there is none above
    /// level 255.
    pub fn parent(&self) -> (p: Option<NodeAddress>)
        ensures
            self.level < 255 ==> p.is_some() && p.unwrap()@ == self@.parent(),
            self.level == 255 ==> p.is_none(),
    {
        if self.level == 255 {
            None
        } else {
            Some(
                NodeAddress {
                    level: self.level + 1,
                    x: floor_half(self.x),
                    y: floor_half(self.y),
                    z: floor_half(self.z),
                },
            )
        }
    }

    /// The cube that the node occupies in world space: from
    /// `coordinate * 2^level` to `coordinate * 2^level + 2^level`.
    pub fn world_box(&self) -> (b: WorldBox)
        requires
            self.level <= 31,
        ensures
            is_world_box(self@, b),
    {
        let e = power_of_two(self.level);
        proof {
            lemma2_to64();
            if self.level < 31 {
                lemma_pow2_strictly_increases(self.level as nat, 31);
            }
            lemma_scaled_bounds(self.x as int, e as int);
            lemma_scaled_bounds(self.y as int, e as int);
            lemma_scaled_bounds(self.z as int, e as int);
        }
        let min = WorldPoint { x: self.x as i64 * e, y: self.y as i64 * e, z: self.z as i64 * e };
        let max = WorldPoint { x: min.x + e, y: min.y + e, z: min.z + e };
        WorldBox { min, max }
    }
}

} // verus!
