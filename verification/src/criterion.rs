//! The subdivision criterion: refine a node only near the focus.

use crate::address::{
    lemma_ancestor_level, lemma_ancestor_span, power_of_two, GridCell, NodeAddress,
};
use vstd::arithmetic::power2::{
    lemma2_to64, lemma_pow2_pos, lemma_pow2_strictly_increases, lemma_pow2_unfold, pow2,
};
use vstd::prelude::*;

verus! {

/// `v` clamped into the range of a signed 32-bit integer.
pub open spec fn clamp32(v: int) -> int {
    if v < i32::MIN {
        i32::MIN as int
    } else if v > i32::MAX {
        i32::MAX as int
    } else {
        v
    }
}

/// The test on one axis. The candidate, `delta` levels above the focus, has
/// coordinate `n`; the focus has coordinate `s`. Both are taken to the grid
/// of half cells at the focus level, where the candidate starts at
/// `n * 2^(delta+1)`. The box reaches `detail * 2^delta` half cells below
/// that start and `(detail + 2) * 2^delta` above it, and every step
/// saturates at the 32-bit limits.
pub open spec fn axis_inside(s: int, n: int, delta: nat, detail: int) -> bool {
    let unit = clamp32(pow2(delta) as int);
    let margin = clamp32((detail + 1) * pow2(delta));
    let base = clamp32(n * pow2(delta + 1));
    let lo = clamp32(base - clamp32(margin - unit));
    let hi = clamp32(base + clamp32(margin + unit));
    let local = clamp32(2 * s);
    lo <= local < hi
}

/// Whether `candidate` is to be refined into children for the given focus:
/// never when it is finer than the focus, otherwise when the focus lies
/// inside the margin box on all three axes.
pub open spec fn refines(focus: GridCell, candidate: GridCell, detail: int) -> bool {
    &&& candidate.level >= focus.level
    &&& axis_inside(focus.x, candidate.x, (candidate.level - focus.level) as nat, detail)
    &&& axis_inside(focus.y, candidate.y, (candidate.level - focus.level) as nat, detail)
    &&& axis_inside(focus.z, candidate.z, (candidate.level - focus.level) as nat, detail)
}

/// A node finer than the focus is never refined.
pub proof fn lemma_never_below_focus(focus: GridCell, candidate: GridCell, detail: int)
    requires
        candidate.level < focus.level,
    ensures
        !refines(focus, candidate, detail),
{
}

/// The test on one axis at the level of the focus, written out.
proof fn lemma_axis_same_level(s: int, n: int, detail: int)
    ensures
        axis_inside(s, n, 0, detail) <==> {
            let base = clamp32(2 * n);
            clamp32(base - clamp32(clamp32(detail + 1) - 1)) <= clamp32(2 * s) < clamp32(
                base + clamp32(clamp32(detail + 1) + 1),
            )
        },
{
    lemma2_to64();
    assert(pow2(0) == 1);
    assert(pow2((0 + 1) as nat) == 2);
    assert((detail + 1) * pow2(0) == detail + 1);
    assert(n * pow2((0 + 1) as nat) == 2 * n);
}

/// The test on one axis passes for the node whose span holds the focus.
proof fn lemma_axis_over_focus(s: int, a: int, n: nat, detail: int)
    requires
        detail >= 0,
        s < 0x4000_0000,
        a * pow2(n) <= s < (a + 1) * pow2(n),
    ensures
        axis_inside(s, a, n, detail),
{
    let p = pow2(n) as int;
    let q = pow2(n + 1) as int;
    let m = (detail + 1) * p;
    let b = a * q;
    lemma_pow2_pos(n);
    lemma_pow2_unfold(n + 1);
    assert(q == 2 * p);
    assert(m >= p) by (nonlinear_arith)
        requires
            m == (detail + 1) * p,
            detail >= 0,
            p > 0,
    ;
    assert(b == 2 * (a * p) && b + q == 2 * ((a + 1) * p)) by (nonlinear_arith)
        requires
            b == a * q,
            q == 2 * p,
    ;
    assert(a >= 0 ==> b >= 0) by (nonlinear_arith)
        requires
            b == a * q,
            q > 0,
    ;
    assert(a <= -1 ==> b + q <= 0) by (nonlinear_arith)
        requires
            b == a * q,
            q > 0,
    ;
    assert(a * pow2(n + 1) == b);
}

/// Every ancestor of the focus is refined, for every detail that is not
/// negative, as long as the doubled coordinate of the focus stays below the
/// 32-bit limit: the way down to the focus is never cut.
pub proof fn lemma_focus_ancestor_refines(focus: GridCell, n: nat, detail: int)
    requires
        detail >= 0,
        focus.x < 0x4000_0000,
        focus.y < 0x4000_0000,
        focus.z < 0x4000_0000,
    ensures
        refines(focus, focus.ancestor(n), detail),
{
    lemma_ancestor_level(focus, n);
    lemma_ancestor_span(focus, n);
    let a = focus.ancestor(n);
    lemma_axis_over_focus(focus.x, a.x, n, detail);
    lemma_axis_over_focus(focus.y, a.y, n, detail);
    lemma_axis_over_focus(focus.z, a.z, n, detail);
    assert((a.level - focus.level) as nat == n);
}

/// The cell of the focus itself is refined, for every detail that is not
/// negative, as long as its doubled coordinate stays below the 32-bit limit.
pub proof fn lemma_focus_cell_refines(focus: GridCell, detail: int)
    requires
        detail >= 0,
        focus.x < 0x4000_0000,
        focus.y < 0x4000_0000,
        focus.z < 0x4000_0000,
    ensures
        refines(focus, focus, detail),
{
    lemma_axis_same_level(focus.x, focus.x, detail);
    lemma_axis_same_level(focus.y, focus.y, detail);
    lemma_axis_same_level(focus.z, focus.z, detail);
}

/// At the level of the focus, and away from the 32-bit limits, a node is
/// refined exactly when the focus is at most `detail / 2` cells below it and
/// at most `(detail + 1) / 2` cells above it on every axis.
pub proof fn lemma_same_level_margin(focus: GridCell, candidate: GridCell, detail: int)
    requires
        candidate.level == focus.level,
        0 <= detail < 0x2000_0000,
        -0x2000_0000 <= focus.x < 0x2000_0000,
        -0x2000_0000 <= focus.y < 0x2000_0000,
        -0x2000_0000 <= focus.z < 0x2000_0000,
        -0x2000_0000 <= candidate.x < 0x2000_0000,
        -0x2000_0000 <= candidate.y < 0x2000_0000,
        -0x2000_0000 <= candidate.z < 0x2000_0000,
    ensures
        refines(focus, candidate, detail) <==> {
            &&& -detail <= 2 * (focus.x - candidate.x) <= detail + 1
            &&& -detail <= 2 * (focus.y - candidate.y) <= detail + 1
            &&& -detail <= 2 * (focus.z - candidate.z) <= detail + 1
        },
{
    lemma_axis_same_level(focus.x, candidate.x, detail);
    lemma_axis_same_level(focus.y, candidate.y, detail);
    lemma_axis_same_level(focus.z, candidate.z, detail);
}

proof fn lemma_axis_monotone(s: int, n: int, delta: nat, d1: int, d2: int)
    requires
        d1 <= d2,
        axis_inside(s, n, delta, d1),
    ensures
        axis_inside(s, n, delta, d2),
{
    let p = pow2(delta) as int;
    lemma_pow2_pos(delta);
    assert((d1 + 1) * p <= (d2 + 1) * p) by (nonlinear_arith)
        requires
            d1 <= d2,
            p > 0,
    ;
}

/// A larger detail never turns a refined node into one that is not.
pub proof fn lemma_detail_monotone(focus: GridCell, candidate: GridCell, d1: int, d2: int)
    requires
        d1 <= d2,
        refines(focus, candidate, d1),
    ensures
        refines(focus, candidate, d2),
{
    let delta = (candidate.level - focus.level) as nat;
    lemma_axis_monotone(focus.x, candidate.x, delta, d1, d2);
    lemma_axis_monotone(focus.y, candidate.y, delta, d1, d2);
    lemma_axis_monotone(focus.z, candidate.z, delta, d1, d2);
}

/// `v` brought into the 32-bit range.
fn clamp_to_i32(v: i64) -> (r: i32)
    ensures
        r == clamp32(v as int),
{
    if v < -0x8000_0000 {
        i32::MIN
    } else if v > 0x7fff_ffff {
        i32::MAX
    } else {
        v as i32
    }
}

/// `v * 2^e`, saturating at the 32-bit limits.
fn saturating_scale(v: i64, e: u16) -> (r: i32)
    requires
        -0x8000_0000 <= v <= 0x8000_0000,
    ensures
        r == clamp32(v * pow2(e as nat)),
{
    if v == 0 {
        assert(0 * pow2(e as nat) == 0);
        0
    } else if e >= 31 {
        proof {
            let p = pow2(e as nat) as int;
            lemma2_to64();
            if e > 31 {
                lemma_pow2_strictly_increases(31, e as nat);
            }
            assert(v > 0 ==> v * p >= p) by (nonlinear_arith)
                requires
                    p > 0,
            ;
            assert(v < 0 ==> v * p <= -p) by (nonlinear_arith)
                requires
                    p > 0,
            ;
        }
        if v > 0 {
            i32::MAX
        } else {
            i32::MIN
        }
    } else {
        let p = power_of_two(e as u8);
        proof {
            lemma2_to64();
            if e < 30 {
                lemma_pow2_strictly_increases(e as nat, 30);
            }
            assert(-0x8000_0000 * p <= v * p <= 0x8000_0000 * p) by (nonlinear_arith)
                requires
                    -0x8000_0000 <= v <= 0x8000_0000,
                    p >= 1,
            ;
        }
        clamp_to_i32(v * p)
    }
}

/// The test on one axis, with every step saturating.
fn axis_test(s: i32, n: i32, delta: u8, detail: i32) -> (b: bool)
    ensures
        b == axis_inside(s as int, n as int, delta as nat, detail as int),
{
    let unit = saturating_scale(1, delta as u16);
    let margin = saturating_scale(detail as i64 + 1, delta as u16);
    let base = saturating_scale(n as i64, delta as u16 + 1);
    let lo = clamp_to_i32(base as i64 - clamp_to_i32(margin as i64 - unit as i64) as i64);
    let hi = clamp_to_i32(base as i64 + clamp_to_i32(margin as i64 + unit as i64) as i64);
    let local = clamp_to_i32(2 * (s as i64));
    assert(1 * pow2(delta as nat) == pow2(delta as nat));
    lo <= local && local < hi
}

impl NodeAddress {
    /// Whether `node` is to be refined into children when `self` is the
    /// address that holds the focus. `detail` is the margin, in cells of the
    /// focus level, that is kept refined around the focus.
    pub fn can_subdivide(&self, node: NodeAddress, detail: i32) -> (b: bool)
        ensures
            b == refines(self@, node@, detail as int),
            node.level < self.level ==> !b,
    {
        if node.level < self.level {
            return false;
        }
        let delta: u8 = node.level - self.level;
        axis_test(self.x, node.x, delta, detail) && axis_test(self.y, node.y, delta, detail)
            && axis_test(self.z, node.z, delta, detail)
    }
}

} // verus!
