//! Two-segment leg inverse kinematics.
//!
//! Given the leg's anchor offset, a desired foot position (relative to the
//! body), a fixed segment length and a bend sign, the solver clamps the foot
//! into reachable range and then runs a fixed, 1000-iteration local search
//! for the knee: starting from the midpoint of the body-to-foot chord it
//! steps along the perpendicular, with step lengths growing linearly, and
//! keeps the candidate with the lowest segment-length-violation cost.  The
//! search never exits early, so the result is a pure function of the
//! arguments, which the contracts state exactly.

use vstd::prelude::*;
use crate::vec2::{
    Vec2, FX_ONE, LEN_ARG_LIMIT, iabs, cross, length, sdiv, is_isqrt, isqrt_spec, vadd, vsub,
    vhalf, vperp, vscale_fx, vnormalize_or, vclamp_len, lemma_sdiv_in_bound, lemma_prod_bound,
    lemma_isqrt_exists,
};

verus! {

/// Feet are never brought closer to the body than this.
pub const MIN_REACH_FX: i64 = 16 * FX_ONE;

/// Smallest supported segment length.
pub const SEG_MIN_FX: i64 = 16 * FX_ONE;

/// Largest supported segment length.
pub const SEG_MAX_FX: i64 = 0x100_0000;

/// Number of search iterations; fixed, never cut short.
pub const SOLVE_ITERS: u64 = 1000;

/// Magnitude bound on every knee coordinate the search can produce for a
/// given segment length: the midpoint start plus the sum of all
/// perpendicular steps.
pub const KNEE_SLACK_FX: i64 = 104_000_000;

/// Perpendicular step length of search iteration `k`: one tenth of a world
/// unit times `k`, in fixed point.
pub open spec fn step_len_fx(k: int) -> int {
    (FX_ONE as int * k) / 10
}

/// Cost of a candidate knee `a` for anchor `origin` and foot `b`: how far
/// the two segment lengths jointly deviate from `seg`.
pub open spec fn cost_spec(origin: Vec2, a: Vec2, b: Vec2, seg: int) -> int {
    let d1 = isqrt_spec(vsub(origin, a).len2()) - seg;
    let d2 = isqrt_spec(vsub(b, a).len2()) - seg;
    iabs(d1 + d2)
}

/// Knee candidate position after `k` search iterations.
pub open spec fn mid_at(mid0: Vec2, unit: Vec2, bend: int, k: nat) -> Vec2
    decreases k,
{
    if k == 0 {
        mid0
    } else {
        let prev = mid_at(mid0, unit, bend, (k - 1) as nat);
        let d = vscale_fx(unit, step_len_fx(k - 1));
        if bend >= 0 {
            vadd(prev, d)
        } else {
            vsub(prev, d)
        }
    }
}

/// Best (candidate, cost) pair among the start point and the first `k`
/// search iterations; ties keep the earlier candidate.
pub open spec fn best_at(
    origin: Vec2,
    target: Vec2,
    mid0: Vec2,
    unit: Vec2,
    bend: int,
    seg: int,
    k: nat,
) -> (Vec2, int)
    decreases k,
{
    if k == 0 {
        (mid0, cost_spec(origin, mid0, target, seg))
    } else {
        let prev = best_at(origin, target, mid0, unit, bend, seg, (k - 1) as nat);
        let c = mid_at(mid0, unit, bend, k);
        let cc = cost_spec(origin, c, target, seg);
        if cc < prev.1 {
            (c, cc)
        } else {
            prev
        }
    }
}

/// The clamped foot position the solver commits to.
pub open spec fn solve_foot_spec(target_rel: Vec2, seg: int, fb: Vec2) -> Vec2 {
    vclamp_len(target_rel, MIN_REACH_FX as int, 2 * seg, fb)
}

/// The knee position the search commits to.
pub open spec fn solve_knee_spec(origin: Vec2, target_rel: Vec2, seg: int, bend: int, fb: Vec2) -> Vec2 {
    let target = solve_foot_spec(target_rel, seg, fb);
    let mid0 = vhalf(target);
    let unit = vnormalize_or(vperp(mid0), fb);
    best_at(origin, target, mid0, unit, bend, seg, SOLVE_ITERS as nat).0
}

/// Each coordinate of the step direction `unit` carries the sign that the
/// chord `t` rotated a quarter turn counter-clockwise has: stepping along
/// `unit` moves off the chord to one fixed side.
pub open spec fn side_aligned(t: Vec2, unit: Vec2) -> bool {
    &&& (t.x >= 0 ==> unit.y >= 0)
    &&& (t.x <= 0 ==> unit.y <= 0)
    &&& (t.y >= 0 ==> unit.x <= 0)
    &&& (t.y <= 0 ==> unit.x >= 0)
}

/// A perpendicular step along an aligned direction never crosses to the
/// other side of the chord.
proof fn lemma_step_side(t: Vec2, unit: Vec2, s: int)
    requires
        side_aligned(t, unit),
        unit.in_range(2 * FX_ONE as int),
        0 <= s <= 0x2_0000,
    ensures
        cross(t, vscale_fx(unit, s)) >= 0,
{
    lemma_prod_bound(unit.x as int, s, 2048, 0x2_0000);
    lemma_prod_bound(unit.y as int, s, 2048, 0x2_0000);
    lemma_sdiv_in_bound(unit.x as int, s, FX_ONE as int, 2048);
    lemma_sdiv_in_bound(unit.y as int, s, FX_ONE as int, 2048);
    let d = vscale_fx(unit, s);
    assert(t.x * d.y >= 0) by (nonlinear_arith)
        requires
            (t.x >= 0 ==> d.y >= 0) && (t.x <= 0 ==> d.y <= 0);
    assert(t.y * d.x <= 0) by (nonlinear_arith)
        requires
            (t.y >= 0 ==> d.x <= 0) && (t.y <= 0 ==> d.x >= 0);
}

/// The cross product is additive in its second argument.
proof fn lemma_cross_additive(t: Vec2, a: Vec2, b: Vec2, c: Vec2)
    by (nonlinear_arith)
    requires
        a.x == b.x + c.x,
        a.y == b.y + c.y,
    ensures
        cross(t, a) == cross(t, b) + cross(t, c),
{
}

/// The best pair the search reports is sound: the reported cost is the
/// cost of the reported candidate.
proof fn lemma_best_at_sound(
    origin: Vec2,
    target: Vec2,
    mid0: Vec2,
    unit: Vec2,
    bend: int,
    seg: int,
    k: nat,
)
    ensures
        best_at(origin, target, mid0, unit, bend, seg, k).1 == cost_spec(
            origin,
            best_at(origin, target, mid0, unit, bend, seg, k).0,
            target,
            seg,
        ),
    decreases k,
{
    if k > 0 {
        lemma_best_at_sound(origin, target, mid0, unit, bend, seg, (k - 1) as nat);
    }
}

/// The best cost never exceeds the cost of the starting chord midpoint.
proof fn lemma_best_at_le_start(
    origin: Vec2,
    target: Vec2,
    mid0: Vec2,
    unit: Vec2,
    bend: int,
    seg: int,
    k: nat,
)
    ensures
        best_at(origin, target, mid0, unit, bend, seg, k).1 <= cost_spec(origin, mid0, target, seg),
    decreases k,
{
    if k > 0 {
        lemma_best_at_le_start(origin, target, mid0, unit, bend, seg, (k - 1) as nat);
    }
}

/// Law: the knee the solver commits to never has a higher
/// segment-length-violation cost than the chord midpoint the search
/// starts from.
pub proof fn lemma_solve_cost_not_worse(
    origin: Vec2,
    target_rel: Vec2,
    seg: int,
    bend: int,
    fb: Vec2,
)
    ensures
        ({
            let foot = solve_foot_spec(target_rel, seg, fb);
            let knee = solve_knee_spec(origin, target_rel, seg, bend, fb);
            cost_spec(origin, knee, foot, seg) <= cost_spec(origin, vhalf(foot), foot, seg)
        }),
{
    let foot = solve_foot_spec(target_rel, seg, fb);
    let mid0 = vhalf(foot);
    let unit = vnormalize_or(vperp(mid0), fb);
    lemma_best_at_sound(origin, foot, mid0, unit, bend, seg, SOLVE_ITERS as nat);
    lemma_best_at_le_start(origin, foot, mid0, unit, bend, seg, SOLVE_ITERS as nat);
}

/// Law: the solver's foot lands in the reachable window.  Its squared
/// distance from the body never exceeds `(2*seg)^2 + 2*(2*seg)`, so its
/// integer length is at most `2*seg`; and whenever the requested target is
/// not degenerate it never drops below `MIN_REACH_FX^2 - 4*MIN_REACH_FX`,
/// an integer length of at least `MIN_REACH_FX - 3`.  The slack of three
/// fixed-point steps (under 0.003 world units) is the price of truncating
/// integer scaling.
pub proof fn lemma_solve_reach(target_rel: Vec2, seg: int, fb: Vec2)
    requires
        target_rel.in_range(LEN_ARG_LIMIT as int),
        SEG_MIN_FX as int <= seg <= SEG_MAX_FX as int,
        fb.in_range(2 * FX_ONE as int),
        fb.len2() <= 1300000,
    ensures
        solve_foot_spec(target_rel, seg, fb).len2() <= (2 * seg) * (2 * seg) + 2 * (2 * seg),
        target_rel.len2() > 0 ==> solve_foot_spec(target_rel, seg, fb).len2() >= 268369920,
{
    crate::vec2::lemma_clamp_len_reach(target_rel, MIN_REACH_FX as int, 2 * seg, fb);
    assert(MIN_REACH_FX as int * MIN_REACH_FX as int - 4 * MIN_REACH_FX as int == 268369920)
        by (nonlinear_arith)
        requires
            MIN_REACH_FX as int == 16384;
}

/// Executable cost of a candidate knee.
fn chain_cost(origin: Vec2, a: Vec2, b: Vec2, seg: i64) -> (c: i64)
    requires
        origin.in_range(0x1000_0000),
        a.in_range(0x1000_0000),
        b.in_range(0x1000_0000),
        SEG_MIN_FX <= seg <= SEG_MAX_FX,
    ensures
        c as int == cost_spec(origin, a, b, seg as int),
        c >= 0,
{
    let d1 = length(origin.sub(a)) - seg;
    let d2 = length(b.sub(a)) - seg;
    let s = d1 + d2;
    if s < 0 {
        -s
    } else {
        s
    }
}

/// Solve a leg: clamp the foot into reach and search for the knee.
///
/// The result is a pure function of the arguments; identical inputs give
/// bit-identical knee and foot positions.
pub fn solve(origin: Vec2, target_rel: Vec2, seg: i64, bend: i64, fb: Vec2) -> (r: (Vec2, Vec2))
    requires
        origin.in_range(0x1_0000),
        target_rel.in_range(LEN_ARG_LIMIT as int),
        fb.in_range(2 * FX_ONE as int),
        SEG_MIN_FX <= seg <= SEG_MAX_FX,
        bend == 1i64 || bend == -1i64,
    ensures
        r.0 == solve_knee_spec(origin, target_rel, seg as int, bend as int, fb),
        r.1 == solve_foot_spec(target_rel, seg as int, fb),
        r.0.in_range(2 * seg + 1 + KNEE_SLACK_FX as int),
        r.1.in_range(4 * seg),
        vperp(vhalf(r.1)).len2() != 0 ==> bend as int * cross(r.1, vsub(r.0, vhalf(r.1))) >= 0,
{
    let target = target_rel.clamp_len(MIN_REACH_FX, 2 * seg, fb);
    let mid0 = target.half();
    proof {
        lemma_sdiv_in_bound(target.x as int, 1, 2, 4 * seg as int);
        lemma_sdiv_in_bound(target.y as int, 1, 2, 4 * seg as int);
    }
    let unit = mid0.perp().normalize_or(fb);
    proof {
        assert(vperp(mid0).len2() >= 0) by (nonlinear_arith);
        if vperp(mid0).len2() == 0 {
            assert(unit == fb);
        }
        assert(unit.in_range(2 * FX_ONE as int));
        if vperp(mid0).len2() != 0 {
            let p = vperp(mid0);
            lemma_isqrt_exists(p.len2());
            let l = isqrt_spec(p.len2());
            assert(l >= 1) by (nonlinear_arith)
                requires
                    is_isqrt(p.len2(), l),
                    p.len2() >= 1;
            lemma_sdiv_in_bound(p.x as int, FX_ONE as int, l, iabs(p.x as int));
            lemma_sdiv_in_bound(p.y as int, FX_ONE as int, l, iabs(p.y as int));
            vstd::arithmetic::div_mod::lemma_div_nonincreasing(iabs(p.x as int) * FX_ONE as int, l);
            vstd::arithmetic::div_mod::lemma_div_nonincreasing(iabs(p.y as int) * FX_ONE as int, l);
            lemma_prod_bound(p.x as int, FX_ONE as int, 0x800_0000, 1024);
            lemma_prod_bound(p.y as int, FX_ONE as int, 0x800_0000, 1024);
            assert(side_aligned(target, unit));
        }
    }

    proof {
        assert(bend as int * cross(target, vsub(mid0, mid0)) == 0) by (nonlinear_arith)
            requires
                vsub(mid0, mid0).x == 0,
                vsub(mid0, mid0).y == 0;
    }
    let mut mid = mid0;
    let mut min_cost = chain_cost(origin, mid0, target, seg);
    let mut min_mid = mid0;
    let mut iter: u64 = 0;

    while iter < SOLVE_ITERS
        invariant
            0 <= iter <= SOLVE_ITERS,
            origin.in_range(0x1_0000),
            target.in_range(4 * seg as int),
            unit.in_range(2 * FX_ONE as int),
            SEG_MIN_FX <= seg <= SEG_MAX_FX,
            bend == 1i64 || bend == -1i64,
            mid == mid_at(mid0, unit, bend as int, iter as nat),
            mid.in_range(2 * seg as int + 1 + 104 * (iter as int) * (iter as int)),
            min_mid == best_at(origin, target, mid0, unit, bend as int, seg as int, iter as nat).0,
            min_cost as int == best_at(origin, target, mid0, unit, bend as int, seg as int, iter as nat).1,
            min_mid.in_range(2 * seg as int + 1 + 104 * (iter as int) * (iter as int)),
            mid0 == vhalf(target),
            mid0.in_range(2 * seg as int + 1),
            vperp(mid0).len2() != 0 ==> side_aligned(target, unit),
            side_aligned(target, unit) ==> bend as int * cross(target, vsub(mid, mid0)) >= 0,
            side_aligned(target, unit) ==> bend as int * cross(target, vsub(min_mid, mid0)) >= 0,
        decreases SOLVE_ITERS - iter,
    {
        let ghost prev_mid = mid;
        let step: i64 = ((FX_ONE as u64 * iter) / 10) as i64;
        proof {
            assert(104 * (iter as int) * (iter as int) <= 104 * (iter as int) * 1000
                && 104 * (iter as int) * 1000 < 104_000_000) by (nonlinear_arith)
                requires 0 <= iter < 1000;
            assert(104 * (iter as int + 1) * (iter as int + 1) <= 104_000_000) by (nonlinear_arith)
                requires 0 <= iter < 1000;
            lemma_prod_bound(unit.x as int, step as int, 2 * FX_ONE as int, 0x2_0000);
            lemma_prod_bound(unit.y as int, step as int, 2 * FX_ONE as int, 0x2_0000);
            lemma_sdiv_in_bound(unit.x as int, step as int, FX_ONE as int, 2 * FX_ONE as int);
            lemma_sdiv_in_bound(unit.y as int, step as int, FX_ONE as int, 2 * FX_ONE as int);
            vstd::arithmetic::div_mod::lemma_div_multiples_vanish(2 * step as int, FX_ONE as int);
            assert(2 * FX_ONE as int * step as int == FX_ONE as int * (2 * step as int)) by (nonlinear_arith);
        }
        let d = unit.scale_fx(step);
        let new_mid = if bend >= 0 {
            mid.add(d)
        } else {
            mid.sub(d)
        };
        mid = new_mid;
        proof {
            assert(104 * (iter as int) * (iter as int) + 2 * (step as int)
                <= 104 * (iter as int + 1) * (iter as int + 1)) by (nonlinear_arith)
                requires
                    0 <= iter < 1000,
                    step as int == (1024 * (iter as int)) / 10,
                    1024 * (iter as int) / 10 * 10 <= 1024 * (iter as int);
            assert(mid == mid_at(mid0, unit, bend as int, (iter + 1) as nat));
            if side_aligned(target, unit) {
                lemma_step_side(target, unit, step as int);
                if bend >= 0 {
                    lemma_cross_additive(target, vsub(mid, mid0), vsub(prev_mid, mid0), d);
                } else {
                    lemma_cross_additive(target, vsub(prev_mid, mid0), vsub(mid, mid0), d);
                }
            }
        }
        let c = chain_cost(origin, mid, target, seg);
        if c < min_cost {
            min_cost = c;
            min_mid = mid;
        }
        proof {
            assert(min_mid == best_at(origin, target, mid0, unit, bend as int, seg as int, (iter + 1) as nat).0);
        }
        iter = iter + 1;
    }
    proof {
        assert(104 * (SOLVE_ITERS as int) * (SOLVE_ITERS as int) == 104_000_000) by (nonlinear_arith);
    }
    (min_mid, target)
}

} // verus!
