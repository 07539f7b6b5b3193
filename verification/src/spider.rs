//! The creature body: radially arranged legs, velocity and facing state,
//! the per-tick retarget policy, and display smoothing.
//!
//! A body is advanced exactly once per external tick through
//! [`Spider::move_towards`] (or [`Spider::run_away_from`], which first
//! computes a steering vector).  The whole tick is specified functionally:
//! `advance_rel` relates the state before and after a tick, field by field
//! and leg by leg, so identical inputs provably give identical outcomes.

use vstd::prelude::*;
use crate::vec2::{
    Vec2, FX_ONE, POS_LIMIT, COORD_LIMIT, LEN_ARG_LIMIT, dot, iabs, length, sdiv,
    is_isqrt, isqrt_spec, vadd, vsub, vperp, vscale_fx, vlerp_half, vnormalize_or,
    vclamp_len, vclamp_len_max, vrotate, rotate, scale_div, dot_wide, lemma_sdiv_in_bound,
    lemma_sdiv_scaled_bounds, lemma_prod_bound, lemma_len2_bound, lemma_len2_lower,
    lemma_lerp_half_in_range, lemma_vrotate_in_range, lemma_vrotate_len2,
    lemma_normalize_len2, lemma_sq_lower, lemma_isqrt_exists,
};
use crate::solver::{solve, solve_knee_spec, solve_foot_spec, MIN_REACH_FX};

verus! {

/// Fixed leg segment length: 64 world units in fixed point.
pub const LEG_LENGTH_FX: i64 = 65536;

/// Number of legs on every body.
pub const LEG_COUNT: usize = 8;

/// Steering acceleration: 30 world units per second, in fixed point.
pub const MOVE_SPEED_FX: i64 = 30720;

/// Velocity is clamped to 5 world units per tick, in fixed point.
pub const MAX_VEL_FX: i64 = 5120;

/// A velocity below this is too small to steer the facing: 0.01 world
/// units in fixed point (rounded down).
pub const FACE_EPS_FX: i64 = 10;

/// Reach beyond twice the segment length retargets a leg inward;
/// this is `2 * LEG_LENGTH_FX`.
pub const OVEREXTEND_FX: i64 = 131072;

/// Six segment lengths; `25 * reach2 < UNDER_SIX_SEG^2` tests
/// `reach < 1.2 * segment_length` exactly on squared lengths.
pub const UNDER_SIX_SEG: i64 = 393216;

/// Overextended legs are pulled back in to 1.4 segment lengths.
pub const RETARGET_IN_FX: i64 = 91750;

/// A leg twisted past the angle limit is snapped to 1.6 segment lengths.
pub const SNAP_FX: i64 = 104857;

/// Cosine of the default maximum leg angle (0.6 rad), in fixed point.
pub const MAX_LEG_ANGLE_COS_FX: i64 = 845;

/// Fleeing bodies steer inward within 100 world units of an arena edge.
pub const ARENA_MARGIN_FX: i64 = 102400;

/// What drives a body's steering each tick.
#[derive(Copy, Clone, Debug, PartialEq, Eq, Structural)]
pub enum SpiderType {
    /// Steered directly by external input.
    Player,
    /// Flees perpendicular to the threat, one lateral preference.
    Left,
    /// Flees perpendicular to the threat, the mirrored preference.
    Right,
}

/// One leg: its fixed attachment data, the current solve results, and the
/// smoothed positions used for rendering.
#[derive(Copy, Clone, Debug, PartialEq, Eq, Structural)]
pub struct Leg {
    /// Fixed local offset from the body center where the leg attaches.
    pub origin_offset: Vec2,
    /// World-space point the leg currently reaches for.
    pub target: Vec2,
    /// World-space solved end-effector position.
    pub end: Vec2,
    /// World-space solved middle-joint position.
    pub mid: Vec2,
    /// Exponentially smoothed `mid`, for rendering.
    pub lerp_mid: Vec2,
    /// Exponentially smoothed `end`, for rendering.
    pub lerp_end: Vec2,
    /// The leg's resting direction in the body's local frame, a fixed-point
    /// unit vector set once at creation.
    pub ideal_leg_dir: Vec2,
    /// Which side of the body-to-foot chord the knee bends toward; fixed
    /// per leg at creation from the side its resting direction points to.
    pub bend_sign: i64,
}

/// A creature body.
#[derive(Debug)]
pub struct Spider {
    pub pos: Vec2,
    pub velocity: Vec2,
    pub spider_type: SpiderType,
    /// Uniform render-size multiplier in fixed point; no effect on solving.
    pub scale: i64,
    pub face_dir: Vec2,
    pub legs: Vec<Leg>,
    /// Cosine (fixed point) of the largest angle a leg may make with its
    /// resting direction before it is snapped back.
    pub max_leg_angle_cos_fx: i64,
    pub debug_leg_angles: bool,
    pub debug_color_legs: bool,
    pub debug_draw_joints: bool,
}

/// The fixed-point unit vector along positive x, the fallback direction
/// wherever a zero vector would have to be normalized.
pub open spec fn unit_x() -> Vec2 {
    Vec2 { x: 1024, y: 0 }
}

pub open spec fn vzero() -> Vec2 {
    Vec2 { x: 0, y: 0 }
}

/// Resting direction of leg slot `i`: the unit vector `(0, 1)` rotated by
/// `36 degrees * (i + 1)`, in fixed point (legs sit on a 10-slot circle
/// with the two slots around the face left empty).
pub open spec fn slot_dir(i: int) -> Vec2 {
    if i == 0 {
        Vec2 { x: -602i64, y: 828 }
    } else if i == 1 {
        Vec2 { x: -974i64, y: 316 }
    } else if i == 2 {
        Vec2 { x: -974i64, y: -316i64 }
    } else if i == 3 {
        Vec2 { x: -602i64, y: -828i64 }
    } else if i == 4 {
        Vec2 { x: 0, y: -1024i64 }
    } else if i == 5 {
        Vec2 { x: 602, y: -828i64 }
    } else if i == 6 {
        Vec2 { x: 974, y: -316i64 }
    } else {
        Vec2 { x: 974, y: 316 }
    }
}

/// Anchor offset length of leg slot `i` in fixed point: legs nearer the
/// middle slots attach nearer the center.
pub open spec fn slot_off_fx(i: int) -> int {
    (if i <= 3 {
        3 - i
    } else {
        i - 3
    }) * 1024
}

/// The state of leg slot `i` at creation: resting direction and anchor from
/// the slot geometry, target at full resting reach, joints at the origin.
pub open spec fn leg_init_spec(pos: Vec2, i: int) -> Leg {
    let ideal = slot_dir(i);
    Leg {
        origin_offset: vscale_fx(ideal, slot_off_fx(i)),
        target: vadd(pos, vscale_fx(ideal, 2 * LEG_LENGTH_FX as int)),
        end: vzero(),
        mid: vzero(),
        lerp_mid: vzero(),
        lerp_end: vzero(),
        ideal_leg_dir: ideal,
        bend_sign: if ideal.x >= 0 {
            1i64
        } else {
            -1i64
        },
    }
}

/// Saturate a coordinate into the allowed position range.
pub open spec fn sat_pos(a: int) -> int {
    if a > POS_LIMIT as int {
        POS_LIMIT as int
    } else if a < -POS_LIMIT as int {
        -POS_LIMIT as int
    } else {
        a
    }
}

/// Position integration: add the velocity, saturating at the world bound.
pub open spec fn vadd_sat(a: Vec2, b: Vec2) -> Vec2 {
    Vec2 { x: sat_pos(a.x + b.x) as i64, y: sat_pos(a.y + b.y) as i64 }
}

/// Velocity after steering input and the speed clamp.
pub open spec fn vel_after(v: Vec2, dir: Vec2, dt: int) -> Vec2 {
    let v1 = if 100 * dir.len2() > 1048576 {
        vadd(v, vscale_fx(vnormalize_or(dir, unit_x()), sdiv(MOVE_SPEED_FX as int, dt, FX_ONE as int)))
    } else {
        v
    };
    vclamp_len_max(v1, MAX_VEL_FX as int)
}

/// Velocity drag: nine tenths, truncating toward zero.
pub open spec fn vdecay(v: Vec2) -> Vec2 {
    Vec2 { x: sdiv(v.x as int, 9, 10) as i64, y: sdiv(v.y as int, 9, 10) as i64 }
}

/// Facing after a tick: blend halfway toward the direction of motion when
/// the body is moving, and fall back to a fixed unit direction if the
/// blend collapses toward the zero vector.
pub open spec fn face_after(face: Vec2, v: Vec2) -> Vec2 {
    if v.len2() > 100 {
        let f1 = vlerp_half(face, vnormalize_or(v, unit_x()));
        if f1.len2() < 100 {
            unit_x()
        } else {
            f1
        }
    } else {
        face
    }
}

/// The leg-twist test: the unsigned angle between the current leg
/// direction and the rotated resting direction exceeds the configured
/// limit.  Stated on cosines: `cos(angle) < cos(limit)` via the cross
/// multiplied form that avoids any division.
pub open spec fn angle_snap_spec(leg_dir: Vec2, ideal_rot: Vec2, cos_fx: int) -> bool {
    1024 * dot(leg_dir, ideal_rot) < cos_fx * isqrt_spec(leg_dir.len2()) * isqrt_spec(
        ideal_rot.len2(),
    )
}

/// One leg after a tick: retarget when over- or under-extended, solve, snap
/// on excessive twist, and smooth the display positions.
pub open spec fn leg_after(leg: Leg, pos2: Vec2, face2: Vec2, cos_fx: int) -> Leg {
    let u = vnormalize_or(face2, unit_x());
    let ideal_rot = vrotate(u, leg.ideal_leg_dir);
    let leg_dir = vsub(leg.end, pos2);
    let t1 = if leg_dir.len2() > 0x4_0000_0000 {
        vadd(pos2, vscale_fx(ideal_rot, RETARGET_IN_FX as int))
    } else {
        leg.target
    };
    let t2 = if 25 * leg_dir.len2() < 0x24_0000_0000 {
        vadd(pos2, vscale_fx(ideal_rot, OVEREXTEND_FX as int))
    } else {
        t1
    };
    let snap = angle_snap_spec(leg_dir, ideal_rot, cos_fx);
    let knee = vadd(
        pos2,
        solve_knee_spec(leg.origin_offset, vsub(t2, pos2), LEG_LENGTH_FX as int, leg.bend_sign as int, ideal_rot),
    );
    let foot = if snap {
        vadd(pos2, vscale_fx(ideal_rot, SNAP_FX as int))
    } else {
        vadd(pos2, solve_foot_spec(vsub(t2, pos2), LEG_LENGTH_FX as int, ideal_rot))
    };
    Leg {
        origin_offset: leg.origin_offset,
        target: t2,
        end: foot,
        mid: knee,
        lerp_mid: vlerp_half(leg.lerp_mid, knee),
        lerp_end: vlerp_half(leg.lerp_end, foot),
        ideal_leg_dir: leg.ideal_leg_dir,
        bend_sign: leg.bend_sign,
    }
}

/// The full tick relation: `post` is `pre` advanced once with steering
/// input `dir` over the time step `dt`.
pub open spec fn advance_rel(pre: Spider, post: Spider, dir: Vec2, dt: int) -> bool {
    let vel2 = vel_after(pre.velocity, dir, dt);
    let pos2 = vadd_sat(pre.pos, vel2);
    let vel3 = vdecay(vel2);
    let face2 = face_after(pre.face_dir, vel3);
    &&& post.velocity == vel3
    &&& post.pos == pos2
    &&& post.face_dir == face2
    &&& post.spider_type == pre.spider_type
    &&& post.scale == pre.scale
    &&& post.max_leg_angle_cos_fx == pre.max_leg_angle_cos_fx
    &&& post.debug_leg_angles == pre.debug_leg_angles
    &&& post.debug_color_legs == pre.debug_color_legs
    &&& post.debug_draw_joints == pre.debug_draw_joints
    &&& post.legs@.len() == pre.legs@.len()
    &&& forall|i: int|
        0 <= i < pre.legs@.len() ==> post.legs@[i] == leg_after(
            #[trigger] pre.legs@[i],
            pos2,
            face2,
            pre.max_leg_angle_cos_fx as int,
        )
}

/// The steering vector a fleeing body computes from a threat position:
/// perpendicular to the line toward the threat, with the side chosen by
/// kind, overridden to point inward near an arena edge.
pub open spec fn flee_dir_spec(pos: Vec2, enemy: Vec2, ty: SpiderType, w: int, h: int) -> Vec2 {
    let p0 = vnormalize_or(vperp(vsub(pos, enemy)), unit_x());
    let p1 = if ty == SpiderType::Left {
        vnormalize_or(vperp(vperp(p0)), unit_x())
    } else {
        p0
    };
    let px: int = if pos.x <= ARENA_MARGIN_FX {
        FX_ONE as int
    } else if pos.x >= w - ARENA_MARGIN_FX {
        -FX_ONE as int
    } else {
        p1.x as int
    };
    let py: int = if pos.y <= ARENA_MARGIN_FX {
        FX_ONE as int
    } else if pos.y >= h - ARENA_MARGIN_FX {
        -FX_ONE as int
    } else {
        p1.y as int
    };
    Vec2 { x: px as i64, y: py as i64 }
}

impl Leg {
    /// Every stored coordinate of a leg stays in its bounded range, the
    /// resting direction is a fixed-point unit vector, and the bend sign
    /// is one of the two sides.
    pub open spec fn wf(self) -> bool {
        &&& self.origin_offset.in_range(0x1_0000)
        &&& self.target.in_range(COORD_LIMIT as int)
        &&& self.end.in_range(COORD_LIMIT as int)
        &&& self.mid.in_range(COORD_LIMIT as int)
        &&& self.lerp_mid.in_range(COORD_LIMIT as int)
        &&& self.lerp_end.in_range(COORD_LIMIT as int)
        &&& self.ideal_leg_dir.in_range(FX_ONE as int)
        &&& 1000000 <= self.ideal_leg_dir.len2() <= 1048576
        &&& (self.bend_sign == 1i64 || self.bend_sign == -1i64)
    }
}

impl Spider {
    /// Well-formedness: every coordinate the state holds is inside the
    /// range the arithmetic is proved safe for, the facing never collapses
    /// to the zero vector, and the leg count is fixed.
    pub open spec fn wf(self) -> bool {
        &&& self.pos.in_range(POS_LIMIT as int)
        &&& self.velocity.in_range(MAX_VEL_FX as int)
        &&& self.face_dir.in_range(FX_ONE as int)
        &&& self.face_dir.len2() >= 100
        &&& self.legs@.len() == LEG_COUNT
        &&& forall|i: int| 0 <= i < self.legs@.len() ==> (#[trigger] self.legs@[i]).wf()
        &&& -FX_ONE <= self.max_leg_angle_cos_fx <= FX_ONE
        &&& 0 <= self.scale <= 0x1_0000_0000
    }
}

/// Every slot direction is a fixed-point unit vector (up to rounding).
pub proof fn lemma_slot_dir_unit(i: int)
    requires
        0 <= i < LEG_COUNT,
    ensures
        slot_dir(i).in_range(FX_ONE as int),
        1000000 <= slot_dir(i).len2() <= 1048576,
{
}

/// Law: a quiet tick is harmless.  With no steering input and no residual
/// velocity, advancing the body any number of times leaves its position,
/// velocity and facing exactly as they were — there is no drift and no
/// degenerate value for the rest of the state to trip over, however long
/// the body stands still.
pub proof fn lemma_quiet_tick_keeps_pose(pre: Spider, post: Spider, dt: int)
    requires
        pre.wf(),
        pre.velocity == vzero(),
        advance_rel(pre, post, vzero(), dt),
    ensures
        post.pos == pre.pos,
        post.velocity == vzero(),
        post.face_dir == pre.face_dir,
{
    let z = vzero();
    assert(z.len2() == 0) by (nonlinear_arith)
        requires
            z.x == 0,
            z.y == 0,
            z.len2() == z.x * z.x + z.y * z.y;
    lemma_isqrt_exists(0);
    let l = isqrt_spec(0);
    assert(l == 0) by (nonlinear_arith)
        requires
            is_isqrt(0, l);
    assert(vclamp_len_max(z, MAX_VEL_FX as int) == z);
    vstd::arithmetic::div_mod::lemma_div_pos_is_pos(0, 10);
    vstd::arithmetic::div_mod::lemma_div_nonincreasing(0, 10);
    assert(vdecay(z) == z);
    assert(vel_after(pre.velocity, z, dt) == z);
    assert(vadd_sat(pre.pos, z) == pre.pos);
    assert(face_after(pre.face_dir, z) == pre.face_dir);
}

/// Law: a leg seen overextended — its reach past twice the segment
/// length — is retargeted so that, provided the twist snap does not also
/// fire and the facing has not degenerated below unit length, the newly
/// solved foot lands at about 1.4 segment lengths from the body: its
/// squared reach after the tick lies in
/// `[7_930_000_000, 8_435_000_000]`, an integer reach between `89053`
/// and `91841` fixed-point steps (1.36 to 1.41 segment lengths).
pub proof fn lemma_retarget_reach(leg: Leg, pos2: Vec2, face2: Vec2, cos_fx: int)
    requires
        leg.wf(),
        pos2.in_range(POS_LIMIT as int),
        face2.in_range(FX_ONE as int),
        face2.len2() >= 1000000,
        vsub(leg.end, pos2).len2() > 0x4_0000_0000,
        !angle_snap_spec(
            vsub(leg.end, pos2),
            vrotate(vnormalize_or(face2, unit_x()), leg.ideal_leg_dir),
            cos_fx,
        ),
    ensures
        7_930_000_000 <= vsub(leg_after(leg, pos2, face2, cos_fx).end, pos2).len2()
            <= 8_435_000_000,
{
    let u = vnormalize_or(face2, unit_x());
    lemma_normalize_len2(face2, unit_x());
    let rot = vrotate(u, leg.ideal_leg_dir);
    lemma_vrotate_len2(u, leg.ideal_leg_dir);
    assert(rot.len2() * 1048576 >= 1044480 * 1000000 - 8589934592
        && rot.len2() * 1048576 <= 1050674 * 1048576) by (nonlinear_arith)
        requires
            rot.len2() * 1048576 >= u.len2() * leg.ideal_leg_dir.len2() - 8589934592,
            rot.len2() * 1048576 <= u.len2() * leg.ideal_leg_dir.len2(),
            1044480 <= u.len2() <= 1050674,
            1000000 <= leg.ideal_leg_dir.len2() <= 1048576;
    assert(987902 <= rot.len2() <= 1050674) by (nonlinear_arith)
        requires
            rot.len2() * 1048576 >= 1035890065408,
            rot.len2() * 1048576 <= 1101711540224;
    assert(-1025 <= rot.x <= 1025 && -1025 <= rot.y <= 1025) by (nonlinear_arith)
        requires
            rot.len2() <= 1050674,
            rot.len2() == rot.x * rot.x + rot.y * rot.y;
    let rx = rot.x as int;
    let ry = rot.y as int;
    lemma_sdiv_scaled_bounds(rx, 91750, 1024);
    lemma_sdiv_scaled_bounds(ry, 91750, 1024);
    lemma_sdiv_in_bound(rx, 91750, 1024, 1025);
    lemma_sdiv_in_bound(ry, 91750, 1024, 1025);
    let trel = vscale_fx(rot, RETARGET_IN_FX as int);
    let tx = trel.x as int;
    let ty = trel.y as int;
    assert(tx == sdiv(rx, 91750, 1024) && ty == sdiv(ry, 91750, 1024));
    assert((tx * 1024) * (tx * 1024) <= (rx * 91750) * (rx * 91750)) by (nonlinear_arith)
        requires
            iabs(tx * 1024) <= iabs(rx) * 91750;
    assert((ty * 1024) * (ty * 1024) <= (ry * 91750) * (ry * 91750)) by (nonlinear_arith)
        requires
            iabs(ty * 1024) <= iabs(ry) * 91750;
    lemma_sq_lower(tx * 1024, iabs(rx) * 91750, 1024);
    lemma_sq_lower(ty * 1024, iabs(ry) * 91750, 1024);
    assert(trel.len2() * 1048576 <= 8418062500 * rot.len2()
        && trel.len2() * 1048576 >= 8418062500 * rot.len2() - 2048 * 1024 * (iabs(rx) + iabs(ry))
            * 91750 / 1024) by (nonlinear_arith)
        requires
            (tx * 1024) * (tx * 1024) <= (rx * 91750) * (rx * 91750),
            (ty * 1024) * (ty * 1024) <= (ry * 91750) * (ry * 91750),
            (tx * 1024) * (tx * 1024) >= (iabs(rx) * 91750) * (iabs(rx) * 91750) - 2 * 1024 * (
            iabs(rx) * 91750),
            (ty * 1024) * (ty * 1024) >= (iabs(ry) * 91750) * (iabs(ry) * 91750) - 2 * 1024 * (
            iabs(ry) * 91750),
            trel.len2() == tx * tx + ty * ty,
            rot.len2() == rx * rx + ry * ry;
    assert(7_930_000_000 <= trel.len2() <= 8_435_000_000) by (nonlinear_arith)
        requires
            trel.len2() * 1048576 <= 8418062500 * rot.len2(),
            trel.len2() * 1048576 >= 8418062500 * rot.len2() - 2048 * 1024 * (iabs(rx) + iabs(ry))
                * 91750 / 1024,
            987902 <= rot.len2() <= 1050674,
            iabs(rx) <= 1025,
            iabs(ry) <= 1025;
    let nl = leg_after(leg, pos2, face2, cos_fx);
    assert(25 * vsub(leg.end, pos2).len2() >= 0x24_0000_0000);
    let t2 = vadd(pos2, trel);
    assert(nl.target == t2);
    assert(vsub(t2, pos2) == trel);
    let foot_rel = vclamp_len(trel, MIN_REACH_FX as int, 131072, rot);
    assert(nl.end == vadd(pos2, foot_rel));
    lemma_isqrt_exists(trel.len2());
    let l = isqrt_spec(trel.len2());
    assert(16384 <= l && l <= 131072) by (nonlinear_arith)
        requires
            is_isqrt(trel.len2(), l),
            7_930_000_000 <= trel.len2() <= 8_435_000_000;
    assert(foot_rel == trel);
    assert(vsub(nl.end, pos2) == trel);
}

/// Executable slot direction table; equals `slot_dir`.
pub fn slot_dir_at(i: usize) -> (r: Vec2)
    requires
        i < LEG_COUNT,
    ensures
        r == slot_dir(i as int),
{
    if i == 0 {
        Vec2::new(-602, 828)
    } else if i == 1 {
        Vec2::new(-974, 316)
    } else if i == 2 {
        Vec2::new(-974, -316)
    } else if i == 3 {
        Vec2::new(-602, -828)
    } else if i == 4 {
        Vec2::new(0, -1024)
    } else if i == 5 {
        Vec2::new(602, -828)
    } else if i == 6 {
        Vec2::new(974, -316)
    } else {
        Vec2::new(974, 316)
    }
}

/// Add a velocity to a position, saturating at the world bound so the
/// state stays inside the range the arithmetic is proved safe for.
fn add_sat(a: Vec2, b: Vec2) -> (r: Vec2)
    requires
        a.in_range(POS_LIMIT as int),
        b.in_range(0x1_0000),
    ensures
        r == vadd_sat(a, b),
        r.in_range(POS_LIMIT as int),
{
    let sx = a.x + b.x;
    let sy = a.y + b.y;
    let x = if sx > POS_LIMIT {
        POS_LIMIT
    } else if sx < -POS_LIMIT {
        -POS_LIMIT
    } else {
        sx
    };
    let y = if sy > POS_LIMIT {
        POS_LIMIT
    } else if sy < -POS_LIMIT {
        -POS_LIMIT
    } else {
        sy
    };
    Vec2::new(x, y)
}

impl Spider {
    /// Create a body at `pos` with `LEG_COUNT` legs placed radially from
    /// the slot geometry; each leg's bend side is fixed here, from the
    /// side of the body its resting direction points to.
    pub fn new(scale: i64, pos: Vec2, spider_type: SpiderType) -> (s: Spider)
        requires
            pos.in_range(POS_LIMIT as int),
            0 <= scale <= 0x1_0000_0000,
        ensures
            s.wf(),
            s.pos == pos,
            s.velocity == vzero(),
            s.face_dir == (Vec2 { x: 0, y: 1024 }),
            s.spider_type == spider_type,
            s.scale == scale,
            s.max_leg_angle_cos_fx == MAX_LEG_ANGLE_COS_FX,
            s.debug_leg_angles == false,
            s.debug_color_legs == false,
            s.debug_draw_joints == false,
            s.legs@.len() == LEG_COUNT,
            forall|i: int| 0 <= i < LEG_COUNT ==> s.legs@[i] == leg_init_spec(pos, i),
    {
        let face_dir = Vec2::new(0, 1024);
        let mut legs: Vec<Leg> = Vec::new();
        let mut i: usize = 0;
        while i < LEG_COUNT
            invariant
                0 <= i <= LEG_COUNT,
                pos.in_range(POS_LIMIT as int),
                legs@.len() == i,
                forall|j: int| 0 <= j < i ==> legs@[j] == leg_init_spec(pos, j),
                forall|j: int| 0 <= j < i ==> (#[trigger] legs@[j]).wf(),
            decreases LEG_COUNT - i,
        {
            let ideal = slot_dir_at(i);
            proof {
                lemma_slot_dir_unit(i as int);
            }
            let off: i64 = (if i <= 3 {
                3 - i
            } else {
                i - 3
            }) as i64 * FX_ONE;
            proof {
                lemma_prod_bound(ideal.x as int, off as int, 1024, 4096);
                lemma_prod_bound(ideal.y as int, off as int, 1024, 4096);
                lemma_sdiv_in_bound(ideal.x as int, off as int, FX_ONE as int, FX_ONE as int);
                lemma_sdiv_in_bound(ideal.y as int, off as int, FX_ONE as int, FX_ONE as int);
                vstd::arithmetic::div_mod::lemma_div_multiples_vanish(off as int, FX_ONE as int);
                vstd::arithmetic::mul::lemma_mul_is_commutative(FX_ONE as int, off as int);
                lemma_prod_bound(ideal.x as int, 2 * LEG_LENGTH_FX as int, 1024, 131072);
                lemma_prod_bound(ideal.y as int, 2 * LEG_LENGTH_FX as int, 1024, 131072);
                lemma_sdiv_in_bound(ideal.x as int, 2 * LEG_LENGTH_FX as int, FX_ONE as int, FX_ONE as int);
                lemma_sdiv_in_bound(ideal.y as int, 2 * LEG_LENGTH_FX as int, FX_ONE as int, FX_ONE as int);
                vstd::arithmetic::div_mod::lemma_div_multiples_vanish(2 * LEG_LENGTH_FX as int, FX_ONE as int);
                vstd::arithmetic::mul::lemma_mul_is_commutative(FX_ONE as int, 2 * LEG_LENGTH_FX as int);
            }
            let origin_offset = ideal.scale_fx(off);
            let reach = ideal.scale_fx(2 * LEG_LENGTH_FX);
            let target = pos.add(reach);
            let bend_sign: i64 = if ideal.x >= 0 {
                1
            } else {
                -1
            };
            let leg = Leg {
                origin_offset,
                target,
                end: Vec2::new(0, 0),
                mid: Vec2::new(0, 0),
                lerp_mid: Vec2::new(0, 0),
                lerp_end: Vec2::new(0, 0),
                ideal_leg_dir: ideal,
                bend_sign,
            };
            legs.push(leg);
            i = i + 1;
        }
        let s = Spider {
            pos,
            velocity: Vec2::new(0, 0),
            spider_type,
            scale,
            face_dir,
            legs,
            max_leg_angle_cos_fx: MAX_LEG_ANGLE_COS_FX,
            debug_leg_angles: false,
            debug_color_legs: false,
            debug_draw_joints: false,
        };
        proof {
            lemma_len2_lower(s.face_dir, 10);
        }
        s
    }

    /// The rotation that carries the body-local frame into world space:
    /// the unit vector the rotation sends `(0, FX_ONE)` to.  Apply it to a
    /// body-local vector with [`crate::vec2::rotate`].
    pub fn face_transform(&self) -> (u: Vec2)
        requires
            self.wf(),
        ensures
            u == vnormalize_or(self.face_dir, unit_x()),
            u.in_range(FX_ONE as int),
    {
        self.face_dir.normalize_or(Vec2::new(1024, 0))
    }

    /// Advance the body one tick: integrate velocity from the steering
    /// input `move_dir` over the time step `dt`, blend the facing toward
    /// the motion, retarget and re-solve every leg, and smooth the display
    /// joints.  The entire tick is pinned down by `advance_rel`.
    pub fn move_towards(&mut self, move_dir: Vec2, dt: i64)
        requires
            old(self).wf(),
            move_dir.in_range(POS_LIMIT as int),
            0 <= dt <= FX_ONE,
        ensures
            final(self).wf(),
            advance_rel(*old(self), *final(self), move_dir, dt as int),
    {
        proof {
            lemma_len2_bound(move_dir, 0x4000_0000);
        }
        let l2d = move_dir.len2_wide();
        let mut vel = self.velocity;
        if 100 * l2d > 1048576 {
            let unit = move_dir.normalize_or(Vec2::new(1024, 0));
            let speed_dt = scale_div(MOVE_SPEED_FX, dt, FX_ONE);
            proof {
                vstd::arithmetic::mul::lemma_mul_inequality(dt as int, FX_ONE as int, MOVE_SPEED_FX as int);
                vstd::arithmetic::mul::lemma_mul_is_commutative(MOVE_SPEED_FX as int, dt as int);
                vstd::arithmetic::div_mod::lemma_div_is_ordered(
                    MOVE_SPEED_FX as int * dt as int,
                    FX_ONE as int * MOVE_SPEED_FX as int,
                    FX_ONE as int,
                );
                vstd::arithmetic::div_mod::lemma_div_multiples_vanish(MOVE_SPEED_FX as int, FX_ONE as int);
                vstd::arithmetic::div_mod::lemma_div_pos_is_pos(MOVE_SPEED_FX as int * dt as int, FX_ONE as int);
                assert(0 <= speed_dt <= MOVE_SPEED_FX);
                lemma_prod_bound(unit.x as int, speed_dt as int, 1024, 30720);
                lemma_prod_bound(unit.y as int, speed_dt as int, 1024, 30720);
                lemma_sdiv_in_bound(unit.x as int, speed_dt as int, FX_ONE as int, FX_ONE as int);
                lemma_sdiv_in_bound(unit.y as int, speed_dt as int, FX_ONE as int, FX_ONE as int);
                vstd::arithmetic::div_mod::lemma_div_multiples_vanish(speed_dt as int, FX_ONE as int);
                vstd::arithmetic::mul::lemma_mul_is_commutative(FX_ONE as int, speed_dt as int);
            }
            let dv = unit.scale_fx(speed_dt);
            vel = vel.add(dv);
        }
        let vel2 = vel.clamp_len_max(MAX_VEL_FX);
        proof {
            assert(vel2 == vel_after(old(self).velocity, move_dir, dt as int));
            lemma_sdiv_in_bound(vel2.x as int, 9, 10, 5120);
            lemma_sdiv_in_bound(vel2.y as int, 9, 10, 5120);
        }
        let pos2 = add_sat(self.pos, vel2);
        self.pos = pos2;
        let vel3 = Vec2::new(scale_div(vel2.x, 9, 10), scale_div(vel2.y, 9, 10));
        self.velocity = vel3;

        let l2v = vel3.len2_wide();
        if l2v > 100 {
            let nv = vel3.normalize_or(Vec2::new(1024, 0));
            let f1 = self.face_dir.lerp_half(nv);
            proof {
                lemma_lerp_half_in_range(old(self).face_dir, nv, 1024);
            }
            let l2f = f1.len2_wide();
            if l2f < 100 {
                self.face_dir = Vec2::new(1024, 0);
                proof {
                    lemma_len2_lower(self.face_dir, 10);
                }
            } else {
                self.face_dir = f1;
            }
        }
        let face2 = self.face_dir;
        proof {
            assert(face2 == face_after(old(self).face_dir, vel3));
            assert(face2.in_range(1024) && face2.len2() >= 100);
        }
        let u = face2.normalize_or(Vec2::new(1024, 0));

        let n = self.legs.len();
        let mut new_legs: Vec<Leg> = Vec::new();
        let mut i: usize = 0;
        while i < n
            invariant
                0 <= i <= n,
                n == self.legs.len(),
                n == LEG_COUNT,
                self.legs@ == old(self).legs@,
                forall|j: int| 0 <= j < n ==> (#[trigger] self.legs@[j]).wf(),
                self.pos == pos2,
                pos2 == vadd_sat(old(self).pos, vel_after(old(self).velocity, move_dir, dt as int)),
                pos2.in_range(POS_LIMIT as int),
                self.velocity == vel3,
                vel3 == vdecay(vel_after(old(self).velocity, move_dir, dt as int)),
                vel3.in_range(MAX_VEL_FX as int),
                self.face_dir == face2,
                face2 == face_after(old(self).face_dir, vel3),
                face2.in_range(FX_ONE as int),
                face2.len2() >= 100,
                u == vnormalize_or(face2, unit_x()),
                u.in_range(FX_ONE as int),
                self.spider_type == old(self).spider_type,
                self.scale == old(self).scale,
                self.max_leg_angle_cos_fx == old(self).max_leg_angle_cos_fx,
                -FX_ONE <= self.max_leg_angle_cos_fx <= FX_ONE,
                self.debug_leg_angles == old(self).debug_leg_angles,
                self.debug_color_legs == old(self).debug_color_legs,
                self.debug_draw_joints == old(self).debug_draw_joints,
                0 <= self.scale <= 0x1_0000_0000,
                new_legs@.len() == i,
                forall|j: int|
                    0 <= j < i ==> new_legs@[j] == leg_after(
                        #[trigger] old(self).legs@[j],
                        pos2,
                        face2,
                        self.max_leg_angle_cos_fx as int,
                    ),
                forall|j: int| 0 <= j < i ==> (#[trigger] new_legs@[j]).wf(),
            decreases n - i,
        {
            let leg = self.legs[i];
            let ideal_rot = rotate(u, leg.ideal_leg_dir);
            proof {
                lemma_vrotate_in_range(u, leg.ideal_leg_dir, 1024);
            }
            let leg_dir = leg.end.sub(pos2);
            proof {
                lemma_len2_bound(leg_dir, 0x9000_0000);
            }
            let l2 = leg_dir.len2_wide();
            let mut target = leg.target;
            if l2 > 0x4_0000_0000 {
                proof {
                    lemma_prod_bound(ideal_rot.x as int, RETARGET_IN_FX as int, 2048, 91750);
                    lemma_prod_bound(ideal_rot.y as int, RETARGET_IN_FX as int, 2048, 91750);
                    lemma_sdiv_in_bound(ideal_rot.x as int, RETARGET_IN_FX as int, FX_ONE as int, 2048);
                    lemma_sdiv_in_bound(ideal_rot.y as int, RETARGET_IN_FX as int, FX_ONE as int, 2048);
                }
                target = pos2.add(ideal_rot.scale_fx(RETARGET_IN_FX));
            }
            if 25 * l2 < 0x24_0000_0000 {
                proof {
                    lemma_prod_bound(ideal_rot.x as int, OVEREXTEND_FX as int, 2048, 131072);
                    lemma_prod_bound(ideal_rot.y as int, OVEREXTEND_FX as int, 2048, 131072);
                    lemma_sdiv_in_bound(ideal_rot.x as int, OVEREXTEND_FX as int, FX_ONE as int, 2048);
                    lemma_sdiv_in_bound(ideal_rot.y as int, OVEREXTEND_FX as int, FX_ONE as int, 2048);
                }
                target = pos2.add(ideal_rot.scale_fx(OVEREXTEND_FX));
            }
            let dw = dot_wide(leg_dir, ideal_rot);
            proof {
                lemma_prod_bound(leg_dir.x as int, ideal_rot.x as int, 0x9000_0000, 2048);
                lemma_prod_bound(leg_dir.y as int, ideal_rot.y as int, 0x9000_0000, 2048);
            }
            let l1 = length(leg_dir);
            let lr = length(ideal_rot);
            let c = self.max_leg_angle_cos_fx;
            proof {
                lemma_prod_bound(c as int, l1 as int, 1024, 0x1_0000_0000);
                lemma_prod_bound(c as int * l1 as int, lr as int, 0x400_0000_0000, 0x1_0000_0000);
            }
            let lhs: i128 = 1024 * dw;
            let rhs: i128 = (c as i128) * (l1 as i128) * (lr as i128);
            let snap = lhs < rhs;
            proof {
                assert(snap == angle_snap_spec(leg_dir, ideal_rot, c as int));
            }
            let trel = target.sub(pos2);
            let (knee_rel, foot_rel) = solve(leg.origin_offset, trel, LEG_LENGTH_FX, leg.bend_sign, ideal_rot);
            let knee = pos2.add(knee_rel);
            let mut foot = pos2.add(foot_rel);
            if snap {
                proof {
                    lemma_prod_bound(ideal_rot.x as int, SNAP_FX as int, 2048, 104857);
                    lemma_prod_bound(ideal_rot.y as int, SNAP_FX as int, 2048, 104857);
                    lemma_sdiv_in_bound(ideal_rot.x as int, SNAP_FX as int, FX_ONE as int, 2048);
                    lemma_sdiv_in_bound(ideal_rot.y as int, SNAP_FX as int, FX_ONE as int, 2048);
                }
                foot = pos2.add(ideal_rot.scale_fx(SNAP_FX));
            }
            proof {
                lemma_lerp_half_in_range(leg.lerp_mid, knee, COORD_LIMIT as int);
                lemma_lerp_half_in_range(leg.lerp_end, foot, COORD_LIMIT as int);
            }
            let lerp_mid = leg.lerp_mid.lerp_half(knee);
            let lerp_end = leg.lerp_end.lerp_half(foot);
            let nl = Leg {
                origin_offset: leg.origin_offset,
                target,
                end: foot,
                mid: knee,
                lerp_mid,
                lerp_end,
                ideal_leg_dir: leg.ideal_leg_dir,
                bend_sign: leg.bend_sign,
            };
            proof {
                assert(nl == leg_after(
                    old(self).legs@[i as int],
                    pos2,
                    face2,
                    self.max_leg_angle_cos_fx as int,
                ));
                assert(nl.wf());
            }
            new_legs.push(nl);
            i = i + 1;
        }
        self.legs = new_legs;
    }

    /// Steer away from a threat for one tick: move perpendicular to the
    /// line toward it, with the side fixed by this body's kind, steering
    /// inward instead wherever the body is within the margin of the arena
    /// bounds `(arena_w, arena_h)`; then advance the body with that input.
    pub fn run_away_from(&mut self, enemy: Vec2, arena_w: i64, arena_h: i64, dt: i64)
        requires
            old(self).wf(),
            enemy.in_range(POS_LIMIT as int),
            0 <= arena_w <= POS_LIMIT,
            0 <= arena_h <= POS_LIMIT,
            0 <= dt <= FX_ONE,
        ensures
            final(self).wf(),
            advance_rel(
                *old(self),
                *final(self),
                flee_dir_spec(old(self).pos, enemy, old(self).spider_type, arena_w as int, arena_h as int),
                dt as int,
            ),
    {
        let rel = self.pos.sub(enemy);
        let p0 = rel.perp().normalize_or(Vec2::new(1024, 0));
        proof {
            assert(vperp(rel).len2() >= 0) by (nonlinear_arith);
        }
        let p1 = if self.spider_type == SpiderType::Left {
            let flipped = p0.perp().perp();
            proof {
                assert(vperp(vperp(p0)).len2() >= 0) by (nonlinear_arith);
            }
            flipped.normalize_or(Vec2::new(1024, 0))
        } else {
            p0
        };
        let px: i64 = if self.pos.x <= ARENA_MARGIN_FX {
            FX_ONE
        } else if self.pos.x >= arena_w - ARENA_MARGIN_FX {
            -FX_ONE
        } else {
            p1.x
        };
        let py: i64 = if self.pos.y <= ARENA_MARGIN_FX {
            FX_ONE
        } else if self.pos.y >= arena_h - ARENA_MARGIN_FX {
            -FX_ONE
        } else {
            p1.y
        };
        let dir = Vec2::new(px, py);
        proof {
            assert(dir == flee_dir_spec(old(self).pos, enemy, old(self).spider_type, arena_w as int, arena_h as int));
        }
        self.move_towards(dir, dt);
    }
}

} // verus!
