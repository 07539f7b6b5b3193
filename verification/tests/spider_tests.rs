use procedural_spider::conf::window_conf;
use procedural_spider::solver::{solve, MIN_REACH_FX};
use procedural_spider::spider::{Spider, SpiderType, LEG_COUNT, LEG_LENGTH_FX};
use procedural_spider::vec2::{isqrt64, Vec2, FX_ONE};

const DT: i64 = 17; // one 60th of a second in fixed point
const SEG: i64 = LEG_LENGTH_FX; // 65536

fn len2(v: Vec2) -> i128 {
    (v.x as i128) * (v.x as i128) + (v.y as i128) * (v.y as i128)
}

fn sub(a: Vec2, b: Vec2) -> Vec2 {
    Vec2 { x: a.x - b.x, y: a.y - b.y }
}

fn chain_cost(origin: Vec2, knee: Vec2, foot: Vec2) -> i64 {
    let d1 = isqrt64(len2(sub(origin, knee)) as u64) as i64 - SEG;
    let d2 = isqrt64(len2(sub(foot, knee)) as u64) as i64 - SEG;
    (d1 + d2).abs()
}

fn fb_up() -> Vec2 {
    Vec2 { x: 0, y: FX_ONE }
}

#[test]
fn solver_is_deterministic() {
    let origin = Vec2 { x: 3072, y: -2048 };
    let target = Vec2 { x: 100000, y: 20000 };
    let a = solve(origin, target, SEG, 1, fb_up());
    let b = solve(origin, target, SEG, 1, fb_up());
    assert_eq!(a.0, b.0);
    assert_eq!(a.1, b.1);
}

#[test]
fn solver_clamps_far_target_to_reach() {
    let (_, foot) = solve(Vec2 { x: 0, y: 0 }, Vec2 { x: 300000, y: 50000 }, SEG, 1, fb_up());
    let l2 = len2(foot);
    assert!(l2 <= (2 * SEG as i128) * (2 * SEG as i128));
    // clamping down lands essentially on the reach circle
    assert!(l2 >= (2 * SEG as i128 - 2) * (2 * SEG as i128 - 2));
}

#[test]
fn solver_pushes_near_target_out_to_min_reach() {
    let (_, foot) = solve(Vec2 { x: 0, y: 0 }, Vec2 { x: 1000, y: 500 }, SEG, 1, fb_up());
    let l2 = len2(foot);
    let lo = MIN_REACH_FX as i128;
    assert!(l2 >= (lo - 3) * (lo - 3));
    assert!(l2 <= (2 * SEG as i128) * (2 * SEG as i128));
}

#[test]
fn solver_keeps_reachable_target() {
    let target = Vec2 { x: 80000, y: 10000 };
    let (_, foot) = solve(Vec2 { x: 0, y: 0 }, target, SEG, 1, fb_up());
    assert_eq!(foot, target);
}

#[test]
fn solver_degenerate_target_falls_back() {
    // a zero direction cannot be normalized: the fallback direction is used
    let (_, foot) = solve(Vec2 { x: 0, y: 0 }, Vec2 { x: 0, y: 0 }, SEG, 1, fb_up());
    assert_eq!(foot, Vec2 { x: 0, y: MIN_REACH_FX });
}

#[test]
fn solver_knee_beats_midpoint_cost() {
    let origin = Vec2 { x: 2048, y: 1024 };
    for &target in &[
        Vec2 { x: 120000, y: 0 },
        Vec2 { x: 90000, y: 40000 },
        Vec2 { x: -50000, y: 70000 },
        Vec2 { x: 20000, y: -20000 },
    ] {
        let (knee, foot) = solve(origin, target, SEG, 1, fb_up());
        let mid0 = Vec2 { x: foot.x / 2, y: foot.y / 2 };
        assert!(chain_cost(origin, knee, foot) <= chain_cost(origin, mid0, foot));
    }
}

#[test]
fn solver_bend_sign_picks_the_side() {
    // for a ring of target angles the knee must land on the bend side of
    // the body-to-foot chord (strictly, for these reachable targets)
    let dirs = [
        (90000i64, 0i64),
        (80000, 40000),
        (40000, 80000),
        (0, 90000),
        (-40000, 80000),
        (-80000, 40000),
        (-90000, 0),
        (-80000, -40000),
        (-40000, -80000),
        (0, -90000),
        (40000, -80000),
        (80000, -40000),
    ];
    for &(x, y) in &dirs {
        let target = Vec2 { x, y };
        for &bend in &[1i64, -1i64] {
            let (knee, foot) = solve(Vec2 { x: 0, y: 0 }, target, SEG, bend, fb_up());
            let mid0 = Vec2 { x: foot.x / 2, y: foot.y / 2 };
            let off = sub(knee, mid0);
            let cross = (foot.x as i128) * (off.y as i128) - (foot.y as i128) * (off.x as i128);
            assert!(
                (bend as i128) * cross > 0,
                "knee on wrong side for target {:?} bend {}",
                target,
                bend
            );
        }
    }
}

#[test]
fn new_spider_has_fixed_radial_legs() {
    let s = Spider::new(1024, Vec2 { x: 0, y: 0 }, SpiderType::Player);
    assert_eq!(s.legs.len(), LEG_COUNT);
    assert_eq!(s.pos, Vec2 { x: 0, y: 0 });
    assert_eq!(s.face_dir, Vec2 { x: 0, y: 1024 });
    for leg in &s.legs {
        // resting directions are fixed-point unit vectors
        let l2 = len2(leg.ideal_leg_dir);
        assert!((1000000..=1048576).contains(&l2));
        // the bend side is fixed by the side the leg points to
        if leg.ideal_leg_dir.x >= 0 {
            assert_eq!(leg.bend_sign, 1);
        } else {
            assert_eq!(leg.bend_sign, -1);
        }
        // targets start at full resting reach
        let t2 = len2(sub(leg.target, s.pos));
        assert!(t2 <= (2 * SEG as i128) * (2 * SEG as i128));
        assert!(t2 >= (2 * (SEG as i128 - 1024)) * (2 * (SEG as i128 - 1024)));
    }
    // legs bend away from the body on both lateral halves
    assert_eq!(s.legs.iter().filter(|l| l.bend_sign == 1).count(), 4);
    assert_eq!(s.legs.iter().filter(|l| l.bend_sign == -1).count(), 4);
}

#[test]
fn advance_is_deterministic() {
    let mut a = Spider::new(1024, Vec2 { x: 0, y: 0 }, SpiderType::Player);
    let mut b = Spider::new(1024, Vec2 { x: 0, y: 0 }, SpiderType::Player);
    for _ in 0..10 {
        a.move_towards(Vec2 { x: 700, y: -300 }, DT);
        b.move_towards(Vec2 { x: 700, y: -300 }, DT);
    }
    assert_eq!(a.pos, b.pos);
    assert_eq!(a.velocity, b.velocity);
    assert_eq!(a.face_dir, b.face_dir);
    assert_eq!(a.legs, b.legs);
}

#[test]
fn walk_right_for_a_second() {
    // body at the origin facing (0, 1), sixty ticks of pure +x steering
    let mut s = Spider::new(1024, Vec2 { x: 0, y: 0 }, SpiderType::Player);
    for _ in 0..60 {
        s.move_towards(Vec2 { x: 1024, y: 0 }, DT);
    }
    assert!(s.pos.x > 0, "body did not move right: {:?}", s.pos);
    assert!(s.face_dir.x > 0, "facing did not turn right: {:?}", s.face_dir);
    for leg in &s.legs {
        let l2 = len2(sub(leg.end, s.pos));
        assert!(l2 <= (2 * SEG as i128) * (2 * SEG as i128), "leg overextended: {}", l2);
        let lo = MIN_REACH_FX as i128 - 3;
        assert!(l2 >= lo * lo, "leg collapsed: {}", l2);
    }
}

#[test]
fn overextended_leg_is_pulled_back_in() {
    // force one foot out to three segment lengths along its resting
    // direction; after a single quiet tick it must sit near 1.4 segment
    // lengths again
    let mut s = Spider::new(1024, Vec2 { x: 0, y: 0 }, SpiderType::Player);
    let ideal = s.legs[0].ideal_leg_dir;
    s.legs[0].end = Vec2 { x: ideal.x * 192, y: ideal.y * 192 };
    let forced = len2(s.legs[0].end);
    assert!(forced >= (3 * SEG as i128 - 1024) * (3 * SEG as i128 - 1024));
    s.move_towards(Vec2 { x: 0, y: 0 }, DT);
    let l2 = len2(sub(s.legs[0].end, s.pos));
    assert!(l2 <= 8_435_000_000, "reach after retarget too long: {}", l2);
    assert!(l2 >= 7_930_000_000, "reach after retarget too short: {}", l2);
}

#[test]
fn bunched_leg_is_pushed_back_out() {
    let mut s = Spider::new(1024, Vec2 { x: 0, y: 0 }, SpiderType::Player);
    let ideal = s.legs[0].ideal_leg_dir;
    // half a segment length: well under the 1.2 segment threshold
    s.legs[0].end = Vec2 { x: ideal.x * 32, y: ideal.y * 32 };
    s.move_towards(Vec2 { x: 0, y: 0 }, DT);
    let l2 = len2(sub(s.legs[0].end, s.pos));
    // pushed out to the full resting reach of two segment lengths
    assert!(l2 <= (2 * SEG as i128) * (2 * SEG as i128));
    assert!(l2 >= (2 * SEG as i128 - 600) * (2 * SEG as i128 - 600), "reach: {}", l2);
}

#[test]
fn twisted_leg_is_snapped_back() {
    // place a foot at a comfortable 1.5 segment lengths but rotated a
    // quarter turn away from its resting direction: the anti-tangle
    // correction must snap it to 1.6 segment lengths along the resting
    // direction, overriding the smooth solve for this tick
    let mut s = Spider::new(1024, Vec2 { x: 0, y: 0 }, SpiderType::Player);
    let ideal = s.legs[0].ideal_leg_dir;
    let perp = Vec2 { x: -ideal.y, y: ideal.x };
    s.legs[0].end = Vec2 { x: perp.x * 96, y: perp.y * 96 };
    s.move_towards(Vec2 { x: 0, y: 0 }, DT);
    let reach = sub(s.legs[0].end, s.pos);
    let l2 = len2(reach);
    let snap = 104857i128; // 1.6 segment lengths in fixed point
    assert!(l2 <= (snap + 2) * (snap + 2), "not snapped, reach2 {}", l2);
    assert!(l2 >= (snap - 400) * (snap - 400), "snap fell short, reach2 {}", l2);
    // and the snap points back along the resting direction
    let dot = (reach.x as i128) * (ideal.x as i128) + (reach.y as i128) * (ideal.y as i128);
    assert!(dot > 0);
}

#[test]
fn face_transform_returns_unit_facing() {
    let s = Spider::new(1024, Vec2 { x: 0, y: 0 }, SpiderType::Player);
    assert_eq!(s.face_transform(), Vec2 { x: 0, y: 1024 });
    let mut w = Spider::new(1024, Vec2 { x: 0, y: 0 }, SpiderType::Player);
    for _ in 0..60 {
        w.move_towards(Vec2 { x: 1024, y: 0 }, DT);
    }
    let u = w.face_transform();
    let l2 = len2(u);
    assert!((1000000..=1060000).contains(&l2), "not unit length: {}", l2);
    assert!(u.x > 0);
}

#[test]
fn hundred_quiet_ticks_stay_stable() {
    // driving with zero steering for 100 ticks must never corrupt the
    // state: the body stays put, the facing keeps its direction and
    // every leg stays inside its reach band
    let mut s = Spider::new(1024, Vec2 { x: 0, y: 0 }, SpiderType::Player);
    for _ in 0..100 {
        s.move_towards(Vec2 { x: 0, y: 0 }, DT);
    }
    assert_eq!(s.pos, Vec2 { x: 0, y: 0 });
    assert_eq!(s.velocity, Vec2 { x: 0, y: 0 });
    assert_eq!(s.face_dir, Vec2 { x: 0, y: 1024 });
    for leg in &s.legs {
        let l2 = len2(sub(leg.end, s.pos));
        assert!(l2 <= (2 * SEG as i128) * (2 * SEG as i128));
        assert!(l2 > 0);
        assert!(len2(leg.lerp_end) < (3 * SEG as i128) * (3 * SEG as i128));
    }
}

#[test]
fn display_smoothing_converges_without_overshoot() {
    let target = Vec2 { x: 10000, y: -5000 };
    let mut display = Vec2 { x: 0, y: 0 };
    let mut prev_gap = len2(sub(target, display));
    let mut ticks = 0;
    while (target.x - display.x).abs() > 1 || (target.y - display.y).abs() > 1 {
        display = display.lerp_half(target);
        let gap = len2(sub(target, display));
        assert!(gap <= prev_gap, "smoothing overshot");
        prev_gap = gap;
        ticks += 1;
        assert!(ticks <= 20, "smoothing did not converge in log time");
    }
    assert!(ticks <= 15);
}

#[test]
fn display_positions_lag_then_follow() {
    let mut s = Spider::new(1024, Vec2 { x: 0, y: 0 }, SpiderType::Player);
    s.move_towards(Vec2 { x: 0, y: 0 }, DT);
    let solved = s.legs[0].end;
    // after one tick from the zero initialisation the display has
    // covered half the distance
    let lerp = s.legs[0].lerp_end;
    assert_eq!(lerp, Vec2 { x: solved.x / 2, y: solved.y / 2 });
    // after many quiet ticks it has essentially caught up
    for _ in 0..30 {
        s.move_towards(Vec2 { x: 0, y: 0 }, DT);
    }
    let leg = &s.legs[0];
    assert!((leg.lerp_end.x - leg.end.x).abs() <= 1);
    assert!((leg.lerp_end.y - leg.end.y).abs() <= 1);
}

#[test]
fn fleeing_sides_mirror_each_other() {
    let pos = Vec2 { x: 500000, y: 500000 };
    let enemy = Vec2 { x: 500000, y: 400000 };
    let (w, h) = (1433600i64, 1024000i64);
    let mut left = Spider::new(1024, pos, SpiderType::Left);
    let mut right = Spider::new(1024, pos, SpiderType::Right);
    left.run_away_from(enemy, w, h, DT);
    right.run_away_from(enemy, w, h, DT);
    assert!(right.velocity.x < 0, "right-handed flee: {:?}", right.velocity);
    assert!(left.velocity.x > 0, "left-handed flee: {:?}", left.velocity);
}

#[test]
fn fleeing_respects_arena_margin() {
    // hugging the left edge: boundary avoidance overrides the flee side
    let pos = Vec2 { x: 50000, y: 500000 };
    let enemy = Vec2 { x: 60000, y: 500000 };
    let (w, h) = (1433600i64, 1024000i64);
    let mut s = Spider::new(1024, pos, SpiderType::Left);
    s.run_away_from(enemy, w, h, DT);
    assert!(s.velocity.x > 0, "did not steer inward: {:?}", s.velocity);
}

#[test]
fn position_saturates_at_world_bound() {
    let limit: i64 = 0x4000_0000;
    let mut s = Spider::new(1024, Vec2 { x: limit - 100, y: 0 }, SpiderType::Player);
    for _ in 0..200 {
        s.move_towards(Vec2 { x: 1024, y: 0 }, DT);
    }
    assert!(s.pos.x <= limit);
    assert!(s.pos.x >= limit - 100);
}

#[test]
fn isqrt_is_exact() {
    let cases: [(u64, u64); 8] = [
        (0, 0),
        (1, 1),
        (3, 1),
        (4, 2),
        (15, 3),
        (16, 4),
        (1048576, 1024),
        (u64::MAX, 4294967295),
    ];
    for (n, r) in cases {
        assert_eq!(isqrt64(n), r, "isqrt({})", n);
    }
}

#[test]
fn window_conf_matches_the_demo() {
    let c = window_conf();
    assert_eq!(c.window_title, "Macroquad - Procedural Spider");
    assert_eq!(c.window_width, 1400);
    assert_eq!(c.window_height, 1000);
}
