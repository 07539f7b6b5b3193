//! Fixed-point 2D vectors.
//!
//! A coordinate is an `i64` counting `FX_ONE`-ths of a world unit, so the
//! value `FX_ONE` is the world-space length `1.0`.  All operations are exact
//! integer arithmetic with truncating division, which makes every routine in
//! the crate deterministic: the same inputs always give bit-identical
//! results.

use vstd::prelude::*;

verus! {

/// Fixed-point steps per world unit.
pub const FX_ONE: i64 = 1024;

/// Largest magnitude allowed for a body-position coordinate.
pub const POS_LIMIT: i64 = 0x4000_0000;

/// Largest magnitude a stored leg coordinate may take: a leg point stays
/// within a bounded offset of the body position.
pub const COORD_LIMIT: i64 = POS_LIMIT + 0x1000_0000;

/// Largest coordinate magnitude for which `x*x + y*y` still fits in `u64`
/// together with a second such square: every vector whose length is taken
/// must be inside this range.
pub const LEN_ARG_LIMIT: i64 = 0x9000_0000;

/// An ordered pair of fixed-point coordinates.
#[derive(Clone, Copy, PartialEq, Eq, Structural, Debug)]
pub struct Vec2 {
    pub x: i64,
    pub y: i64,
}

impl Vec2 {
    /// Squared length, as an unbounded integer.
    pub open spec fn len2(self) -> int {
        self.x * self.x + self.y * self.y
    }

    /// Both coordinates have magnitude at most `b`.
    pub open spec fn in_range(self, b: int) -> bool {
        -b <= self.x <= b && -b <= self.y <= b
    }

    pub fn new(x: i64, y: i64) -> (r: Vec2)
        ensures
            r.x == x,
            r.y == y,
    {
        Vec2 { x, y }
    }
}

/// Absolute value of an integer.
pub open spec fn iabs(x: int) -> int {
    if x < 0 {
        -x
    } else {
        x
    }
}

/// Dot product of two vectors, as an unbounded integer.
pub open spec fn dot(a: Vec2, b: Vec2) -> int {
    a.x * b.x + a.y * b.y
}

/// Signed cross product (z component) of two vectors.
pub open spec fn cross(a: Vec2, b: Vec2) -> int {
    a.x * b.y - a.y * b.x
}

/// `r` is the integer square root of `n`.
pub open spec fn is_isqrt(n: int, r: int) -> bool {
    0 <= r && r * r <= n && n < (r + 1) * (r + 1)
}

/// The integer square root of a non-negative `n`.
pub open spec fn isqrt_spec(n: int) -> int {
    choose|r: int| is_isqrt(n, r)
}

/// Every non-negative integer has an integer square root.
pub proof fn lemma_isqrt_exists(n: int)
    requires
        0 <= n,
    ensures
        is_isqrt(n, isqrt_spec(n)),
    decreases n,
{
    if n == 0 {
        assert(is_isqrt(0, 0));
        assert(exists|r: int| is_isqrt(n, r));
    } else {
        lemma_isqrt_exists(n - 1);
        let r = isqrt_spec(n - 1);
        if (r + 1) * (r + 1) <= n {
            assert(n == (r + 1) * (r + 1) && n < (r + 2) * (r + 2)) by (nonlinear_arith)
                requires
                    0 <= r,
                    r * r <= n - 1,
                    n - 1 < (r + 1) * (r + 1),
                    (r + 1) * (r + 1) <= n;
            assert(is_isqrt(n, r + 1));
            assert(exists|rr: int| is_isqrt(n, rr));
        } else {
            assert(is_isqrt(n, r));
            assert(exists|rr: int| is_isqrt(n, rr));
        }
    }
}

/// The integer square root is unique.
pub proof fn lemma_isqrt_unique(n: int, r1: int, r2: int)
    by (nonlinear_arith)
    requires
        0 <= r1,
        r1 * r1 <= n,
        n < (r1 + 1) * (r1 + 1),
        0 <= r2,
        r2 * r2 <= n,
        n < (r2 + 1) * (r2 + 1),
    ensures
        r1 == r2,
{
}

/// A root below the square root bounds the squared value from above.
pub proof fn lemma_isqrt_ge_root(n: int, r: int, s: int)
    by (nonlinear_arith)
    requires
        is_isqrt(n, r),
        0 <= s,
        s * s <= n,
    ensures
        s <= r,
{
}

/// Integer square root by bisection.
pub fn isqrt64(n: u64) -> (r: u64)
    ensures
        is_isqrt(n as int, r as int),
        r as int == isqrt_spec(n as int),
        r < 0x1_0000_0000,
{
    let mut lo: u64 = 0;
    let mut hi: u64 = 0x1_0000_0000;
    assert((0x1_0000_0000u64 as int) * (0x1_0000_0000u64 as int) > u64::MAX as int)
        by (nonlinear_arith);
    while hi - lo > 1
        invariant
            lo < hi,
            hi <= 0x1_0000_0000,
            (lo as int) * (lo as int) <= n as int,
            (n as int) < (hi as int) * (hi as int),
        decreases hi - lo,
    {
        let mid = lo + (hi - lo) / 2;
        assert(lo < mid < hi);
        assert((mid as int) * (mid as int) <= u64::MAX as int) by (nonlinear_arith)
            requires mid < 0x1_0000_0000u64;
        if mid * mid <= n {
            lo = mid;
        } else {
            hi = mid;
        }
    }
    proof {
        assert(hi == lo + 1);
        assert(is_isqrt(n as int, lo as int));
        assert(exists|r: int| is_isqrt(n as int, r));
        let rr = choose|r: int| is_isqrt(n as int, r);
        lemma_isqrt_unique(n as int, rr, lo as int);
    }
    lo
}

/// Scale `a` by the non-negative ratio `m / d`, truncating toward zero,
/// exactly as the executable `scale_div` does.
pub open spec fn sdiv(a: int, m: int, d: int) -> int
    recommends
        0 <= m,
        0 < d,
{
    if a >= 0 {
        (a * m) / d
    } else {
        -(((-a) * m) / d)
    }
}

/// `sdiv` keeps the sign of its argument and scales magnitudes monotonically.
pub proof fn lemma_sdiv_in_bound(a: int, m: int, d: int, b: int)
    requires
        0 <= m,
        0 < d,
        -b <= a <= b,
        0 <= b,
    ensures
        -(b * m / d) <= sdiv(a, m, d) <= b * m / d,
        -(b * m) <= sdiv(a, m, d) <= b * m,
        a >= 0 ==> sdiv(a, m, d) >= 0,
        a <= 0 ==> sdiv(a, m, d) <= 0,
{
    assert(b * m >= 0) by (nonlinear_arith)
        requires
            0 <= b,
            0 <= m;
    vstd::arithmetic::div_mod::lemma_div_nonincreasing(b * m, d);
    vstd::arithmetic::mul::lemma_mul_inequality(a, b, m);
    vstd::arithmetic::mul::lemma_mul_inequality(-a, b, m);
    vstd::arithmetic::mul::lemma_mul_unary_negation(a, m);
    vstd::arithmetic::div_mod::lemma_div_pos_is_pos(b * m, d);
    if a >= 0 {
        vstd::arithmetic::div_mod::lemma_div_pos_is_pos(a * m, d);
        vstd::arithmetic::div_mod::lemma_div_is_ordered(a * m, b * m, d);
    } else {
        vstd::arithmetic::div_mod::lemma_div_pos_is_pos((-a) * m, d);
        vstd::arithmetic::div_mod::lemma_div_is_ordered((-a) * m, b * m, d);
    }
}

/// Executable truncating scale: `a * m / d` rounded toward zero.
pub fn scale_div(a: i64, m: i64, d: i64) -> (r: i64)
    requires
        0 <= m,
        0 < d,
        -0x4000_0000_0000_0000 <= a * m <= 0x4000_0000_0000_0000,
        -0x4000_0000_0000_0000 <= a <= 0x4000_0000_0000_0000,
    ensures
        r as int == sdiv(a as int, m as int, d as int),
{
    let au: u64 = (if a < 0 { -a } else { a }) as u64;
    proof {
        vstd::arithmetic::mul::lemma_mul_unary_negation(a as int, m as int);
    }
    assert((au as int) * (m as int) <= 0x4000_0000_0000_0000) by {
        if a < 0 {
            vstd::arithmetic::mul::lemma_mul_unary_negation(a as int, m as int);
        }
    };
    let p: u64 = au * (m as u64);
    let q: u64 = p / (d as u64);
    proof {
        vstd::arithmetic::div_mod::lemma_div_pos_is_pos(p as int, d as int);
        vstd::arithmetic::div_mod::lemma_div_nonincreasing(p as int, d as int);
    }
    if a < 0 {
        -(q as i64)
    } else {
        q as i64
    }
}

/// The scaled value `sdiv(a, m, d) * d` tracks `|a| * m` to within one
/// divisor: truncation loses less than `d`.
pub proof fn lemma_sdiv_scaled_bounds(a: int, m: int, d: int)
    requires
        0 <= m,
        1 <= d,
    ensures
        iabs(sdiv(a, m, d) * d) <= iabs(a) * m,
        iabs(sdiv(a, m, d) * d) >= iabs(a) * m - d,
        sdiv(a, m, d) * d == if a >= 0 { ((a * m) / d) * d } else { -((((-a) * m) / d) * d) },
{
    if a >= 0 {
        vstd::arithmetic::div_mod::lemma_fundamental_div_mod(a * m, d);
        vstd::arithmetic::div_mod::lemma_mod_bound(a * m, d);
        vstd::arithmetic::div_mod::lemma_div_pos_is_pos(a * m, d);
        vstd::arithmetic::mul::lemma_mul_is_commutative(d, (a * m) / d);
        assert(a * m >= 0) by (nonlinear_arith)
            requires
                a >= 0,
                m >= 0;
    } else {
        vstd::arithmetic::div_mod::lemma_fundamental_div_mod((-a) * m, d);
        vstd::arithmetic::div_mod::lemma_mod_bound((-a) * m, d);
        vstd::arithmetic::div_mod::lemma_div_pos_is_pos((-a) * m, d);
        vstd::arithmetic::mul::lemma_mul_is_commutative(d, ((-a) * m) / d);
        vstd::arithmetic::mul::lemma_mul_unary_negation(((-a) * m) / d, d);
        assert((-a) * m >= 0) by (nonlinear_arith)
            requires
                -a >= 0,
                m >= 0;
    }
}

/// Scaling a vector by the ratio `m / l` where `l` is at least its length
/// cannot push the squared length above `m^2 + 2m`; scaling a shorter
/// vector up can overshoot, but never above `3 m^2`.
#[verifier::rlimit(60)]
proof fn lemma_scale_len2_upper(x1: int, x2: int, f1: int, f2: int, m: int, l: int)
    requires
        1 <= l,
        0 <= m,
        iabs(f1 * l) <= iabs(x1) * m,
        iabs(f2 * l) <= iabs(x2) * m,
        x1 * x1 + x2 * x2 <= l * l + 2 * l,
    ensures
        l >= m ==> f1 * f1 + f2 * f2 <= m * m + 2 * m,
        f1 * f1 + f2 * f2 <= 3 * (m * m),
{
    assert((f1 * l) * (f1 * l) <= (x1 * m) * (x1 * m)) by (nonlinear_arith)
        requires
            iabs(f1 * l) <= iabs(x1) * m;
    assert((f2 * l) * (f2 * l) <= (x2 * m) * (x2 * m)) by (nonlinear_arith)
        requires
            iabs(f2 * l) <= iabs(x2) * m;
    assert((f1 * l) * (f1 * l) == (f1 * f1) * (l * l)) by (nonlinear_arith);
    assert((f2 * l) * (f2 * l) == (f2 * f2) * (l * l)) by (nonlinear_arith);
    assert((x1 * m) * (x1 * m) == (x1 * x1) * (m * m)) by (nonlinear_arith);
    assert((x2 * m) * (x2 * m) == (x2 * x2) * (m * m)) by (nonlinear_arith);
    assert((f1 * f1 + f2 * f2) * (l * l) == (f1 * f1) * (l * l) + (f2 * f2) * (l * l))
        by (nonlinear_arith);
    assert((m * m) * (x1 * x1 + x2 * x2) == (x1 * x1) * (m * m) + (x2 * x2) * (m * m))
        by (nonlinear_arith);
    assert((f1 * f1 + f2 * f2) * (l * l) <= (m * m) * (x1 * x1 + x2 * x2));
    assert((m * m) * (x1 * x1 + x2 * x2) <= (m * m) * (l * l + 2 * l)) by (nonlinear_arith)
        requires
            x1 * x1 + x2 * x2 <= l * l + 2 * l,
            0 <= m;
    assert(l >= m ==> f1 * f1 + f2 * f2 <= m * m + 2 * m) by (nonlinear_arith)
        requires
            (f1 * f1 + f2 * f2) * (l * l) <= (m * m) * (l * l + 2 * l),
            1 <= l,
            0 <= m;
    assert(f1 * f1 + f2 * f2 <= 3 * (m * m)) by (nonlinear_arith)
        requires
            (f1 * f1 + f2 * f2) * (l * l) <= (m * m) * (l * l + 2 * l),
            1 <= l,
            0 <= m;
}

/// Scaling a vector of length at least `l` by the ratio `m / l` cannot
/// drop the squared length below `m^2 - 4m`.
#[verifier::rlimit(60)]
proof fn lemma_scale_len2_lower(x1: int, x2: int, f1: int, f2: int, m: int, l: int)
    requires
        1 <= l,
        0 <= m,
        iabs(f1 * l) >= iabs(x1) * m - l,
        iabs(f2 * l) >= iabs(x2) * m - l,
        iabs(x1) <= l,
        iabs(x2) <= l,
        x1 * x1 + x2 * x2 >= l * l,
    ensures
        f1 * f1 + f2 * f2 >= m * m - 4 * m,
{
    assert((f1 * l) * (f1 * l) >= (x1 * m) * (x1 * m) - 2 * l * (iabs(x1) * m)) by (nonlinear_arith)
        requires
            iabs(f1 * l) >= iabs(x1) * m - l,
            1 <= l,
            0 <= m;
    assert((f2 * l) * (f2 * l) >= (x2 * m) * (x2 * m) - 2 * l * (iabs(x2) * m)) by (nonlinear_arith)
        requires
            iabs(f2 * l) >= iabs(x2) * m - l,
            1 <= l,
            0 <= m;
    assert((f1 * l) * (f1 * l) == (f1 * f1) * (l * l)) by (nonlinear_arith);
    assert((f2 * l) * (f2 * l) == (f2 * f2) * (l * l)) by (nonlinear_arith);
    assert((x1 * m) * (x1 * m) == (x1 * x1) * (m * m)) by (nonlinear_arith);
    assert((x2 * m) * (x2 * m) == (x2 * x2) * (m * m)) by (nonlinear_arith);
    assert((f1 * f1 + f2 * f2) * (l * l) == (f1 * f1) * (l * l) + (f2 * f2) * (l * l))
        by (nonlinear_arith);
    assert((x1 * x1) * (m * m) + (x2 * x2) * (m * m) >= (m * m) * (l * l)) by (nonlinear_arith)
        requires
            x1 * x1 + x2 * x2 >= l * l,
            0 <= m;
    assert(2 * l * (iabs(x1) * m) <= 2 * ((l * l) * m)) by (nonlinear_arith)
        requires
            iabs(x1) <= l,
            0 <= m,
            1 <= l;
    assert(2 * l * (iabs(x2) * m) <= 2 * ((l * l) * m)) by (nonlinear_arith)
        requires
            iabs(x2) <= l,
            0 <= m,
            1 <= l;
    assert((f1 * f1 + f2 * f2) * (l * l) >= (m * m) * (l * l) - 4 * (l * l) * m) by (nonlinear_arith)
        requires
            (f1 * f1) * (l * l) + (f2 * f2) * (l * l) >= (x1 * x1) * (m * m) + (x2 * x2) * (m * m)
                - 2 * ((l * l) * m) - 2 * ((l * l) * m),
            (x1 * x1) * (m * m) + (x2 * x2) * (m * m) >= (m * m) * (l * l),
            (f1 * f1 + f2 * f2) * (l * l) == (f1 * f1) * (l * l) + (f2 * f2) * (l * l);
    assert(f1 * f1 + f2 * f2 >= m * m - 4 * m) by (nonlinear_arith)
        requires
            (f1 * f1 + f2 * f2) * (l * l) >= (m * m) * (l * l) - 4 * (l * l) * m,
            1 <= l,
            0 <= m;
}

/// Law: the clamped vector's length really lands in the clamp window, up
/// to truncation: its squared length never exceeds `hi^2 + 2hi` (so its
/// integer length is at most `hi`), and, for a non-degenerate input,
/// never drops below `lo^2 - 4lo` (so its integer length is at least
/// `lo - 3`).
pub proof fn lemma_clamp_len_reach(v: Vec2, lo: int, hi: int, fb: Vec2)
    requires
        v.in_range(LEN_ARG_LIMIT as int),
        5 <= lo,
        2 * lo <= hi <= 0x2000_0000,
        fb.in_range(2 * FX_ONE as int),
        fb.len2() <= 1300000,
    ensures
        vclamp_len(v, lo, hi, fb).len2() <= hi * hi + 2 * hi,
        v.len2() > 0 ==> vclamp_len(v, lo, hi, fb).len2() >= lo * lo - 4 * lo,
{
    let r = vclamp_len(v, lo, hi, fb);
    assert(v.len2() >= 0 && fb.len2() >= 0) by (nonlinear_arith);
    lemma_isqrt_exists(v.len2());
    let l = isqrt_spec(v.len2());
    if v.len2() == 0 {
        lemma_sdiv_scaled_bounds(fb.x as int, lo, FX_ONE as int);
        lemma_sdiv_scaled_bounds(fb.y as int, lo, FX_ONE as int);
        lemma_sdiv_in_bound(fb.x as int, lo, FX_ONE as int, 2 * FX_ONE as int);
        lemma_sdiv_in_bound(fb.y as int, lo, FX_ONE as int, 2 * FX_ONE as int);
        assert(2 * FX_ONE as int * lo == 2048 * lo) by (nonlinear_arith)
            requires
                2 * FX_ONE as int == 2048;
        assert(r.x == sdiv(fb.x as int, lo, FX_ONE as int) && r.y == sdiv(fb.y as int, lo, FX_ONE as int));
        let rx = r.x as int;
        let ry = r.y as int;
        let gx = fb.x as int;
        let gy = fb.y as int;
        assert((rx * 1024) * (rx * 1024) <= (gx * lo) * (gx * lo)) by (nonlinear_arith)
            requires
                iabs(rx * 1024) <= iabs(gx) * lo;
        assert((ry * 1024) * (ry * 1024) <= (gy * lo) * (gy * lo)) by (nonlinear_arith)
            requires
                iabs(ry * 1024) <= iabs(gy) * lo;
        assert((rx * rx + ry * ry) * 1048576 <= (lo * lo) * (gx * gx + gy * gy)) by (nonlinear_arith)
            requires
                (rx * 1024) * (rx * 1024) <= (gx * lo) * (gx * lo),
                (ry * 1024) * (ry * 1024) <= (gy * lo) * (gy * lo);
        assert((lo * lo) * (gx * gx + gy * gy) <= (lo * lo) * 1300000) by (nonlinear_arith)
            requires
                gx * gx + gy * gy <= 1300000,
                0 <= lo;
        assert(rx * rx + ry * ry <= hi * hi + 2 * hi) by (nonlinear_arith)
            requires
                (rx * rx + ry * ry) * 1048576 <= (lo * lo) * 1300000,
                5 <= lo,
                2 * lo <= hi;
    } else {
        assert(l >= 1) by (nonlinear_arith)
            requires
                is_isqrt(v.len2(), l),
                v.len2() >= 1;
        lemma_len_ge_coord(v, l);
        assert(v.len2() <= l * l + 2 * l && v.len2() >= l * l) by (nonlinear_arith)
            requires
                is_isqrt(v.len2(), l);
        if l < lo {
            lemma_sdiv_scaled_bounds(v.x as int, lo, l);
            lemma_sdiv_scaled_bounds(v.y as int, lo, l);
            lemma_sdiv_in_bound(v.x as int, lo, l, LEN_ARG_LIMIT as int);
            lemma_sdiv_in_bound(v.y as int, lo, l, LEN_ARG_LIMIT as int);
            vstd::arithmetic::div_mod::lemma_div_nonincreasing(LEN_ARG_LIMIT as int * lo, l);
            assert(r.x == sdiv(v.x as int, lo, l) && r.y == sdiv(v.y as int, lo, l));
            lemma_scale_len2_upper(v.x as int, v.y as int, r.x as int, r.y as int, lo, l);
            lemma_scale_len2_lower(v.x as int, v.y as int, r.x as int, r.y as int, lo, l);
            assert(3 * (lo * lo) <= hi * hi) by (nonlinear_arith)
                requires
                    5 <= lo,
                    2 * lo <= hi;
        } else if l > hi {
            lemma_sdiv_scaled_bounds(v.x as int, hi, l);
            lemma_sdiv_scaled_bounds(v.y as int, hi, l);
            lemma_sdiv_in_bound(v.x as int, hi, l, LEN_ARG_LIMIT as int);
            lemma_sdiv_in_bound(v.y as int, hi, l, LEN_ARG_LIMIT as int);
            vstd::arithmetic::div_mod::lemma_div_nonincreasing(LEN_ARG_LIMIT as int * hi, l);
            assert(r.x == sdiv(v.x as int, hi, l) && r.y == sdiv(v.y as int, hi, l));
            lemma_scale_len2_upper(v.x as int, v.y as int, r.x as int, r.y as int, hi, l);
            lemma_scale_len2_lower(v.x as int, v.y as int, r.x as int, r.y as int, hi, l);
            assert(hi * hi - 4 * hi >= lo * lo - 4 * lo) by (nonlinear_arith)
                requires
                    5 <= lo,
                    2 * lo <= hi;
        } else {
            assert(r == v);
            assert(l * l >= lo * lo && l * l + 2 * l <= hi * hi + 2 * hi) by (nonlinear_arith)
                requires
                    lo <= l <= hi,
                    0 <= lo;
        }
    }
}

/// The integer length of a vector bounds each of its coordinates.
pub proof fn lemma_len_ge_coord(v: Vec2, r: int)
    requires
        is_isqrt(v.len2(), r),
    ensures
        -r <= v.x <= r,
        -r <= v.y <= r,
{
    assert(v.x * v.x <= v.len2() && v.y * v.y <= v.len2()) by (nonlinear_arith);
    let xa = if v.x >= 0 { v.x as int } else { -(v.x as int) };
    let ya = if v.y >= 0 { v.y as int } else { -(v.y as int) };
    assert(xa * xa == v.x * v.x && ya * ya == v.y * v.y) by (nonlinear_arith)
        requires
            xa == (if v.x >= 0 { v.x as int } else { -(v.x as int) }),
            ya == (if v.y >= 0 { v.y as int } else { -(v.y as int) });
    lemma_isqrt_ge_root(v.len2(), r, xa);
    lemma_isqrt_ge_root(v.len2(), r, ya);
}

/// Integer length: the integer square root of the squared length.
pub fn length(v: Vec2) -> (r: i64)
    requires
        v.in_range(LEN_ARG_LIMIT as int),
    ensures
        is_isqrt(v.len2(), r as int),
        r as int == isqrt_spec(v.len2()),
        0 <= r < 0x1_0000_0000,
        -r <= v.x <= r,
        -r <= v.y <= r,
{
    let xa: u64 = (if v.x < 0 { -v.x } else { v.x }) as u64;
    let ya: u64 = (if v.y < 0 { -v.y } else { v.y }) as u64;
    assert((xa as int) * (xa as int) == v.x * v.x && (ya as int) * (ya as int) == v.y * v.y)
        by (nonlinear_arith)
        requires
            xa as int == (if v.x >= 0 { v.x as int } else { -(v.x as int) }),
            ya as int == (if v.y >= 0 { v.y as int } else { -(v.y as int) });
    assert((xa as int) * (xa as int) + (ya as int) * (ya as int) <= u64::MAX as int)
        by (nonlinear_arith)
        requires
            xa <= 0x9000_0000u64,
            ya <= 0x9000_0000u64;
    let n: u64 = xa * xa + ya * ya;
    let r: u64 = isqrt64(n);
    proof {
        lemma_len_ge_coord(v, r as int);
    }
    r as i64
}

/// A loose magnitude cap under which sums of two coordinates cannot
/// overflow `i64`.
pub const BIG: i64 = 0x1000_0000_0000_0000;

pub open spec fn vadd(a: Vec2, b: Vec2) -> Vec2 {
    Vec2 { x: (a.x + b.x) as i64, y: (a.y + b.y) as i64 }
}

pub open spec fn vsub(a: Vec2, b: Vec2) -> Vec2 {
    Vec2 { x: (a.x - b.x) as i64, y: (a.y - b.y) as i64 }
}

pub open spec fn vneg(a: Vec2) -> Vec2 {
    Vec2 { x: (-a.x) as i64, y: (-a.y) as i64 }
}

/// Counter-clockwise perpendicular, `(x, y) -> (-y, x)`.
pub open spec fn vperp(a: Vec2) -> Vec2 {
    Vec2 { x: (-a.y) as i64, y: (a.x) as i64 }
}

/// Halve both coordinates, truncating toward zero.
pub open spec fn vhalf(a: Vec2) -> Vec2 {
    Vec2 { x: sdiv(a.x as int, 1, 2) as i64, y: sdiv(a.y as int, 1, 2) as i64 }
}

/// Scale a vector by the fixed-point factor `k / FX_ONE`.
pub open spec fn vscale_fx(a: Vec2, k: int) -> Vec2 {
    Vec2 {
        x: sdiv(a.x as int, k, FX_ONE as int) as i64,
        y: sdiv(a.y as int, k, FX_ONE as int) as i64,
    }
}

/// Midpoint step of exponential smoothing: move `a` halfway toward `b`.
pub open spec fn vlerp_half(a: Vec2, b: Vec2) -> Vec2 {
    Vec2 {
        x: (a.x + sdiv(b.x - a.x, 1, 2)) as i64,
        y: (a.y + sdiv(b.y - a.y, 1, 2)) as i64,
    }
}

/// Normalize to a fixed-point unit vector, or return `fb` for the zero
/// vector, which has no direction.
pub open spec fn vnormalize_or(v: Vec2, fb: Vec2) -> Vec2 {
    if v.len2() == 0 {
        fb
    } else {
        let l = isqrt_spec(v.len2());
        Vec2 { x: sdiv(v.x as int, FX_ONE as int, l) as i64, y: sdiv(v.y as int, FX_ONE as int, l) as i64 }
    }
}

/// Clamp the length of `v` into `[lo, hi]`, comparing by the truncated
/// integer length; a zero vector is replaced by the unit fallback `fb`
/// scaled to the lower bound.
pub open spec fn vclamp_len(v: Vec2, lo: int, hi: int, fb: Vec2) -> Vec2 {
    if v.len2() == 0 {
        Vec2 { x: sdiv(fb.x as int, lo, FX_ONE as int) as i64, y: sdiv(fb.y as int, lo, FX_ONE as int) as i64 }
    } else {
        let l = isqrt_spec(v.len2());
        if l < lo {
            Vec2 { x: sdiv(v.x as int, lo, l) as i64, y: sdiv(v.y as int, lo, l) as i64 }
        } else if l > hi {
            Vec2 { x: sdiv(v.x as int, hi, l) as i64, y: sdiv(v.y as int, hi, l) as i64 }
        } else {
            v
        }
    }
}

/// Law: one display-smoothing step halves the remaining gap to the
/// tracked value, rounding up, and never overshoots it.  Iterating from a
/// gap `g` therefore reaches a gap of at most one fixed-point step within
/// `log2(g)` steps, and a gap of at most one can never grow back.
pub proof fn lemma_smoothing_converges(a: Vec2, b: Vec2)
    ensures
        2 * iabs(b.x - vlerp_half(a, b).x) <= iabs(b.x - a.x) + 1,
        2 * iabs(b.y - vlerp_half(a, b).y) <= iabs(b.y - a.y) + 1,
        iabs(b.x - vlerp_half(a, b).x) <= iabs(b.x - a.x),
        iabs(b.y - vlerp_half(a, b).y) <= iabs(b.y - a.y),
{
    let gx = b.x - a.x;
    let gy = b.y - a.y;
    if gx >= 0 {
        vstd::arithmetic::div_mod::lemma_fundamental_div_mod(gx, 2);
        vstd::arithmetic::div_mod::lemma_mod_bound(gx, 2);
        vstd::arithmetic::div_mod::lemma_div_pos_is_pos(gx, 2);
    } else {
        vstd::arithmetic::div_mod::lemma_fundamental_div_mod(-gx, 2);
        vstd::arithmetic::div_mod::lemma_mod_bound(-gx, 2);
        vstd::arithmetic::div_mod::lemma_div_pos_is_pos(-gx, 2);
    }
    if gy >= 0 {
        vstd::arithmetic::div_mod::lemma_fundamental_div_mod(gy, 2);
        vstd::arithmetic::div_mod::lemma_mod_bound(gy, 2);
        vstd::arithmetic::div_mod::lemma_div_pos_is_pos(gy, 2);
    } else {
        vstd::arithmetic::div_mod::lemma_fundamental_div_mod(-gy, 2);
        vstd::arithmetic::div_mod::lemma_mod_bound(-gy, 2);
        vstd::arithmetic::div_mod::lemma_div_pos_is_pos(-gy, 2);
    }
}

/// Rotate `v` by the rotation that carries the unit vector `(0, FX_ONE)`
/// onto the unit vector `u`.
pub open spec fn vrotate(u: Vec2, v: Vec2) -> Vec2 {
    Vec2 {
        x: sdiv(u.y * v.x + u.x * v.y, 1, FX_ONE as int) as i64,
        y: sdiv(u.y * v.y - u.x * v.x, 1, FX_ONE as int) as i64,
    }
}

impl Vec2 {
    pub fn add(self, o: Vec2) -> (r: Vec2)
        requires
            self.in_range(BIG as int),
            o.in_range(BIG as int),
        ensures
            r == vadd(self, o),
            r.x == self.x + o.x,
            r.y == self.y + o.y,
    {
        Vec2 { x: self.x + o.x, y: self.y + o.y }
    }

    pub fn sub(self, o: Vec2) -> (r: Vec2)
        requires
            self.in_range(BIG as int),
            o.in_range(BIG as int),
        ensures
            r == vsub(self, o),
            r.x == self.x - o.x,
            r.y == self.y - o.y,
    {
        Vec2 { x: self.x - o.x, y: self.y - o.y }
    }

    pub fn neg(self) -> (r: Vec2)
        requires
            self.in_range(BIG as int),
        ensures
            r == vneg(self),
    {
        Vec2 { x: -self.x, y: -self.y }
    }

    pub fn perp(self) -> (r: Vec2)
        requires
            self.in_range(BIG as int),
        ensures
            r == vperp(self),
    {
        Vec2 { x: -self.y, y: self.x }
    }

    pub fn half(self) -> (r: Vec2)
        requires
            self.in_range(BIG as int),
        ensures
            r == vhalf(self),
    {
        Vec2 { x: scale_div(self.x, 1, 2), y: scale_div(self.y, 1, 2) }
    }

    pub fn scale_fx(self, k: i64) -> (r: Vec2)
        requires
            0 <= k,
            -0x4000_0000_0000_0000 <= self.x * k <= 0x4000_0000_0000_0000,
            -0x4000_0000_0000_0000 <= self.y * k <= 0x4000_0000_0000_0000,
            self.in_range(0x4000_0000_0000_0000),
        ensures
            r == vscale_fx(self, k as int),
    {
        Vec2 { x: scale_div(self.x, k, FX_ONE), y: scale_div(self.y, k, FX_ONE) }
    }

    pub fn lerp_half(self, o: Vec2) -> (r: Vec2)
        requires
            self.in_range(BIG as int),
            o.in_range(BIG as int),
        ensures
            r == vlerp_half(self, o),
    {
        let dx = scale_div(o.x - self.x, 1, 2);
        let dy = scale_div(o.y - self.y, 1, 2);
        proof {
            lemma_sdiv_in_bound(o.x - self.x, 1, 2, 2 * BIG);
            lemma_sdiv_in_bound(o.y - self.y, 1, 2, 2 * BIG);
        }
        Vec2 { x: self.x + dx, y: self.y + dy }
    }

    pub fn normalize_or(self, fb: Vec2) -> (r: Vec2)
        requires
            self.in_range(LEN_ARG_LIMIT as int),
        ensures
            r == vnormalize_or(self, fb),
            self.len2() > 0 ==> r.in_range(FX_ONE as int),
    {
        let l = length(self);
        if l == 0 {
            proof {
                assert(self.len2() >= 0 && (l == 0 ==> self.len2() < 1)) by (nonlinear_arith)
                    requires is_isqrt(self.len2(), l as int);
            }
            fb
        } else {
            proof {
                assert(self.len2() > 0) by (nonlinear_arith)
                    requires is_isqrt(self.len2(), l as int), l >= 1;
                lemma_sdiv_in_bound(self.x as int, FX_ONE as int, l as int, l as int);
                lemma_sdiv_in_bound(self.y as int, FX_ONE as int, l as int, l as int);
                vstd::arithmetic::div_mod::lemma_div_multiples_vanish(FX_ONE as int, l as int);
                vstd::arithmetic::mul::lemma_mul_is_commutative(l as int, FX_ONE as int);
            }
            Vec2 { x: scale_div(self.x, FX_ONE, l), y: scale_div(self.y, FX_ONE, l) }
        }
    }

    pub fn clamp_len(self, lo: i64, hi: i64, fb: Vec2) -> (r: Vec2)
        requires
            self.in_range(LEN_ARG_LIMIT as int),
            0 < lo <= hi <= 0x2000_0000,
            fb.in_range(2 * FX_ONE as int),
        ensures
            r == vclamp_len(self, lo as int, hi as int, fb),
            r.in_range(2 * hi as int),
    {
        proof {
            lemma_prod_bound(self.x as int, lo as int, LEN_ARG_LIMIT as int, 0x2000_0000);
            lemma_prod_bound(self.y as int, lo as int, LEN_ARG_LIMIT as int, 0x2000_0000);
            lemma_prod_bound(self.x as int, hi as int, LEN_ARG_LIMIT as int, 0x2000_0000);
            lemma_prod_bound(self.y as int, hi as int, LEN_ARG_LIMIT as int, 0x2000_0000);
            lemma_prod_bound(fb.x as int, lo as int, 2 * FX_ONE as int, 0x2000_0000);
            lemma_prod_bound(fb.y as int, lo as int, 2 * FX_ONE as int, 0x2000_0000);
        }
        let l = length(self);
        if l == 0 {
            proof {
                assert(self.len2() >= 0 && self.len2() < 1) by (nonlinear_arith)
                    requires is_isqrt(self.len2(), 0);
                lemma_sdiv_in_bound(fb.x as int, lo as int, FX_ONE as int, 2 * FX_ONE as int);
                lemma_sdiv_in_bound(fb.y as int, lo as int, FX_ONE as int, 2 * FX_ONE as int);
                vstd::arithmetic::div_mod::lemma_div_multiples_vanish(2 * lo as int, FX_ONE as int);
                vstd::arithmetic::mul::lemma_mul_is_commutative(FX_ONE as int, lo as int);
                assert(2 * FX_ONE as int * lo as int == FX_ONE as int * (2 * lo as int)) by (nonlinear_arith);
            }
            Vec2 { x: scale_div(fb.x, lo, FX_ONE), y: scale_div(fb.y, lo, FX_ONE) }
        } else {
            proof {
                assert(self.len2() > 0) by (nonlinear_arith)
                    requires is_isqrt(self.len2(), l as int), l >= 1;
            }
            if l < lo {
                proof {
                    lemma_sdiv_in_bound(self.x as int, lo as int, l as int, l as int);
                    lemma_sdiv_in_bound(self.y as int, lo as int, l as int, l as int);
                    vstd::arithmetic::div_mod::lemma_div_multiples_vanish(lo as int, l as int);
                    vstd::arithmetic::mul::lemma_mul_is_commutative(l as int, lo as int);
                }
                Vec2 { x: scale_div(self.x, lo, l), y: scale_div(self.y, lo, l) }
            } else if l > hi {
                proof {
                    lemma_sdiv_in_bound(self.x as int, hi as int, l as int, l as int);
                    lemma_sdiv_in_bound(self.y as int, hi as int, l as int, l as int);
                    vstd::arithmetic::div_mod::lemma_div_multiples_vanish(hi as int, l as int);
                    vstd::arithmetic::mul::lemma_mul_is_commutative(l as int, hi as int);
                }
                Vec2 { x: scale_div(self.x, hi, l), y: scale_div(self.y, hi, l) }
            } else {
                self
            }
        }
    }
}

/// Clamp the length of `v` to at most `hi`, comparing by the truncated
/// integer length; shorter vectors, including the zero vector, pass through.
pub open spec fn vclamp_len_max(v: Vec2, hi: int) -> Vec2 {
    let l = isqrt_spec(v.len2());
    if l > hi {
        Vec2 { x: sdiv(v.x as int, hi, l) as i64, y: sdiv(v.y as int, hi, l) as i64 }
    } else {
        v
    }
}

impl Vec2 {
    pub fn clamp_len_max(self, hi: i64) -> (r: Vec2)
        requires
            self.in_range(LEN_ARG_LIMIT as int),
            0 <= hi <= 0x2000_0000,
        ensures
            r == vclamp_len_max(self, hi as int),
            r.in_range(hi as int),
    {
        proof {
            lemma_prod_bound(self.x as int, hi as int, LEN_ARG_LIMIT as int, 0x2000_0000);
            lemma_prod_bound(self.y as int, hi as int, LEN_ARG_LIMIT as int, 0x2000_0000);
        }
        let l = length(self);
        if l > hi {
            proof {
                lemma_sdiv_in_bound(self.x as int, hi as int, l as int, l as int);
                lemma_sdiv_in_bound(self.y as int, hi as int, l as int, l as int);
                vstd::arithmetic::div_mod::lemma_div_multiples_vanish(hi as int, l as int);
                vstd::arithmetic::mul::lemma_mul_is_commutative(l as int, hi as int);
            }
            Vec2 { x: scale_div(self.x, hi, l), y: scale_div(self.y, hi, l) }
        } else {
            self
        }
    }

    /// Exact squared length, wide enough that it cannot overflow.
    pub fn len2_wide(self) -> (r: i128)
        requires
            self.in_range(BIG as int),
        ensures
            r as int == self.len2(),
            r >= 0,
    {
        proof {
            lemma_i64_prod_fits(self.x as int, self.x as int);
            lemma_i64_prod_fits(self.y as int, self.y as int);
            assert(self.x * self.x >= 0 && self.y * self.y >= 0) by (nonlinear_arith);
        }
        (self.x as i128) * (self.x as i128) + (self.y as i128) * (self.y as i128)
    }
}

/// Coordinate bounds give a squared-length bound.
pub proof fn lemma_len2_bound(v: Vec2, b: int)
    by (nonlinear_arith)
    requires
        v.in_range(b),
        0 <= b,
    ensures
        0 <= v.len2() <= 2 * b * b,
{
}

/// A single large coordinate gives a squared-length lower bound.
pub proof fn lemma_len2_lower(v: Vec2, b: int)
    by (nonlinear_arith)
    requires
        0 <= b,
        v.x >= b || -v.x >= b || v.y >= b || -v.y >= b,
    ensures
        v.len2() >= b * b,
{
}

/// Rotating by a fixed-point unit vector at most doubles a coordinate
/// bound.
pub proof fn lemma_vrotate_in_range(u: Vec2, v: Vec2, vb: int)
    requires
        u.in_range(FX_ONE as int),
        v.in_range(vb),
        0 <= vb,
    ensures
        vrotate(u, v).in_range(2 * vb),
{
    lemma_prod_bound(u.y as int, v.x as int, FX_ONE as int, vb);
    lemma_prod_bound(u.x as int, v.y as int, FX_ONE as int, vb);
    lemma_prod_bound(u.y as int, v.y as int, FX_ONE as int, vb);
    lemma_prod_bound(u.x as int, v.x as int, FX_ONE as int, vb);
    assert(FX_ONE as int * vb + FX_ONE as int * vb == FX_ONE as int * (2 * vb)) by (nonlinear_arith);
    lemma_sdiv_in_bound(u.y * v.x + u.x * v.y, 1, FX_ONE as int, FX_ONE as int * (2 * vb));
    lemma_sdiv_in_bound(u.y * v.y - u.x * v.x, 1, FX_ONE as int, FX_ONE as int * (2 * vb));
    vstd::arithmetic::div_mod::lemma_div_multiples_vanish(2 * vb, FX_ONE as int);
    vstd::arithmetic::mul::lemma_mul_is_commutative(FX_ONE as int * (2 * vb), 1);
    assert((FX_ONE as int * (2 * vb)) * 1 == FX_ONE as int * (2 * vb)) by (nonlinear_arith);
}

/// Squaring respects a lower bound that survives subtracting the
/// truncation loss `c`.
pub proof fn lemma_sq_lower(a: int, t: int, c: int)
    by (nonlinear_arith)
    requires
        iabs(a) >= t - c,
        0 <= t,
        0 <= c,
    ensures
        a * a >= t * t - 2 * c * t,
{
}

/// Lagrange's identity for pairs: a rotation-like combination preserves
/// the product of squared lengths exactly.
proof fn lemma_lagrange(p: int, q: int, r: int, s: int)
    ensures
        (q * r + p * s) * (q * r + p * s) + (q * s - p * r) * (q * s - p * r) == (p * p + q * q) * (
        r * r + s * s),
{
    assert((q * r + p * s) * (q * r + p * s) == (q * r) * (q * r) + 2 * ((q * r) * (p * s)) + (p
        * s) * (p * s)) by (nonlinear_arith);
    assert((q * s - p * r) * (q * s - p * r) == (q * s) * (q * s) - 2 * ((q * s) * (p * r)) + (p
        * r) * (p * r)) by (nonlinear_arith);
    assert((q * r) * (p * s) == (q * s) * (p * r)) by (nonlinear_arith);
    assert((q * r) * (q * r) == (q * q) * (r * r)) by (nonlinear_arith);
    assert((p * s) * (p * s) == (p * p) * (s * s)) by (nonlinear_arith);
    assert((q * s) * (q * s) == (q * q) * (s * s)) by (nonlinear_arith);
    assert((p * r) * (p * r) == (p * p) * (r * r)) by (nonlinear_arith);
    assert((p * p + q * q) * (r * r + s * s) == (p * p) * (r * r) + (p * p) * (s * s) + (q * q) * (
    r * r) + (q * q) * (s * s)) by (nonlinear_arith);
}

/// Rotating by `u` scales squared lengths by `u.len2() / FX_ONE^2`
/// exactly, up to the per-coordinate truncation loss.
pub proof fn lemma_vrotate_len2(u: Vec2, v: Vec2)
    requires
        u.in_range(FX_ONE as int),
        v.in_range(FX_ONE as int),
    ensures
        vrotate(u, v).len2() * 1048576 <= u.len2() * v.len2(),
        vrotate(u, v).len2() * 1048576 >= u.len2() * v.len2() - 8589934592,
{
    let a = u.y * v.x + u.x * v.y;
    let b = u.y * v.y - u.x * v.x;
    let fx = FX_ONE as int;
    lemma_lagrange(u.x as int, u.y as int, v.x as int, v.y as int);
    assert(a * a + b * b == u.len2() * v.len2());
    assert(iabs(a) <= 2097152 && iabs(b) <= 2097152) by (nonlinear_arith)
        requires
            a == u.y * v.x + u.x * v.y,
            b == u.y * v.y - u.x * v.x,
            u.in_range(1024),
            v.in_range(1024);
    lemma_sdiv_in_bound(a, 1, fx, 2097152);
    lemma_sdiv_in_bound(b, 1, fx, 2097152);
    lemma_sdiv_scaled_bounds(a, 1, fx);
    lemma_sdiv_scaled_bounds(b, 1, fx);
    let r = vrotate(u, v);
    let rx = r.x as int;
    let ry = r.y as int;
    assert(rx == sdiv(a, 1, fx) && ry == sdiv(b, 1, fx));
    assert((rx * fx) * (rx * fx) <= a * a) by (nonlinear_arith)
        requires
            iabs(rx * fx) <= iabs(a) * 1;
    assert((ry * fx) * (ry * fx) <= b * b) by (nonlinear_arith)
        requires
            iabs(ry * fx) <= iabs(b) * 1;
    lemma_sq_lower(rx * fx, iabs(a), fx);
    lemma_sq_lower(ry * fx, iabs(b), fx);
    assert((rx * fx) * (rx * fx) >= a * a - 2 * fx * iabs(a)) by (nonlinear_arith)
        requires
            (rx * fx) * (rx * fx) >= iabs(a) * iabs(a) - 2 * fx * iabs(a);
    assert((ry * fx) * (ry * fx) >= b * b - 2 * fx * iabs(b)) by (nonlinear_arith)
        requires
            (ry * fx) * (ry * fx) >= iabs(b) * iabs(b) - 2 * fx * iabs(b);
    assert((rx * fx) * (rx * fx) + (ry * fx) * (ry * fx) == (rx * rx + ry * ry) * 1048576)
        by (nonlinear_arith)
        requires
            fx == 1024;
    assert(2 * fx * iabs(a) + 2 * fx * iabs(b) <= 8589934592) by (nonlinear_arith)
        requires
            fx == 1024,
            iabs(a) <= 2097152,
            iabs(b) <= 2097152;
}

/// A vector of near-unit length or longer normalizes to a vector whose
/// squared length is the unit square, up to truncation slack.
pub proof fn lemma_normalize_len2(v: Vec2, fb: Vec2)
    requires
        v.in_range(LEN_ARG_LIMIT as int),
        v.len2() >= 1000000,
    ensures
        vnormalize_or(v, fb).in_range(FX_ONE as int),
        1044480 <= vnormalize_or(v, fb).len2() <= 1050674,
{
    lemma_isqrt_exists(v.len2());
    let l = isqrt_spec(v.len2());
    assert(l >= 1000) by (nonlinear_arith)
        requires
            is_isqrt(v.len2(), l),
            v.len2() >= 1000000;
    lemma_len_ge_coord(v, l);
    assert(v.len2() <= l * l + 2 * l && v.len2() >= l * l) by (nonlinear_arith)
        requires
            is_isqrt(v.len2(), l);
    let fx = FX_ONE as int;
    lemma_sdiv_in_bound(v.x as int, fx, l, l);
    lemma_sdiv_in_bound(v.y as int, fx, l, l);
    vstd::arithmetic::div_mod::lemma_div_multiples_vanish(fx, l);
    vstd::arithmetic::mul::lemma_mul_is_commutative(l, fx);
    lemma_sdiv_scaled_bounds(v.x as int, fx, l);
    lemma_sdiv_scaled_bounds(v.y as int, fx, l);
    let u = vnormalize_or(v, fb);
    let ux = u.x as int;
    let uy = u.y as int;
    assert(ux == sdiv(v.x as int, fx, l) && uy == sdiv(v.y as int, fx, l));
    lemma_scale_len2_lower(v.x as int, v.y as int, ux, uy, fx, l);
    assert(1024 * 1024 - 4 * 1024 == 1044480);
    assert(u.len2() >= fx * fx - 4 * fx && fx * fx - 4 * fx == 1044480) by (nonlinear_arith)
        requires
            ux * ux + uy * uy >= fx * fx - 4 * fx,
            fx == 1024,
            u.len2() == ux * ux + uy * uy;
    assert((ux * l) * (ux * l) <= (v.x * fx) * (v.x * fx)) by (nonlinear_arith)
        requires
            iabs(ux * l) <= iabs(v.x as int) * fx;
    assert((uy * l) * (uy * l) <= (v.y * fx) * (v.y * fx)) by (nonlinear_arith)
        requires
            iabs(uy * l) <= iabs(v.y as int) * fx;
    assert((ux * l) * (ux * l) == (ux * ux) * (l * l)) by (nonlinear_arith);
    assert((uy * l) * (uy * l) == (uy * uy) * (l * l)) by (nonlinear_arith);
    assert((v.x * fx) * (v.x * fx) == (v.x * v.x) * (fx * fx)) by (nonlinear_arith);
    assert((v.y * fx) * (v.y * fx) == (v.y * v.y) * (fx * fx)) by (nonlinear_arith);
    assert((ux * ux + uy * uy) * (l * l) == (ux * ux) * (l * l) + (uy * uy) * (l * l))
        by (nonlinear_arith);
    assert((fx * fx) * (v.len2()) == (v.x * v.x) * (fx * fx) + (v.y * v.y) * (fx * fx))
        by (nonlinear_arith);
    assert((ux * ux + uy * uy) * (l * l) <= (fx * fx) * (v.len2()));
    assert(u.len2() <= 1050674) by (nonlinear_arith)
        requires
            u.len2() * (l * l) <= (fx * fx) * (v.len2()),
            v.len2() <= l * l + 2 * l,
            fx == 1024,
            l >= 1000,
            u.len2() >= 0;
}

/// A half-way interpolation step stays inside any coordinate range that
/// contains both of its arguments.
pub proof fn lemma_lerp_half_in_range(a: Vec2, b: Vec2, bound: int)
    requires
        a.in_range(bound),
        b.in_range(bound),
    ensures
        vlerp_half(a, b).in_range(bound),
{
    let gx = b.x - a.x;
    let gy = b.y - a.y;
    if gx >= 0 {
        vstd::arithmetic::div_mod::lemma_div_pos_is_pos(gx, 2);
        vstd::arithmetic::div_mod::lemma_div_nonincreasing(gx, 2);
    } else {
        vstd::arithmetic::div_mod::lemma_div_pos_is_pos(-gx, 2);
        vstd::arithmetic::div_mod::lemma_div_nonincreasing(-gx, 2);
    }
    if gy >= 0 {
        vstd::arithmetic::div_mod::lemma_div_pos_is_pos(gy, 2);
        vstd::arithmetic::div_mod::lemma_div_nonincreasing(gy, 2);
    } else {
        vstd::arithmetic::div_mod::lemma_div_pos_is_pos(-gy, 2);
        vstd::arithmetic::div_mod::lemma_div_nonincreasing(-gy, 2);
    }
}

/// Rotate `v` by the rotation carrying `(0, FX_ONE)` onto the unit vector
/// `u`; the matrix entries are read off `u` directly, so no trigonometry
/// is needed.
pub fn rotate(u: Vec2, v: Vec2) -> (r: Vec2)
    requires
        u.in_range(FX_ONE as int),
        v.in_range(0x8000_0000),
    ensures
        r == vrotate(u, v),
{
    proof {
        assert(-0x4000_0000_0000i64 <= u.y * v.x <= 0x4000_0000_0000i64
            && -0x4000_0000_0000i64 <= u.x * v.y <= 0x4000_0000_0000i64
            && -0x4000_0000_0000i64 <= u.y * v.y <= 0x4000_0000_0000i64
            && -0x4000_0000_0000i64 <= u.x * v.x <= 0x4000_0000_0000i64) by (nonlinear_arith)
            requires
                u.in_range(FX_ONE as int),
                v.in_range(0x8000_0000);
    }
    let ax = u.y * v.x + u.x * v.y;
    let ay = u.y * v.y - u.x * v.x;
    Vec2 { x: scale_div(ax, 1, FX_ONE), y: scale_div(ay, 1, FX_ONE) }
}

/// Exact dot product, wide enough that it cannot overflow.
pub fn dot_wide(a: Vec2, b: Vec2) -> (r: i128)
    requires
        a.in_range(BIG as int),
        b.in_range(BIG as int),
    ensures
        r as int == dot(a, b),
{
    proof {
        lemma_i64_prod_fits(a.x as int, b.x as int);
        lemma_i64_prod_fits(a.y as int, b.y as int);
    }
    (a.x as i128) * (b.x as i128) + (a.y as i128) * (b.y as i128)
}

/// The product of two coordinates below `BIG` fits comfortably in `i128`.
proof fn lemma_i64_prod_fits(a: int, b: int)
    by (nonlinear_arith)
    requires
        -0x1000_0000_0000_0000 <= a <= 0x1000_0000_0000_0000,
        -0x1000_0000_0000_0000 <= b <= 0x1000_0000_0000_0000,
    ensures
        -0x100_0000_0000_0000_0000_0000_0000_0000 <= a * b
            <= 0x100_0000_0000_0000_0000_0000_0000_0000,
{
}

/// The product of magnitude-bounded factors is magnitude-bounded.
pub proof fn lemma_prod_bound(a: int, b: int, ba: int, bb: int)
    by (nonlinear_arith)
    requires
        -ba <= a <= ba,
        -bb <= b <= bb,
        0 <= ba,
        0 <= bb,
    ensures
        -(ba * bb) <= a * b <= ba * bb,
{
}

/// Exact cross product, wide enough that it can never overflow.
pub fn cross_wide(a: Vec2, b: Vec2) -> (r: i128)
    requires
        a.in_range(BIG as int),
        b.in_range(BIG as int),
    ensures
        r as int == cross(a, b),
{
    proof {
        lemma_i64_prod_fits(a.x as int, b.y as int);
        lemma_i64_prod_fits(a.y as int, b.x as int);
    }
    (a.x as i128) * (b.y as i128) - (a.y as i128) * (b.x as i128)
}

} // verus!
