//! Fixed-point trigonometry.
//!
//! Angles, sines and cosines are carried as integers scaled by 10^18
//! ("fix" values): the number 1.0 is `SCALE`.  Every function here has a
//! specification twin that states its result exactly, so callers can
//! reason about the arithmetic without reopening the bodies.
use vstd::prelude::*;
use vstd::arithmetic::div_mod::lemma_div_is_ordered;
use vstd::arithmetic::mul::lemma_mul_upper_bound;

verus! {

/// The fixed-point representation of 1.0.
pub const SCALE: u64 = 1_000_000_000_000_000_000;

/// pi/2, pi, 3*pi/2 and 2*pi scaled by 10^18, rounded down.
pub const HALF_PI_FIX: u64 = 1_570_796_326_794_896_619;

pub const PI_FIX: u64 = 3_141_592_653_589_793_238;

pub const THREE_HALF_PI_FIX: u64 = 4_712_388_980_384_689_857;

pub const TWO_PI_FIX: u64 = 6_283_185_307_179_586_476;

/// `r` is the integer square root of `n` rounded down.
pub open spec fn is_sqrt_floor(n: int, r: int) -> bool {
    0 <= r && r * r <= n && n < (r + 1) * (r + 1)
}

/// The integer square root of `n`, rounded down.
pub open spec fn sqrt_floor(n: int) -> int {
    choose|r: int| is_sqrt_floor(n, r)
}

pub proof fn lemma_sqrt_floor_unique(n: int, r1: int, r2: int)
    requires
        is_sqrt_floor(n, r1),
        is_sqrt_floor(n, r2),
    ensures
        r1 == r2,
{
    if r1 < r2 {
        assert((r1 + 1) * (r1 + 1) <= r2 * r2) by (nonlinear_arith)
            requires
                0 <= r1,
                r1 < r2,
        ;
    }
    if r2 < r1 {
        assert((r2 + 1) * (r2 + 1) <= r1 * r1) by (nonlinear_arith)
            requires
                0 <= r2,
                r2 < r1,
        ;
    }
}

pub proof fn lemma_sqrt_floor_is(n: int, r: int)
    requires
        is_sqrt_floor(n, r),
    ensures
        sqrt_floor(n) == r,
{
    let c = choose|x: int| is_sqrt_floor(n, x);
    assert(is_sqrt_floor(n, c));
    lemma_sqrt_floor_unique(n, c, r);
}

/// Bounds `a * b / d` for non-negative operands by the product of the
/// operand bounds.
pub proof fn lemma_muldiv_bound(a: int, amax: int, b: int, bmax: int, d: int)
    requires
        0 <= a <= amax,
        0 <= b <= bmax,
        0 < d,
    ensures
        0 <= a * b <= amax * bmax,
        0 <= (a * b) / d <= (amax * bmax) / d,
{
    assert(0 <= a * b) by (nonlinear_arith)
        requires
            0 <= a,
            0 <= b,
    ;
    lemma_mul_upper_bound(a, amax, b, bmax);
    lemma_div_is_ordered(0, a * b, d);
    lemma_div_is_ordered(a * b, amax * bmax, d);
}

/// Integer square root of a 128-bit number, rounded down.
pub fn isqrt_u128(n: u128) -> (r: u64)
    ensures
        is_sqrt_floor(n as int, r as int),
        r as int == sqrt_floor(n as int),
{
    let mut lo: u128 = 0;
    let mut hi: u128 = 18_446_744_073_709_551_616;
    proof {
        assert((18_446_744_073_709_551_616int) * 18_446_744_073_709_551_616int > u128::MAX)
            by (nonlinear_arith);
    }
    while hi - lo > 1
        invariant
            lo < hi <= 18_446_744_073_709_551_616,
            lo * lo <= n,
            n < hi * hi,
        decreases hi - lo,
    {
        let mid: u128 = lo + (hi - lo) / 2;
        proof {
            assert(mid * mid <= u128::MAX) by (nonlinear_arith)
                requires
                    mid < 18_446_744_073_709_551_616u128,
            ;
        }
        if mid * mid <= n {
            lo = mid;
        } else {
            hi = mid;
        }
    }
    proof {
        lemma_sqrt_floor_is(n as int, lo as int);
    }
    lo as u64
}

/// An angle given in nanodegrees, converted to radians scaled by 10^18 and
/// reduced to the interval [0, 2*pi).
pub open spec fn rad_reduced_s(deg: int) -> int {
    let m = if deg < 0 {
        -deg
    } else {
        deg
    };
    let r = ((m * PI_FIX) / 180_000_000_000int) % (TWO_PI_FIX as int);
    if deg < 0 && r != 0 {
        TWO_PI_FIX - r
    } else {
        r
    }
}

pub fn rad_reduced(deg: i64) -> (r: u64)
    ensures
        r as int == rad_reduced_s(deg as int),
        r < TWO_PI_FIX,
{
    let m: u128 = if deg < 0 {
        (-(deg as i128)) as u128
    } else {
        deg as u128
    };
    proof {
        assert(m * 3_141_592_653_589_793_238u128 <= u128::MAX) by (nonlinear_arith)
            requires
                m <= 9_223_372_036_854_775_808u128,
        ;
    }
    let num: u128 = m * (PI_FIX as u128);
    let q: u128 = num / 180_000_000_000;
    let r0: u128 = q % (TWO_PI_FIX as u128);
    if deg < 0 && r0 != 0 {
        ((TWO_PI_FIX as u128) - r0) as u64
    } else {
        r0 as u64
    }
}

/// The sine polynomial on [0, pi/2]: a degree-15 alternating series
/// evaluated in fixed point, clamped to 1.0.
pub open spec fn sin_poly_s(x: int) -> int {
    let u = (x * x) / (SCALE as int);
    let v7 = SCALE - u / 210int;
    let v6 = SCALE - (u * v7) / (156 * (SCALE as int));
    let v5 = SCALE - (u * v6) / (110 * (SCALE as int));
    let v4 = SCALE - (u * v5) / (72 * (SCALE as int));
    let v3 = SCALE - (u * v4) / (42 * (SCALE as int));
    let v2 = SCALE - (u * v3) / (20 * (SCALE as int));
    let v1 = SCALE - (u * v2) / (6 * (SCALE as int));
    let s = (x * v1) / (SCALE as int);
    if s > SCALE {
        SCALE as int
    } else {
        s
    }
}

pub fn sin_poly(x: u64) -> (r: u64)
    requires
        x <= HALF_PI_FIX,
    ensures
        r as int == sin_poly_s(x as int),
        r <= SCALE,
{
    let x128 = x as u128;
    proof {
        lemma_muldiv_bound(x as int, HALF_PI_FIX as int, x as int, HALF_PI_FIX as int, SCALE as int);
    }
    let u: u128 = (x128 * x128) / (SCALE as u128);
    let ghost umax: int = (HALF_PI_FIX as int * HALF_PI_FIX as int) / (SCALE as int);
    proof {
        assert(umax < 2_470_000_000_000_000_000);
        lemma_muldiv_bound(u as int, umax, 1, 1, 210);
    }
    let v7: u128 = (SCALE as u128) - u / 210;
    proof {
        lemma_muldiv_bound(u as int, umax, v7 as int, SCALE as int, 156 * SCALE as int);
    }
    let v6: u128 = (SCALE as u128) - (u * v7) / (156 * (SCALE as u128));
    proof {
        lemma_muldiv_bound(u as int, umax, v6 as int, SCALE as int, 110 * SCALE as int);
    }
    let v5: u128 = (SCALE as u128) - (u * v6) / (110 * (SCALE as u128));
    proof {
        lemma_muldiv_bound(u as int, umax, v5 as int, SCALE as int, 72 * SCALE as int);
    }
    let v4: u128 = (SCALE as u128) - (u * v5) / (72 * (SCALE as u128));
    proof {
        lemma_muldiv_bound(u as int, umax, v4 as int, SCALE as int, 42 * SCALE as int);
    }
    let v3: u128 = (SCALE as u128) - (u * v4) / (42 * (SCALE as u128));
    proof {
        lemma_muldiv_bound(u as int, umax, v3 as int, SCALE as int, 20 * SCALE as int);
    }
    let v2: u128 = (SCALE as u128) - (u * v3) / (20 * (SCALE as u128));
    proof {
        lemma_muldiv_bound(u as int, umax, v2 as int, SCALE as int, 6 * SCALE as int);
    }
    let v1: u128 = (SCALE as u128) - (u * v2) / (6 * (SCALE as u128));
    proof {
        lemma_muldiv_bound(x as int, HALF_PI_FIX as int, v1 as int, SCALE as int, SCALE as int);
    }
    let s: u128 = (x128 * v1) / (SCALE as u128);
    if s > SCALE as u128 {
        SCALE
    } else {
        s as u64
    }
}

/// The cosine polynomial on [0, pi/2]: a degree-14 alternating series
/// evaluated in fixed point, clamped to [0, 1.0].
pub open spec fn cos_poly_s(x: int) -> int {
    let u = (x * x) / (SCALE as int);
    let v7 = SCALE - u / 182int;
    let v6 = SCALE - (u * v7) / (132 * (SCALE as int));
    let v5 = SCALE - (u * v6) / (90 * (SCALE as int));
    let v4 = SCALE - (u * v5) / (56 * (SCALE as int));
    let v3 = SCALE - (u * v4) / (30 * (SCALE as int));
    let v2 = SCALE - (u * v3) / (12 * (SCALE as int));
    let d = (u * v2) / (2 * (SCALE as int));
    if d >= SCALE {
        0
    } else {
        SCALE - d
    }
}

pub fn cos_poly(x: u64) -> (r: u64)
    requires
        x <= HALF_PI_FIX,
    ensures
        r as int == cos_poly_s(x as int),
        r <= SCALE,
{
    let x128 = x as u128;
    proof {
        lemma_muldiv_bound(x as int, HALF_PI_FIX as int, x as int, HALF_PI_FIX as int, SCALE as int);
    }
    let u: u128 = (x128 * x128) / (SCALE as u128);
    let ghost umax: int = (HALF_PI_FIX as int * HALF_PI_FIX as int) / (SCALE as int);
    proof {
        assert(umax < 2_470_000_000_000_000_000);
        lemma_muldiv_bound(u as int, umax, 1, 1, 182);
    }
    let v7: u128 = (SCALE as u128) - u / 182;
    proof {
        lemma_muldiv_bound(u as int, umax, v7 as int, SCALE as int, 132 * SCALE as int);
    }
    let v6: u128 = (SCALE as u128) - (u * v7) / (132 * (SCALE as u128));
    proof {
        lemma_muldiv_bound(u as int, umax, v6 as int, SCALE as int, 90 * SCALE as int);
    }
    let v5: u128 = (SCALE as u128) - (u * v6) / (90 * (SCALE as u128));
    proof {
        lemma_muldiv_bound(u as int, umax, v5 as int, SCALE as int, 56 * SCALE as int);
    }
    let v4: u128 = (SCALE as u128) - (u * v5) / (56 * (SCALE as u128));
    proof {
        lemma_muldiv_bound(u as int, umax, v4 as int, SCALE as int, 30 * SCALE as int);
    }
    let v3: u128 = (SCALE as u128) - (u * v4) / (30 * (SCALE as u128));
    proof {
        lemma_muldiv_bound(u as int, umax, v3 as int, SCALE as int, 12 * SCALE as int);
    }
    let v2: u128 = (SCALE as u128) - (u * v3) / (12 * (SCALE as u128));
    proof {
        lemma_muldiv_bound(u as int, umax, v2 as int, SCALE as int, 2 * SCALE as int);
    }
    let d: u128 = (u * v2) / (2 * (SCALE as u128));
    if d >= SCALE as u128 {
        0
    } else {
        ((SCALE as u128) - d) as u64
    }
}

/// Sine of a reduced angle, as a sign and a magnitude.
pub open spec fn sin_parts_s(r: int) -> (bool, int) {
    if r <= HALF_PI_FIX {
        (false, sin_poly_s(r))
    } else if r <= PI_FIX {
        (false, sin_poly_s(PI_FIX - r))
    } else if r <= THREE_HALF_PI_FIX {
        (true, sin_poly_s(r - PI_FIX))
    } else {
        (true, sin_poly_s(TWO_PI_FIX - r))
    }
}

pub fn sin_parts(r: u64) -> (s: (bool, u64))
    requires
        r < TWO_PI_FIX,
    ensures
        s.0 == sin_parts_s(r as int).0,
        s.1 as int == sin_parts_s(r as int).1,
        s.1 <= SCALE,
{
    if r <= HALF_PI_FIX {
        (false, sin_poly(r))
    } else if r <= PI_FIX {
        (false, sin_poly(PI_FIX - r))
    } else if r <= THREE_HALF_PI_FIX {
        (true, sin_poly(r - PI_FIX))
    } else {
        (true, sin_poly(TWO_PI_FIX - r))
    }
}

/// Cosine of a reduced angle, as a sign and a magnitude.
pub open spec fn cos_parts_s(r: int) -> (bool, int) {
    if r <= HALF_PI_FIX {
        (false, cos_poly_s(r))
    } else if r <= PI_FIX {
        (true, cos_poly_s(PI_FIX - r))
    } else if r <= THREE_HALF_PI_FIX {
        (true, cos_poly_s(r - PI_FIX))
    } else {
        (false, cos_poly_s(TWO_PI_FIX - r))
    }
}

pub fn cos_parts(r: u64) -> (s: (bool, u64))
    requires
        r < TWO_PI_FIX,
    ensures
        s.0 == cos_parts_s(r as int).0,
        s.1 as int == cos_parts_s(r as int).1,
        s.1 <= SCALE,
{
    if r <= HALF_PI_FIX {
        (false, cos_poly(r))
    } else if r <= PI_FIX {
        (true, cos_poly(PI_FIX - r))
    } else if r <= THREE_HALF_PI_FIX {
        (true, cos_poly(r - PI_FIX))
    } else {
        (false, cos_poly(TWO_PI_FIX - r))
    }
}

/// Arctangent of `x` in [0, 1.0]: the argument is halved twice through
/// `x / (1 + sqrt(1 + x^2))`, a degree-15 alternating series is evaluated,
/// and the result is scaled back by four.
pub open spec fn atan_core_s(x: int) -> int {
    let h1 = sqrt_floor(SCALE * SCALE + x * x);
    let x1 = (x * SCALE) / (SCALE + h1 as int);
    let h2 = sqrt_floor(SCALE * SCALE + x1 * x1);
    let x2 = (x1 * SCALE) / (SCALE + h2 as int);
    let v = (x2 * x2) / (SCALE as int);
    let w7 = SCALE - (13 * v) / 15int;
    let w6 = SCALE - (11 * v * w7) / (13 * (SCALE as int));
    let w5 = SCALE - (9 * v * w6) / (11 * (SCALE as int));
    let w4 = SCALE - (7 * v * w5) / (9 * (SCALE as int));
    let w3 = SCALE - (5 * v * w4) / (7 * (SCALE as int));
    let w2 = SCALE - (3 * v * w3) / (5 * (SCALE as int));
    let w1 = SCALE - (v * w2) / (3 * (SCALE as int));
    4 * ((x2 * w1) / (SCALE as int))
}

pub proof fn lemma_sqrt_floor_at_least(n: int, r: int, b: int)
    requires
        is_sqrt_floor(n, r),
        0 <= b,
        b * b <= n,
    ensures
        r >= b,
{
    if r < b {
        assert((r + 1) * (r + 1) <= b * b) by (nonlinear_arith)
            requires
                0 <= r,
                r < b,
        ;
    }
}

pub fn atan_core(x: u64) -> (r: u64)
    requires
        x <= SCALE,
    ensures
        r as int == atan_core_s(x as int),
        r <= 1_100_000_000_000_000_000u64,
{
    let s128 = SCALE as u128;
    proof {
        assert(s128 * s128 + x * x <= u128::MAX) by (nonlinear_arith)
            requires
                x <= 1_000_000_000_000_000_000u64,
                s128 == 1_000_000_000_000_000_000u128,
        ;
    }
    let h1: u64 = isqrt_u128(s128 * s128 + (x as u128) * (x as u128));
    proof {
        lemma_sqrt_floor_at_least(
            (s128 * s128 + (x as u128) * (x as u128)) as int,
            h1 as int,
            SCALE as int,
        );
        lemma_muldiv_bound(x as int, SCALE as int, SCALE as int, SCALE as int, 2 * SCALE as int);
        lemma_div_is_ordered_pair(x as int * SCALE as int, (SCALE as int) + h1 as int, 2 * SCALE as int);
    }
    let x1: u128 = ((x as u128) * s128) / (s128 + (h1 as u128));
    proof {
        assert(x1 <= 500_000_000_000_000_000);
        assert(s128 * s128 + x1 * x1 <= u128::MAX) by (nonlinear_arith)
            requires
                x1 <= 500_000_000_000_000_000u128,
                s128 == 1_000_000_000_000_000_000u128,
        ;
    }
    let h2: u64 = isqrt_u128(s128 * s128 + x1 * x1);
    proof {
        lemma_sqrt_floor_at_least((s128 * s128 + x1 * x1) as int, h2 as int, SCALE as int);
        lemma_muldiv_bound(x1 as int, 500_000_000_000_000_000, SCALE as int, SCALE as int, 2 * SCALE as int);
        lemma_div_is_ordered_pair(x1 as int * SCALE as int, (SCALE as int) + h2 as int, 2 * SCALE as int);
    }
    let x2: u128 = (x1 * s128) / (s128 + (h2 as u128));
    proof {
        assert(x2 <= 250_000_000_000_000_000);
        lemma_muldiv_bound(x2 as int, 250_000_000_000_000_000, x2 as int, 250_000_000_000_000_000, SCALE as int);
    }
    let v: u128 = (x2 * x2) / s128;
    let ghost vmax: int = 62_500_000_000_000_000;
    proof {
        lemma_muldiv_bound(13 * v as int, 13 * vmax, 1, 1, 15);
    }
    let w7: u128 = s128 - (13 * v) / 15;
    proof {
        lemma_muldiv_bound(11 * v as int, 11 * vmax, w7 as int, SCALE as int, 13 * SCALE as int);
    }
    let w6: u128 = s128 - (11 * v * w7) / (13 * s128);
    proof {
        lemma_muldiv_bound(9 * v as int, 9 * vmax, w6 as int, SCALE as int, 11 * SCALE as int);
    }
    let w5: u128 = s128 - (9 * v * w6) / (11 * s128);
    proof {
        lemma_muldiv_bound(7 * v as int, 7 * vmax, w5 as int, SCALE as int, 9 * SCALE as int);
    }
    let w4: u128 = s128 - (7 * v * w5) / (9 * s128);
    proof {
        lemma_muldiv_bound(5 * v as int, 5 * vmax, w4 as int, SCALE as int, 7 * SCALE as int);
    }
    let w3: u128 = s128 - (5 * v * w4) / (7 * s128);
    proof {
        lemma_muldiv_bound(3 * v as int, 3 * vmax, w3 as int, SCALE as int, 5 * SCALE as int);
    }
    let w2: u128 = s128 - (3 * v * w3) / (5 * s128);
    proof {
        lemma_muldiv_bound(v as int, vmax, w2 as int, SCALE as int, 3 * SCALE as int);
    }
    let w1: u128 = s128 - (v * w2) / (3 * s128);
    proof {
        lemma_muldiv_bound(x2 as int, 250_000_000_000_000_000, w1 as int, SCALE as int, SCALE as int);
    }
    let at: u128 = (x2 * w1) / s128;
    (4 * at) as u64
}

/// `x / y` rounded down is no larger than `x / z` when `z <= y`.
pub proof fn lemma_div_is_ordered_pair(x: int, y: int, z: int)
    requires
        0 <= x,
        0 < z <= y,
    ensures
        x / y <= x / z,
{
    vstd::arithmetic::div_mod::lemma_div_is_ordered_by_denominator(x, z, y);
}

/// Arctangent of the ratio `p / q` for `p <= q`, in [0, pi/4] scaled.
pub open spec fn atan_ratio_s(p: int, q: int) -> int {
    atan_core_s((p * SCALE) / (q as int))
}

pub fn atan_ratio(p: u64, q: u64) -> (r: u64)
    requires
        0 < q,
        p <= q,
    ensures
        r as int == atan_ratio_s(p as int, q as int),
        r <= 1_100_000_000_000_000_000u64,
{
    proof {
        lemma_muldiv_bound(p as int, q as int, SCALE as int, SCALE as int, q as int);
        vstd::arithmetic::div_mod::lemma_div_multiples_vanish(SCALE as int, q as int);
    }
    let x: u128 = ((p as u128) * (SCALE as u128)) / (q as u128);
    atan_core(x as u64)
}

/// The angle whose sine and cosine are proportional to `a >= 0` and `dot`:
/// the two-argument arctangent, with results in [0, pi].
pub open spec fn atan2_s(a: int, dot: int) -> int {
    if a == 0 {
        if dot >= 0 {
            0
        } else {
            PI_FIX as int
        }
    } else {
        let b = if dot < 0 {
            -dot
        } else {
            dot
        };
        let core = if b == 0 {
            HALF_PI_FIX as int
        } else if a <= b {
            atan_ratio_s(a, b)
        } else {
            HALF_PI_FIX - atan_ratio_s(b, a)
        };
        if dot >= 0 {
            core
        } else {
            PI_FIX - core
        }
    }
}

pub fn atan2_fix(a: u64, dot: i128) -> (r: u64)
    requires
        a <= 4_000_000_000_000_000_000u64,
        -4_000_000_000_000_000_000 <= dot <= 4_000_000_000_000_000_000,
    ensures
        r as int == atan2_s(a as int, dot as int),
        r <= PI_FIX,
{
    if a == 0 {
        if dot >= 0 {
            0
        } else {
            PI_FIX
        }
    } else {
        let b: u64 = if dot < 0 {
            (-dot) as u64
        } else {
            dot as u64
        };
        let core: u64 = if b == 0 {
            HALF_PI_FIX
        } else if a <= b {
            atan_ratio(a, b)
        } else {
            HALF_PI_FIX - atan_ratio(b, a)
        };
        if dot >= 0 {
            core
        } else {
            PI_FIX - core
        }
    }
}

/// The integer square root exists for every non-negative argument; with
/// uniqueness this pins `sqrt_floor` down completely.
pub proof fn lemma_sqrt_floor_props(n: int)
    requires
        0 <= n,
    ensures
        is_sqrt_floor(n, sqrt_floor(n)),
    decreases n,
{
    if n == 0 {
        assert(is_sqrt_floor(0, 0));
        lemma_sqrt_floor_is(0, 0);
    } else {
        lemma_sqrt_floor_props(n - 1);
        let r = sqrt_floor(n - 1);
        if (r + 1) * (r + 1) <= n {
            assert(n == (r + 1) * (r + 1));
            assert(n < (r + 2) * (r + 2)) by (nonlinear_arith)
                requires
                    0 <= r,
                    n == (r + 1) * (r + 1),
            ;
            assert(is_sqrt_floor(n, r + 1));
            lemma_sqrt_floor_is(n, r + 1);
        } else {
            assert(is_sqrt_floor(n, r));
            lemma_sqrt_floor_is(n, r);
        }
    }
}

/// An angle reduced from nanodegrees always lands in [0, 2*pi).
pub proof fn lemma_rad_reduced_range(deg: int)
    ensures
        0 <= rad_reduced_s(deg) < TWO_PI_FIX,
{
    let m = if deg < 0 {
        -deg
    } else {
        deg
    };
    vstd::arithmetic::mul::lemma_mul_nonnegative(m, PI_FIX as int);
    vstd::arithmetic::div_mod::lemma_div_pos_is_pos(m * PI_FIX, 180_000_000_000int);
    vstd::arithmetic::div_mod::lemma_mod_division_less_than_divisor(
        (m * PI_FIX) / 180_000_000_000int,
        TWO_PI_FIX as int,
    );
}

/// The sine polynomial stays within [0, 1.0] on its domain.
pub proof fn lemma_sin_poly_range(x: int)
    requires
        0 <= x <= HALF_PI_FIX,
    ensures
        0 <= sin_poly_s(x) <= SCALE,
{
    let s = SCALE as int;
    lemma_muldiv_bound(x, HALF_PI_FIX as int, x, HALF_PI_FIX as int, s);
    let u = (x * x) / s;
    let umax = (HALF_PI_FIX as int * HALF_PI_FIX as int) / s;
    assert(umax < 2_470_000_000_000_000_000);
    lemma_muldiv_bound(u, umax, 1, 1, 210);
    let v7 = SCALE - u / 210int;
    lemma_muldiv_bound(u, umax, v7, s, 156 * s);
    let v6 = SCALE - (u * v7) / (156 * s);
    lemma_muldiv_bound(u, umax, v6, s, 110 * s);
    let v5 = SCALE - (u * v6) / (110 * s);
    lemma_muldiv_bound(u, umax, v5, s, 72 * s);
    let v4 = SCALE - (u * v5) / (72 * s);
    lemma_muldiv_bound(u, umax, v4, s, 42 * s);
    let v3 = SCALE - (u * v4) / (42 * s);
    lemma_muldiv_bound(u, umax, v3, s, 20 * s);
    let v2 = SCALE - (u * v3) / (20 * s);
    lemma_muldiv_bound(u, umax, v2, s, 6 * s);
    let v1 = SCALE - (u * v2) / (6 * s);
    lemma_muldiv_bound(x, HALF_PI_FIX as int, v1, s, s);
}

/// The cosine polynomial stays within [0, 1.0] on its domain.
pub proof fn lemma_cos_poly_range(x: int)
    requires
        0 <= x <= HALF_PI_FIX,
    ensures
        0 <= cos_poly_s(x) <= SCALE,
{
    let s = SCALE as int;
    lemma_muldiv_bound(x, HALF_PI_FIX as int, x, HALF_PI_FIX as int, s);
    let u = (x * x) / s;
    let umax = (HALF_PI_FIX as int * HALF_PI_FIX as int) / s;
    assert(umax < 2_470_000_000_000_000_000);
    lemma_muldiv_bound(u, umax, 1, 1, 182);
    let v7 = SCALE - u / 182int;
    lemma_muldiv_bound(u, umax, v7, s, 132 * s);
    let v6 = SCALE - (u * v7) / (132 * s);
    lemma_muldiv_bound(u, umax, v6, s, 90 * s);
    let v5 = SCALE - (u * v6) / (90 * s);
    lemma_muldiv_bound(u, umax, v5, s, 56 * s);
    let v4 = SCALE - (u * v5) / (56 * s);
    lemma_muldiv_bound(u, umax, v4, s, 30 * s);
    let v3 = SCALE - (u * v4) / (30 * s);
    lemma_muldiv_bound(u, umax, v3, s, 12 * s);
    let v2 = SCALE - (u * v3) / (12 * s);
    lemma_muldiv_bound(u, umax, v2, s, 2 * s);
}

/// Sine and cosine magnitudes stay within [0, 1.0] for reduced angles.
pub proof fn lemma_parts_range(r: int)
    requires
        0 <= r < TWO_PI_FIX,
    ensures
        0 <= sin_parts_s(r).1 <= SCALE,
        0 <= cos_parts_s(r).1 <= SCALE,
{
    if r <= HALF_PI_FIX {
        lemma_sin_poly_range(r);
        lemma_cos_poly_range(r);
    } else if r <= PI_FIX {
        lemma_sin_poly_range(PI_FIX - r);
        lemma_cos_poly_range(PI_FIX - r);
    } else if r <= THREE_HALF_PI_FIX {
        lemma_sin_poly_range(r - PI_FIX);
        lemma_cos_poly_range(r - PI_FIX);
    } else {
        lemma_sin_poly_range(TWO_PI_FIX - r);
        lemma_cos_poly_range(TWO_PI_FIX - r);
    }
}

/// The halved-argument arctangent stays within [0, pi/2] on [0, 1.0].
pub proof fn lemma_atan_core_range(x: int)
    requires
        0 <= x <= SCALE,
    ensures
        0 <= atan_core_s(x) <= 1_100_000_000_000_000_000,
{
    let s = SCALE as int;
    vstd::arithmetic::mul::lemma_mul_nonnegative(x, x);
    lemma_sqrt_floor_props(s * s + x * x);
    let h1 = sqrt_floor(s * s + x * x);
    lemma_sqrt_floor_at_least(s * s + x * x, h1, s);
    lemma_muldiv_bound(x, s, s, s, 2 * s);
    lemma_div_is_ordered_pair(x * s, s + h1, 2 * s);
    let x1 = (x * s) / (s + h1);
    vstd::arithmetic::div_mod::lemma_div_pos_is_pos(x * s, s + h1);
    assert(0 <= x1 <= 500_000_000_000_000_000);
    vstd::arithmetic::mul::lemma_mul_nonnegative(x1, x1);
    lemma_sqrt_floor_props(s * s + x1 * x1);
    let h2 = sqrt_floor(s * s + x1 * x1);
    lemma_sqrt_floor_at_least(s * s + x1 * x1, h2, s);
    lemma_muldiv_bound(x1, 500_000_000_000_000_000, s, s, 2 * s);
    lemma_div_is_ordered_pair(x1 * s, s + h2, 2 * s);
    let x2 = (x1 * s) / (s + h2);
    vstd::arithmetic::div_mod::lemma_div_pos_is_pos(x1 * s, s + h2);
    assert(0 <= x2 <= 250_000_000_000_000_000);
    lemma_muldiv_bound(x2, 250_000_000_000_000_000, x2, 250_000_000_000_000_000, s);
    let v = (x2 * x2) / s;
    let vmax = 62_500_000_000_000_000int;
    lemma_muldiv_bound(13 * v, 13 * vmax, 1, 1, 15);
    let w7 = SCALE - (13 * v) / 15int;
    lemma_muldiv_bound(11 * v, 11 * vmax, w7, s, 13 * s);
    let w6 = SCALE - (11 * v * w7) / (13 * s);
    lemma_muldiv_bound(9 * v, 9 * vmax, w6, s, 11 * s);
    let w5 = SCALE - (9 * v * w6) / (11 * s);
    lemma_muldiv_bound(7 * v, 7 * vmax, w5, s, 9 * s);
    let w4 = SCALE - (7 * v * w5) / (9 * s);
    lemma_muldiv_bound(5 * v, 5 * vmax, w4, s, 7 * s);
    let w3 = SCALE - (5 * v * w4) / (7 * s);
    lemma_muldiv_bound(3 * v, 3 * vmax, w3, s, 5 * s);
    let w2 = SCALE - (3 * v * w3) / (5 * s);
    lemma_muldiv_bound(v, vmax, w2, s, 3 * s);
    let w1 = SCALE - (v * w2) / (3 * s);
    lemma_muldiv_bound(x2, 250_000_000_000_000_000, w1, s, s);
}

/// The ratio arctangent stays within [0, pi/2] when `p <= q`.
pub proof fn lemma_atan_ratio_range(p: int, q: int)
    requires
        0 < q,
        0 <= p <= q,
    ensures
        0 <= atan_ratio_s(p, q) <= 1_100_000_000_000_000_000,
{
    lemma_muldiv_bound(p, q, SCALE as int, SCALE as int, q);
    vstd::arithmetic::div_mod::lemma_div_multiples_vanish(SCALE as int, q);
    lemma_atan_core_range((p * SCALE) / (q as int));
}

/// The two-argument arctangent stays within [0, pi].
pub proof fn lemma_atan2_range(a: int, dot: int)
    requires
        0 <= a,
    ensures
        0 <= atan2_s(a, dot) <= PI_FIX,
{
    if a == 0 {
    } else {
        let b = if dot < 0 {
            -dot
        } else {
            dot
        };
        if b == 0 {
        } else if a <= b {
            lemma_atan_ratio_range(a, b);
        } else {
            lemma_atan_ratio_range(b, a);
        }
    }
}

} // verus!
