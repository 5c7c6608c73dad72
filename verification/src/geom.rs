//! Great-circle geometry on the mean-radius sphere.
//!
//! A coordinate pair is turned into a unit vector scaled by 10^9; the
//! central angle between two points is recovered from the cross and dot
//! products of their unit vectors with a two-argument arctangent, which is
//! numerically stable both for nearly-identical and for nearly-antipodal
//! points.  Distances are millimetre integers.
use vstd::prelude::*;
use crate::trig::{
    atan2_s, atan2_fix, cos_parts, cos_parts_s, is_sqrt_floor, isqrt_u128, lemma_atan2_range,
    lemma_muldiv_bound, lemma_parts_range, lemma_rad_reduced_range, lemma_sqrt_floor_is,
    lemma_sqrt_floor_props, rad_reduced, rad_reduced_s, sin_parts, sin_parts_s, sqrt_floor,
    PI_FIX, SCALE,
};
use crate::TrackPoint;

verus! {

/// Mean Earth radius, in millimetres.
pub const EARTH_RADIUS_MM: u64 = 6_371_008_800;

/// A great-circle distance between two points of the sphere never exceeds
/// pi times the radius.
pub const MAX_GC_DIST_MM: u64 = 20_100_000_000;

/// The unit vector of a coordinate pair given in nanodegrees, scaled by
/// 10^9: (cos lat cos lon, cos lat sin lon, sin lat).
pub open spec fn unit_vec_s(lat: int, lon: int) -> (int, int, int) {
    let rlat = rad_reduced_s(lat);
    let rlon = rad_reduced_s(lon);
    let slat = sin_parts_s(rlat);
    let clat = cos_parts_s(rlat);
    let slon = sin_parts_s(rlon);
    let clon = cos_parts_s(rlon);
    let nx_m = (clat.1 * clon.1) / 1_000_000_000_000_000_000_000_000_000int;
    let ny_m = (clat.1 * slon.1) / 1_000_000_000_000_000_000_000_000_000int;
    let nz_m = slat.1 / 1_000_000_000int;
    (
        if clat.0 != clon.0 {
            -nx_m
        } else {
            nx_m
        },
        if clat.0 != slon.0 {
            -ny_m
        } else {
            ny_m
        },
        if slat.0 {
            -nz_m
        } else {
            nz_m
        },
    )
}

pub fn unit_vec(lat: i64, lon: i64) -> (n: (i64, i64, i64))
    ensures
        n.0 as int == unit_vec_s(lat as int, lon as int).0,
        n.1 as int == unit_vec_s(lat as int, lon as int).1,
        n.2 as int == unit_vec_s(lat as int, lon as int).2,
        -1_000_000_000 <= n.0 <= 1_000_000_000,
        -1_000_000_000 <= n.1 <= 1_000_000_000,
        -1_000_000_000 <= n.2 <= 1_000_000_000,
{
    let rlat = rad_reduced(lat);
    let rlon = rad_reduced(lon);
    let (slat_neg, slat_mag) = sin_parts(rlat);
    let (clat_neg, clat_mag) = cos_parts(rlat);
    let (slon_neg, slon_mag) = sin_parts(rlon);
    let (clon_neg, clon_mag) = cos_parts(rlon);
    proof {
        lemma_muldiv_bound(
            clat_mag as int,
            SCALE as int,
            clon_mag as int,
            SCALE as int,
            1_000_000_000_000_000_000_000_000_000int,
        );
        lemma_muldiv_bound(
            clat_mag as int,
            SCALE as int,
            slon_mag as int,
            SCALE as int,
            1_000_000_000_000_000_000_000_000_000int,
        );
    }
    let nx_m: u128 = (clat_mag as u128) * (clon_mag as u128)
        / 1_000_000_000_000_000_000_000_000_000;
    let ny_m: u128 = (clat_mag as u128) * (slon_mag as u128)
        / 1_000_000_000_000_000_000_000_000_000;
    let nz_m: u64 = slat_mag / 1_000_000_000;
    let nx: i64 = if clat_neg != clon_neg {
        -(nx_m as i64)
    } else {
        nx_m as i64
    };
    let ny: i64 = if clat_neg != slon_neg {
        -(ny_m as i64)
    } else {
        ny_m as i64
    };
    let nz: i64 = if slat_neg {
        -(nz_m as i64)
    } else {
        nz_m as i64
    };
    (nx, ny, nz)
}

/// The squared magnitude of the cross product of two scaled unit vectors.
pub open spec fn cross_mag2_s(n1: (int, int, int), n2: (int, int, int)) -> int {
    let cx = n1.1 * n2.2 - n1.2 * n2.1;
    let cy = n1.2 * n2.0 - n1.0 * n2.2;
    let cz = n1.0 * n2.1 - n1.1 * n2.0;
    cx * cx + cy * cy + cz * cz
}

/// The dot product of two scaled unit vectors.
pub open spec fn dot_s(n1: (int, int, int), n2: (int, int, int)) -> int {
    n1.0 * n2.0 + n1.1 * n2.1 + n1.2 * n2.2
}

/// The central angle between two coordinate pairs, scaled by 10^18.
#[verifier::opaque]
pub open spec fn gc_angle_s(lat1: int, lon1: int, lat2: int, lon2: int) -> int {
    let n1 = unit_vec_s(lat1, lon1);
    let n2 = unit_vec_s(lat2, lon2);
    atan2_s(sqrt_floor(cross_mag2_s(n1, n2)), dot_s(n1, n2))
}

/// The great-circle distance between two coordinate pairs, in millimetres.
pub open spec fn distance_s(lat1: int, lon1: int, lat2: int, lon2: int) -> int {
    (gc_angle_s(lat1, lon1, lat2, lon2) * EARTH_RADIUS_MM) / (SCALE as int)
}

/// Bounds the product of two values bounded in magnitude.
proof fn lemma_abs_mul_bound(a: int, b: int, m: int, n: int)
    requires
        -m <= a <= m,
        -n <= b <= n,
        0 <= m,
        0 <= n,
    ensures
        -(m * n) <= a * b <= m * n,
        0 <= a * a <= m * m,
{
    assert(-(m * n) <= a * b <= m * n) by (nonlinear_arith)
        requires
            -m <= a <= m,
            -n <= b <= n,
            0 <= m,
            0 <= n,
    ;
    assert(0 <= a * a <= m * m) by (nonlinear_arith)
        requires
            -m <= a <= m,
            0 <= m,
    ;
}

/// A square root rounded down stays under `b` when its argument is under
/// `(b + 1)^2`.
proof fn lemma_sqrt_floor_below(n: int, r: int, b: int)
    requires
        is_sqrt_floor(n, r),
        0 <= b,
        n < (b + 1) * (b + 1),
    ensures
        r <= b,
{
    if r > b {
        assert((b + 1) * (b + 1) <= r * r) by (nonlinear_arith)
            requires
                0 <= b,
                b < r,
        ;
    }
}

pub fn gc_angle(lat1: i64, long1: i64, lat2: i64, long2: i64) -> (r: u64)
    ensures
        r as int == gc_angle_s(lat1 as int, long1 as int, lat2 as int, long2 as int),
        r <= PI_FIX,
{
    proof {
        reveal(gc_angle_s);
    }
    let n1 = unit_vec(lat1, long1);
    let n2 = unit_vec(lat2, long2);
    let x1 = n1.0 as i128;
    let y1 = n1.1 as i128;
    let z1 = n1.2 as i128;
    let x2 = n2.0 as i128;
    let y2 = n2.1 as i128;
    let z2 = n2.2 as i128;
    proof {
        let b: int = 1_000_000_000;
        lemma_abs_mul_bound(y1 as int, z2 as int, b, b);
        lemma_abs_mul_bound(z1 as int, y2 as int, b, b);
        lemma_abs_mul_bound(z1 as int, x2 as int, b, b);
        lemma_abs_mul_bound(x1 as int, z2 as int, b, b);
        lemma_abs_mul_bound(x1 as int, y2 as int, b, b);
        lemma_abs_mul_bound(y1 as int, x2 as int, b, b);
        lemma_abs_mul_bound(x1 as int, x2 as int, b, b);
        lemma_abs_mul_bound(y1 as int, y2 as int, b, b);
        lemma_abs_mul_bound(z1 as int, z2 as int, b, b);
    }
    let cx: i128 = y1 * z2 - z1 * y2;
    let cy: i128 = z1 * x2 - x1 * z2;
    let cz: i128 = x1 * y2 - y1 * x2;
    proof {
        let c: int = 2_000_000_000_000_000_000;
        lemma_abs_mul_bound(cx as int, cx as int, c, c);
        lemma_abs_mul_bound(cy as int, cy as int, c, c);
        lemma_abs_mul_bound(cz as int, cz as int, c, c);
    }
    let mag2: u128 = (cx * cx + cy * cy + cz * cz) as u128;
    let a: u64 = isqrt_u128(mag2);
    proof {
        lemma_sqrt_floor_below(mag2 as int, a as int, 3_500_000_000_000_000_000int);
    }
    let dot: i128 = x1 * x2 + y1 * y2 + z1 * z2;
    atan2_fix(a, dot)
}

/// Great-circle surface distance between two coordinate pairs given in
/// nanodegrees, in millimetres.
pub fn distance(lat1: i64, long1: i64, lat2: i64, long2: i64) -> (d: u64)
    ensures
        d as int == distance_s(lat1 as int, long1 as int, lat2 as int, long2 as int),
        d <= MAX_GC_DIST_MM,
{
    let ang = gc_angle(lat1, long1, lat2, long2);
    proof {
        lemma_muldiv_bound(ang as int, PI_FIX as int, EARTH_RADIUS_MM as int, EARTH_RADIUS_MM as int, SCALE as int);
    }
    ((ang as u128) * (EARTH_RADIUS_MM as u128) / (SCALE as u128)) as u64
}

/// When the elevation difference is absurdly large (over 1.8 * 10^19 mm)
/// it is capped so that the hypotenuse fits machine arithmetic.
pub const ELEVATION_DIFF_CAP_MM: u64 = 18_000_000_000_000_000_000;

/// The distance between two consecutive points, in millimetres: the
/// hypotenuse of the horizontal great-circle distance and the elevation
/// difference.
pub open spec fn pair_dist_s(p1: TrackPoint, p2: TrackPoint) -> int {
    let h = distance_s(
        p1.latitude as int,
        p1.longitude as int,
        p2.latitude as int,
        p2.longitude as int,
    );
    let e0 = if p2.elevation >= p1.elevation {
        p2.elevation - p1.elevation
    } else {
        p1.elevation - p2.elevation
    };
    let e = if e0 > ELEVATION_DIFF_CAP_MM {
        ELEVATION_DIFF_CAP_MM as int
    } else {
        e0
    };
    sqrt_floor(h * h + e * e)
}

/// Elevation-adjusted distance between two consecutive points, in
/// millimetres.
pub fn distance_with_elevation(point1: &TrackPoint, point2: &TrackPoint) -> (d: u64)
    ensures
        d as int == pair_dist_s(*point1, *point2),
        d <= 18_100_000_000_000_000_000u64,
{
    let h = distance(point1.latitude, point1.longitude, point2.latitude, point2.longitude);
    let e0: u128 = if point2.elevation >= point1.elevation {
        (point2.elevation as i128 - point1.elevation as i128) as u128
    } else {
        (point1.elevation as i128 - point2.elevation as i128) as u128
    };
    let e: u128 = if e0 > ELEVATION_DIFF_CAP_MM as u128 {
        ELEVATION_DIFF_CAP_MM as u128
    } else {
        e0
    };
    proof {
        lemma_abs_mul_bound(h as int, h as int, MAX_GC_DIST_MM as int, MAX_GC_DIST_MM as int);
        lemma_abs_mul_bound(e as int, e as int, ELEVATION_DIFF_CAP_MM as int, ELEVATION_DIFF_CAP_MM as int);
    }
    let hyp2: u128 = (h as u128) * (h as u128) + e * e;
    let d = isqrt_u128(hyp2);
    proof {
        lemma_sqrt_floor_below(hyp2 as int, d as int, 18_100_000_000_000_000_000int);
    }
    d
}

/// Every component of a computed unit vector stays within the scaled
/// unit range.
pub proof fn lemma_unit_vec_range(lat: int, lon: int)
    ensures
        -1_000_000_000 <= unit_vec_s(lat, lon).0 <= 1_000_000_000,
        -1_000_000_000 <= unit_vec_s(lat, lon).1 <= 1_000_000_000,
        -1_000_000_000 <= unit_vec_s(lat, lon).2 <= 1_000_000_000,
{
    lemma_rad_reduced_range(lat);
    lemma_rad_reduced_range(lon);
    let rlat = rad_reduced_s(lat);
    let rlon = rad_reduced_s(lon);
    lemma_parts_range(rlat);
    lemma_parts_range(rlon);
    lemma_muldiv_bound(
        cos_parts_s(rlat).1,
        SCALE as int,
        cos_parts_s(rlon).1,
        SCALE as int,
        1_000_000_000_000_000_000_000_000_000int,
    );
    lemma_muldiv_bound(
        cos_parts_s(rlat).1,
        SCALE as int,
        sin_parts_s(rlon).1,
        SCALE as int,
        1_000_000_000_000_000_000_000_000_000int,
    );
    vstd::arithmetic::div_mod::lemma_div_pos_is_pos(sin_parts_s(rlat).1, 1_000_000_000int);
    vstd::arithmetic::div_mod::lemma_div_is_ordered(
        sin_parts_s(rlat).1,
        SCALE as int,
        1_000_000_000int,
    );
}

/// A great-circle distance is never negative and never exceeds half the
/// circumference of the sphere.
#[verifier::rlimit(60)]
pub proof fn lemma_distance_in_range(lat1: int, lon1: int, lat2: int, lon2: int)
    ensures
        0 <= distance_s(lat1, lon1, lat2, lon2) <= MAX_GC_DIST_MM,
{
    reveal(gc_angle_s);
    lemma_unit_vec_range(lat1, lon1);
    lemma_unit_vec_range(lat2, lon2);
    let n1 = unit_vec_s(lat1, lon1);
    let n2 = unit_vec_s(lat2, lon2);
    let b: int = 1_000_000_000;
    lemma_abs_mul_bound(n1.1, n2.2, b, b);
    lemma_abs_mul_bound(n1.2, n2.1, b, b);
    lemma_abs_mul_bound(n1.2, n2.0, b, b);
    lemma_abs_mul_bound(n1.0, n2.2, b, b);
    lemma_abs_mul_bound(n1.0, n2.1, b, b);
    lemma_abs_mul_bound(n1.1, n2.0, b, b);
    lemma_abs_mul_bound(n1.0, n2.0, b, b);
    lemma_abs_mul_bound(n1.1, n2.1, b, b);
    lemma_abs_mul_bound(n1.2, n2.2, b, b);
    let c: int = 2_000_000_000_000_000_000;
    lemma_abs_mul_bound(n1.1 * n2.2 - n1.2 * n2.1, n1.1 * n2.2 - n1.2 * n2.1, c, c);
    lemma_abs_mul_bound(n1.2 * n2.0 - n1.0 * n2.2, n1.2 * n2.0 - n1.0 * n2.2, c, c);
    lemma_abs_mul_bound(n1.0 * n2.1 - n1.1 * n2.0, n1.0 * n2.1 - n1.1 * n2.0, c, c);
    lemma_sqrt_floor_props(cross_mag2_s(n1, n2));
    let a = sqrt_floor(cross_mag2_s(n1, n2));
    lemma_atan2_range(a, dot_s(n1, n2));
    lemma_muldiv_bound(
        gc_angle_s(lat1, lon1, lat2, lon2),
        PI_FIX as int,
        EARTH_RADIUS_MM as int,
        EARTH_RADIUS_MM as int,
        SCALE as int,
    );
}

/// Distance is symmetric: swapping the two points does not change it.
pub proof fn lemma_distance_symmetric(lat1: int, lon1: int, lat2: int, lon2: int)
    ensures
        distance_s(lat1, lon1, lat2, lon2) == distance_s(lat2, lon2, lat1, lon1),
{
    reveal(gc_angle_s);
    let n1 = unit_vec_s(lat1, lon1);
    let n2 = unit_vec_s(lat2, lon2);
    assert(cross_mag2_s(n1, n2) == cross_mag2_s(n2, n1)) by (nonlinear_arith);
    assert(dot_s(n1, n2) == dot_s(n2, n1)) by (nonlinear_arith);
}

/// The distance from any point to itself is zero, elevation included.
pub proof fn lemma_distance_self_zero(p: TrackPoint)
    ensures
        distance_s(p.latitude as int, p.longitude as int, p.latitude as int, p.longitude as int)
            == 0,
        pair_dist_s(p, p) == 0,
{
    reveal(gc_angle_s);
    let n = unit_vec_s(p.latitude as int, p.longitude as int);
    assert(cross_mag2_s(n, n) == 0) by (nonlinear_arith);
    assert(dot_s(n, n) >= 0) by (nonlinear_arith);
    assert(is_sqrt_floor(0, 0));
    lemma_sqrt_floor_is(0, 0);
}

/// Symmetry carries over to the elevation-adjusted distance.
pub proof fn lemma_pair_dist_symmetric(p1: TrackPoint, p2: TrackPoint)
    ensures
        pair_dist_s(p1, p2) == pair_dist_s(p2, p1),
{
    lemma_distance_symmetric(
        p1.latitude as int,
        p1.longitude as int,
        p2.latitude as int,
        p2.longitude as int,
    );
}

/// Two points whose elevation difference equals their horizontal distance
/// `d` are `sqrt(2) * d` apart, rounded down: the result `r` satisfies
/// `r^2 <= 2 d^2 < (r + 1)^2`.
#[verifier::rlimit(60)]
pub proof fn lemma_pair_dist_sqrt2(p1: TrackPoint, p2: TrackPoint, d: int)
    requires
        d == distance_s(
            p1.latitude as int,
            p1.longitude as int,
            p2.latitude as int,
            p2.longitude as int,
        ),
        p2.elevation - p1.elevation == d || p1.elevation - p2.elevation == d,
    ensures
        pair_dist_s(p1, p2) == sqrt_floor(2 * d * d),
        sqrt_floor(2 * d * d) * sqrt_floor(2 * d * d) <= 2 * d * d,
        2 * d * d < (sqrt_floor(2 * d * d) + 1) * (sqrt_floor(2 * d * d) + 1),
{
    lemma_distance_in_range(
        p1.latitude as int,
        p1.longitude as int,
        p2.latitude as int,
        p2.longitude as int,
    );
    assert(d * d + d * d == 2 * d * d) by (nonlinear_arith);
    assert(0 <= d * d) by (nonlinear_arith)
        requires
            0 <= d,
    ;
    lemma_sqrt_floor_props(2 * d * d);
}

} // verus!
