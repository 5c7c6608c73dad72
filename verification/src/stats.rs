//! The statistics engine: pure aggregation over a completed [`Track`].
//!
//! Every function is total over well-formed tracks and is specified
//! exactly by a recursive fold over the track's point sequences.
//! Accumulators saturate at generous caps (mirrored in the
//! specifications) so that even absurdly long tracks stay within machine
//! arithmetic.
use vstd::prelude::*;
use crate::geom::{distance_with_elevation, pair_dist_s};
use crate::{sorted_by_time, Split, Track, TrackPoint};

verus! {

/// Saturation cap for millimetre and millisecond accumulators: far above
/// any value that still matters after the final clamp to `u64`.
pub const ACC_SAT: u128 = 100_000_000_000_000_000_000_000_000_000_000_000_000;

/// Clamps a sum to the accumulator cap.
pub open spec fn sat_acc(x: int) -> int {
    if x > ACC_SAT {
        ACC_SAT as int
    } else {
        x
    }
}

/// Clamps a non-negative value to `u64`.
pub open spec fn sat_u64(x: int) -> int {
    if x > u64::MAX {
        u64::MAX as int
    } else {
        x
    }
}

/// The capped millimetre distance of the first `k` segments.
pub open spec fn track_dist_prefix(r: Seq<Seq<TrackPoint>>, k: int) -> int
    decreases k,
{
    if k <= 0 {
        0
    } else {
        seg_dist_prefix_from(track_dist_prefix(r, k - 1), r[k - 1], r[k - 1].len() as int)
    }
}

/// Continues a capped distance sum over the first `k` points of `s`.
pub open spec fn seg_dist_prefix_from(acc: int, s: Seq<TrackPoint>, k: int) -> int
    decreases k,
{
    if k <= 1 {
        acc
    } else {
        sat_acc(seg_dist_prefix_from(acc, s, k - 1) + pair_dist_s(s[k - 2], s[k - 1]))
    }
}

/// Total track distance in whole metres, clamped to `u64`: the capped
/// millimetre sum of consecutive-pair distances within each segment,
/// divided by 1000.
pub open spec fn track_distance_s(r: Seq<Seq<TrackPoint>>) -> int {
    sat_u64(track_dist_prefix(r, r.len() as int) / 1000)
}

/// Total distance of a track in metres.
///
/// Sums the elevation-adjusted great-circle distances of consecutive
/// point pairs within each segment; nothing is counted across a segment
/// boundary.  The millimetre sum is floored to whole metres.
pub fn calc_track_distance(track: &Track) -> (d: u64)
    ensures
        d as int == track_distance_s(track@.route),
{
    let mut acc: u128 = 0;
    let mut j: usize = 0;
    while j < track.route.len()
        invariant
            j <= track.route.len(),
            acc as int == track_dist_prefix(track@.route, j as int),
            acc <= ACC_SAT,
        decreases track.route.len() - j,
    {
        let seg = &track.route[j];
        let mut i: usize = 1;
        proof {
            assert(track@.route[j as int] == seg@);
        }
        while i < seg.points.len()
            invariant
                1 <= i,
                i <= seg.points.len() || (seg.points.len() == 0 && i == 1),
                acc as int == seg_dist_prefix_from(
                    track_dist_prefix(track@.route, j as int),
                    seg@,
                    i as int,
                ),
                acc <= ACC_SAT,
            decreases seg.points.len() - i,
        {
            let d = distance_with_elevation(&seg.points[i - 1], &seg.points[i]);
            acc = if acc + (d as u128) > ACC_SAT {
                ACC_SAT
            } else {
                acc + (d as u128)
            };
            i = i + 1;
        }
        proof {
            if seg.points.len() == 0 {
                assert(seg_dist_prefix_from(
                    track_dist_prefix(track@.route, j as int),
                    seg@,
                    seg@.len() as int,
                ) == track_dist_prefix(track@.route, j as int));
            }
            assert(track_dist_prefix(track@.route, j + 1) == seg_dist_prefix_from(
                track_dist_prefix(track@.route, j as int),
                seg@,
                seg@.len() as int,
            ));
        }
        j = j + 1;
    }
    let m: u128 = acc / 1000;
    if m > 0xffff_ffff_ffff_ffff {
        0xffff_ffff_ffff_ffff
    } else {
        m as u64
    }
}

/// The capped millisecond duration over the first `k` points of `s`,
/// continued from `acc`.
pub open spec fn seg_dur_prefix_from(acc: int, s: Seq<TrackPoint>, k: int) -> int
    decreases k,
{
    if k <= 1 {
        acc
    } else {
        sat_acc(seg_dur_prefix_from(acc, s, k - 1) + (s[k - 1].time - s[k - 2].time))
    }
}

/// The capped millisecond duration of the first `k` segments.
pub open spec fn track_dur_prefix(r: Seq<Seq<TrackPoint>>, k: int) -> int
    decreases k,
{
    if k <= 0 {
        0
    } else {
        seg_dur_prefix_from(track_dur_prefix(r, k - 1), r[k - 1], r[k - 1].len() as int)
    }
}

/// Total track duration in milliseconds, clamped to `u64`: the sum of
/// consecutive-pair time differences within each segment.  A segment of
/// zero or one points contributes nothing, and segment boundaries never
/// contribute a gap.
pub open spec fn track_duration_s(r: Seq<Seq<TrackPoint>>) -> int {
    sat_u64(track_dur_prefix(r, r.len() as int))
}

/// Total duration of a track in milliseconds.
pub fn calc_track_duration(track: &Track) -> (d: u64)
    requires
        track.wf(),
    ensures
        d as int == track_duration_s(track@.route),
{
    let mut acc: u128 = 0;
    let mut j: usize = 0;
    while j < track.route.len()
        invariant
            track.wf(),
            j <= track.route.len(),
            acc as int == track_dur_prefix(track@.route, j as int),
            acc <= ACC_SAT,
        decreases track.route.len() - j,
    {
        let seg = &track.route[j];
        let mut i: usize = 1;
        proof {
            assert(track@.route[j as int] == seg@);
            assert(sorted_by_time(seg@));
        }
        while i < seg.points.len()
            invariant
                1 <= i,
                i <= seg.points.len() || (seg.points.len() == 0 && i == 1),
                sorted_by_time(seg@),
                acc as int == seg_dur_prefix_from(
                    track_dur_prefix(track@.route, j as int),
                    seg@,
                    i as int,
                ),
                acc <= ACC_SAT,
            decreases seg.points.len() - i,
        {
            proof {
                assert(seg@[i - 1].time <= seg@[i as int].time);
            }
            let dt: u128 = (seg.points[i].time as i128 - seg.points[i - 1].time as i128) as u128;
            acc = if acc + dt > ACC_SAT {
                ACC_SAT
            } else {
                acc + dt
            };
            i = i + 1;
        }
        proof {
            if seg.points.len() == 0 {
                assert(seg_dur_prefix_from(
                    track_dur_prefix(track@.route, j as int),
                    seg@,
                    seg@.len() as int,
                ) == track_dur_prefix(track@.route, j as int));
            }
            assert(track_dur_prefix(track@.route, j + 1) == seg_dur_prefix_from(
                track_dur_prefix(track@.route, j as int),
                seg@,
                seg@.len() as int,
            ));
        }
        j = j + 1;
    }
    if acc > 0xffff_ffff_ffff_ffff {
        0xffff_ffff_ffff_ffff
    } else {
        acc as u64
    }
}

/// The weighted heart-rate contribution of point `i` of a segment, as a
/// (weighted sum, weighted seconds) pair.
///
/// A point with heart rate 0 contributes nothing.  A valid sample that is
/// segment-terminal, or whose successor has no sample, stands for one
/// second.  Two consecutive valid samples contribute the trapezoidal
/// interpolation over the seconds between them.
pub open spec fn hr_contrib(s: Seq<TrackPoint>, i: int) -> (int, int) {
    let p = s[i];
    if p.heart_rate == 0 {
        (0, 0)
    } else if i == s.len() - 1 {
        (p.heart_rate as int, 1)
    } else {
        let q = s[i + 1];
        if q.heart_rate == 0 {
            (p.heart_rate as int, 1)
        } else {
            let dt = (q.time - p.time) / 1000;
            (((p.heart_rate + q.heart_rate) * dt) / 2, dt)
        }
    }
}

/// The capped (weighted sum, weighted seconds) totals over the first `k`
/// points of `s`.
pub open spec fn hr_seg_prefix_from(acc: (int, int), s: Seq<TrackPoint>, k: int) -> (int, int)
    decreases k,
{
    if k <= 0 {
        acc
    } else {
        let prev = hr_seg_prefix_from(acc, s, k - 1);
        let c = hr_contrib(s, k - 1);
        (sat_acc(prev.0 + c.0), sat_acc(prev.1 + c.1))
    }
}

/// The capped heart-rate totals of the first `k` segments.
pub open spec fn hr_track_prefix(r: Seq<Seq<TrackPoint>>, k: int) -> (int, int)
    decreases k,
{
    if k <= 0 {
        (0, 0)
    } else {
        hr_seg_prefix_from(hr_track_prefix(r, k - 1), r[k - 1], r[k - 1].len() as int)
    }
}

/// The time-weighted average heart rate of a track: total weighted sum
/// divided by total weighted seconds, floored, in the range [0, 255];
/// 0 when there are no weighted seconds.
pub open spec fn track_avg_hr_s(r: Seq<Seq<TrackPoint>>) -> int {
    let t = hr_track_prefix(r, r.len() as int);
    if t.1 == 0 {
        0
    } else {
        let q = t.0 / t.1;
        if q > 255 {
            255
        } else {
            q
        }
    }
}

/// Time-weighted average heart rate of a track, in beats per minute.
pub fn calc_track_average_heart_rate(track: &Track) -> (hr: u8)
    requires
        track.wf(),
    ensures
        hr as int == track_avg_hr_s(track@.route),
{
    let mut sum: u128 = 0;
    let mut weight: u128 = 0;
    let mut j: usize = 0;
    while j < track.route.len()
        invariant
            track.wf(),
            j <= track.route.len(),
            sum as int == hr_track_prefix(track@.route, j as int).0,
            weight as int == hr_track_prefix(track@.route, j as int).1,
            sum <= ACC_SAT,
            weight <= ACC_SAT,
        decreases track.route.len() - j,
    {
        let seg = &track.route[j];
        let mut i: usize = 0;
        proof {
            assert(track@.route[j as int] == seg@);
            assert(sorted_by_time(seg@));
        }
        while i < seg.points.len()
            invariant
                i <= seg.points.len(),
                sorted_by_time(seg@),
                sum as int == hr_seg_prefix_from(
                    hr_track_prefix(track@.route, j as int),
                    seg@,
                    i as int,
                ).0,
                weight as int == hr_seg_prefix_from(
                    hr_track_prefix(track@.route, j as int),
                    seg@,
                    i as int,
                ).1,
                sum <= ACC_SAT,
                weight <= ACC_SAT,
            decreases seg.points.len() - i,
        {
            let p = seg.points[i];
            let ghost c = hr_contrib(seg@, i as int);
            let mut cs: u128 = 0;
            let mut cw: u128 = 0;
            if p.heart_rate > 0 {
                if i == seg.points.len() - 1 {
                    cs = p.heart_rate as u128;
                    cw = 1;
                } else {
                    let q = seg.points[i + 1];
                    if q.heart_rate == 0 {
                        cs = p.heart_rate as u128;
                        cw = 1;
                    } else {
                        proof {
                            assert(seg@[i as int].time <= seg@[i + 1].time);
                            vstd::arithmetic::div_mod::lemma_div_is_ordered(
                                q.time - p.time,
                                0xffff_ffff_ffff_ffffint,
                                1000,
                            );
                        }
                        let dt: u128 = ((q.time as i128 - p.time as i128) as u128) / 1000;
                        proof {
                            crate::trig::lemma_muldiv_bound(
                                p.heart_rate + q.heart_rate,
                                510,
                                dt as int,
                                18_446_744_073_709_551int,
                                2,
                            );
                        }
                        cs = ((p.heart_rate as u128 + q.heart_rate as u128) * dt) / 2;
                        cw = dt;
                    }
                }
            }
            proof {
                assert(cs as int == c.0 && cw as int == c.1);
            }
            sum = if sum + cs > ACC_SAT {
                ACC_SAT
            } else {
                sum + cs
            };
            weight = if weight + cw > ACC_SAT {
                ACC_SAT
            } else {
                weight + cw
            };
            i = i + 1;
        }
        j = j + 1;
    }
    if weight == 0 {
        0
    } else {
        let q: u128 = sum / weight;
        if q > 255 {
            255
        } else {
            q as u8
        }
    }
}

/// Saturation cap for the seconds-since-boundary accumulator of the
/// splits walk; above `u64::MAX`, so the clamp of an emitted pace is
/// unaffected.
pub const DUR_SAT: u128 = 30_000_000_000_000_000_000_000;

/// Clamps a duration accumulator to its cap.
pub open spec fn sat_dur(x: int) -> int {
    if x > DUR_SAT {
        DUR_SAT as int
    } else {
        x
    }
}

/// Millimetres to whole metres, rounding towards zero.
pub open spec fn trunc_div_1000(x: int) -> int {
    if x >= 0 {
        x / 1000
    } else {
        -((-x) / 1000)
    }
}

/// Clamps a metre delta to the `i32` range.
pub open spec fn sat_i32(x: int) -> int {
    if x > i32::MAX {
        i32::MAX as int
    } else if x < i32::MIN {
        i32::MIN as int
    } else {
        x
    }
}

/// Linear interpolation of a signed delta at the fraction `num / den`,
/// rounding towards zero; 0 when `den` is 0.
pub open spec fn interp_trunc(delta: int, num: int, den: int) -> int {
    if den == 0 {
        0
    } else if delta >= 0 {
        (delta * num) / den
    } else {
        -(((-delta) * num) / den)
    }
}

/// The running state of the splits walk.
#[verifier::ext_equal]
pub struct SplitsAcc {
    /// Millimetres accumulated since the last kilometre boundary.
    pub acc: int,
    /// Seconds accumulated since the last kilometre boundary.
    pub dur: int,
    /// Elevation at the start of the current split, millimetres.
    pub start_ele: int,
    /// Elevation of the last point seen, millimetres.
    pub latest_ele: int,
    /// The splits emitted so far.
    pub splits: Seq<Split>,
}

pub open spec fn splits_init() -> SplitsAcc {
    SplitsAcc { acc: 0, dur: 0, start_ele: 0, latest_ele: 0, splits: Seq::empty() }
}

/// One consecutive pair of the splits walk.
///
/// If the pair still fits under the kilometre it only grows the
/// accumulators.  If it lands exactly on the boundary a full split is
/// emitted.  If it overshoots, the boundary position is interpolated
/// linearly within the pair, the split is emitted with the interpolated
/// time and elevation, and the remainder of the pair seeds the next
/// split.
pub open spec fn split_step_s(st: SplitsAcc, p: TrackPoint, q: TrackPoint) -> SplitsAcc {
    let d = pair_dist_s(p, q);
    let dt = (q.time - p.time) / 1000;
    let start0 = if st.acc == 0 {
        p.elevation as int
    } else {
        st.start_ele
    };
    let pending = st.acc + d;
    if pending < 1_000_000 {
        SplitsAcc {
            acc: pending,
            dur: sat_dur(st.dur + dt),
            start_ele: start0,
            latest_ele: q.elevation as int,
            splits: st.splits,
        }
    } else if pending == 1_000_000 {
        let pace = sat_u64(sat_dur(st.dur + dt));
        let delta_m = sat_i32(trunc_div_1000(q.elevation - start0));
        SplitsAcc {
            acc: 0,
            dur: 0,
            start_ele: q.elevation as int,
            latest_ele: q.elevation as int,
            splits: st.splits.push(
                Split { distance: 1000u16, pace: pace as u64, elevation_delta: delta_m as i32 },
            ),
        }
    } else {
        let cov = if st.acc >= 1_000_000 {
            0
        } else {
            1_000_000 - st.acc
        };
        let split_dt = if d == 0 {
            0
        } else {
            (dt * cov) / d
        };
        let b_ele = p.elevation + interp_trunc(q.elevation - p.elevation, cov, d);
        let pace = sat_u64(sat_dur(st.dur + split_dt));
        let delta_m = sat_i32(trunc_div_1000(b_ele - start0));
        SplitsAcc {
            acc: sat_acc(pending - 1_000_000),
            dur: dt - split_dt,
            start_ele: b_ele,
            latest_ele: q.elevation as int,
            splits: st.splits.push(
                Split { distance: 1000u16, pace: pace as u64, elevation_delta: delta_m as i32 },
            ),
        }
    }
}

/// After the last pair: a leftover of at least 100 m with a nonzero
/// duration becomes a final partial split whose pace is extrapolated to a
/// full kilometre and whose distance is the literal leftover.
pub open spec fn splits_tail(st: SplitsAcc) -> Seq<Split> {
    if st.acc >= 100_000 && st.dur > 0 {
        let pace = sat_u64((st.dur * 1_000_000) / st.acc);
        let dist_m = st.acc / 1000;
        let dist16 = if dist_m > u16::MAX {
            u16::MAX as int
        } else {
            dist_m
        };
        let delta_m = sat_i32(trunc_div_1000(st.latest_ele - st.start_ele));
        st.splits.push(
            Split { distance: dist16 as u16, pace: pace as u64, elevation_delta: delta_m as i32 },
        )
    } else {
        st.splits
    }
}

/// The splits state after the first `k` points of `s`.
pub open spec fn splits_seg_fold(st: SplitsAcc, s: Seq<TrackPoint>, k: int) -> SplitsAcc
    decreases k,
{
    if k <= 1 {
        st
    } else {
        split_step_s(splits_seg_fold(st, s, k - 1), s[k - 2], s[k - 1])
    }
}

/// The splits state after the first `k` segments.
pub open spec fn splits_track_fold(st: SplitsAcc, r: Seq<Seq<TrackPoint>>, k: int) -> SplitsAcc
    decreases k,
{
    if k <= 0 {
        st
    } else {
        splits_seg_fold(splits_track_fold(st, r, k - 1), r[k - 1], r[k - 1].len() as int)
    }
}

/// The per-kilometre splits of a track.
pub open spec fn track_splits_s(r: Seq<Seq<TrackPoint>>) -> Seq<Split> {
    splits_tail(splits_track_fold(splits_init(), r, r.len() as int))
}

/// The in-progress accumulators of the splits walk, as machine values.
#[derive(Copy, Clone)]
pub struct SplitProgress {
    pub acc: u128,
    pub dur: u128,
    pub start_ele: i64,
    pub latest_ele: i64,
}

/// The abstract state that a progress value and the emitted splits stand
/// for.
pub open spec fn splits_view(stp: SplitProgress, sp: Seq<Split>) -> SplitsAcc {
    SplitsAcc {
        acc: stp.acc as int,
        dur: stp.dur as int,
        start_ele: stp.start_ele as int,
        latest_ele: stp.latest_ele as int,
        splits: sp,
    }
}

/// Millimetres to metres, rounding towards zero, clamped to `i32`.
fn mm_delta_to_m_i32(a: i64, b: i64) -> (r: i32)
    ensures
        r as int == sat_i32(trunc_div_1000(a - b)),
{
    let dmm: i128 = a as i128 - b as i128;
    let mag: u128 = if dmm >= 0 {
        dmm as u128
    } else {
        (-dmm) as u128
    };
    let mag_m: u128 = mag / 1000;
    let dm: i128 = if dmm >= 0 {
        mag_m as i128
    } else {
        -(mag_m as i128)
    };
    proof {
        vstd::arithmetic::div_mod::lemma_div_is_ordered(mag as int, u128::MAX as int, 1000);
    }
    if dm > 0x7fff_ffff {
        0x7fff_ffff
    } else if dm < -0x8000_0000 {
        -0x8000_0000
    } else {
        dm as i32
    }
}

/// Clamps a capped accumulator to `u64` for an emitted pace.
fn pace_of(x: u128) -> (r: u64)
    ensures
        r as int == sat_u64(x as int),
{
    if x > 0xffff_ffff_ffff_ffff {
        0xffff_ffff_ffff_ffff
    } else {
        x as u64
    }
}

/// One consecutive pair of the splits walk; see [`split_step_s`].
fn split_step(stp: SplitProgress, splits: &mut Vec<Split>, p: &TrackPoint, q: &TrackPoint) -> (r:
    SplitProgress)
    requires
        p.time <= q.time,
        stp.acc <= ACC_SAT,
        stp.dur <= DUR_SAT,
    ensures
        splits_view(r, final(splits)@) == split_step_s(splits_view(stp, old(splits)@), *p, *q),
        r.acc <= ACC_SAT,
        r.dur <= DUR_SAT,
{
    let d: u64 = distance_with_elevation(p, q);
    proof {
        vstd::arithmetic::div_mod::lemma_div_is_ordered(
            q.time - p.time,
            0xffff_ffff_ffff_ffffint,
            1000,
        );
    }
    let dt: u128 = ((q.time as i128 - p.time as i128) as u128) / 1000;
    let start0: i64 = if stp.acc == 0 {
        p.elevation
    } else {
        stp.start_ele
    };
    let pending: u128 = stp.acc + (d as u128);
    if pending < 1_000_000 {
        let ndur = if stp.dur + dt > DUR_SAT {
            DUR_SAT
        } else {
            stp.dur + dt
        };
        SplitProgress { acc: pending, dur: ndur, start_ele: start0, latest_ele: q.elevation }
    } else if pending == 1_000_000 {
        let ndur = if stp.dur + dt > DUR_SAT {
            DUR_SAT
        } else {
            stp.dur + dt
        };
        let pace = pace_of(ndur);
        let delta_m = mm_delta_to_m_i32(q.elevation, start0);
        splits.push(Split { distance: 1000, pace, elevation_delta: delta_m });
        SplitProgress { acc: 0, dur: 0, start_ele: q.elevation, latest_ele: q.elevation }
    } else {
        let cov: u128 = if stp.acc >= 1_000_000 {
            0
        } else {
            1_000_000 - stp.acc
        };
        proof {
            crate::trig::lemma_muldiv_bound(
                dt as int,
                18_446_744_073_709_551int,
                cov as int,
                1_000_000int,
                if d == 0 {
                    1int
                } else {
                    d as int
                },
            );
        }
        let split_dt: u128 = if d == 0 {
            0
        } else {
            (dt * cov) / (d as u128)
        };
        proof {
            if d != 0 {
                lemma_interp_le(dt as int, cov as int, d as int);
            }
        }
        let b_ele: i64 = interp_elevation(p.elevation, q.elevation, cov, d);
        let ndur = if stp.dur + split_dt > DUR_SAT {
            DUR_SAT
        } else {
            stp.dur + split_dt
        };
        let pace = pace_of(ndur);
        let delta_m = mm_delta_to_m_i32(b_ele, start0);
        splits.push(Split { distance: 1000, pace, elevation_delta: delta_m });
        let nacc: u128 = if pending - 1_000_000 > ACC_SAT {
            ACC_SAT
        } else {
            pending - 1_000_000
        };
        SplitProgress { acc: nacc, dur: dt - split_dt, start_ele: b_ele, latest_ele: q.elevation }
    }
}

/// `(a * n) / d <= a` whenever `n <= d`.
proof fn lemma_interp_le(a: int, n: int, d: int)
    requires
        0 <= a,
        0 <= n <= d,
        0 < d,
    ensures
        0 <= (a * n) / d <= a,
{
    vstd::arithmetic::mul::lemma_mul_upper_bound(a, a, n, d);
    vstd::arithmetic::div_mod::lemma_div_is_ordered(0, a * n, d);
    vstd::arithmetic::div_mod::lemma_div_is_ordered(a * n, a * d, d);
    vstd::arithmetic::div_mod::lemma_div_multiples_vanish(a, d);
    assert(a * d == d * a) by (nonlinear_arith);
}

/// The elevation at the fraction `cov / d` of the way from `pe` to `qe`,
/// rounding the interpolated delta towards zero.
fn interp_elevation(pe: i64, qe: i64, cov: u128, d: u64) -> (r: i64)
    requires
        cov <= d || d == 0,
        cov <= 1_000_000,
    ensures
        r as int == pe + interp_trunc(qe - pe, cov as int, d as int),
{
    if d == 0 {
        return pe;
    }
    let dmm: i128 = qe as i128 - pe as i128;
    let mag: u128 = if dmm >= 0 {
        dmm as u128
    } else {
        (-dmm) as u128
    };
    proof {
        lemma_interp_le(mag as int, cov as int, d as int);
        crate::trig::lemma_muldiv_bound(
            mag as int,
            0xffff_ffff_ffff_ffffint,
            cov as int,
            1_000_000int,
            d as int,
        );
    }
    let imag: u128 = (mag * cov) / (d as u128);
    if dmm >= 0 {
        ((pe as i128) + (imag as i128)) as i64
    } else {
        ((pe as i128) - (imag as i128)) as i64
    }
}

/// Per-kilometre splits of a track, in document order.
pub fn calc_track_splits(track: &Track) -> (splits: Vec<Split>)
    requires
        track.wf(),
    ensures
        splits@ == track_splits_s(track@.route),
{
    let mut splits: Vec<Split> = Vec::new();
    let mut stp = SplitProgress { acc: 0, dur: 0, start_ele: 0, latest_ele: 0 };
    proof {
        assert(splits_view(stp, splits@) =~= splits_init());
    }
    let mut j: usize = 0;
    while j < track.route.len()
        invariant
            track.wf(),
            j <= track.route.len(),
            splits_view(stp, splits@) == splits_track_fold(splits_init(), track@.route, j as int),
            stp.acc <= ACC_SAT,
            stp.dur <= DUR_SAT,
        decreases track.route.len() - j,
    {
        let seg = &track.route[j];
        let mut i: usize = 1;
        proof {
            assert(track@.route[j as int] == seg@);
            assert(sorted_by_time(seg@));
        }
        while i < seg.points.len()
            invariant
                1 <= i,
                i <= seg.points.len() || (seg.points.len() == 0 && i == 1),
                sorted_by_time(seg@),
                splits_view(stp, splits@) == splits_seg_fold(
                    splits_track_fold(splits_init(), track@.route, j as int),
                    seg@,
                    i as int,
                ),
                stp.acc <= ACC_SAT,
                stp.dur <= DUR_SAT,
            decreases seg.points.len() - i,
        {
            proof {
                assert(seg@[i - 1].time <= seg@[i as int].time);
            }
            stp = split_step(stp, &mut splits, &seg.points[i - 1], &seg.points[i]);
            i = i + 1;
        }
        proof {
            if seg.points.len() == 0 {
                assert(splits_seg_fold(
                    splits_track_fold(splits_init(), track@.route, j as int),
                    seg@,
                    0,
                ) == splits_track_fold(splits_init(), track@.route, j as int));
            }
            assert(splits_track_fold(splits_init(), track@.route, j + 1) == splits_seg_fold(
                splits_track_fold(splits_init(), track@.route, j as int),
                seg@,
                seg@.len() as int,
            ));
        }
        j = j + 1;
    }
    if stp.acc >= 100_000 && stp.dur > 0 {
        proof {
            crate::trig::lemma_muldiv_bound(
                stp.dur as int,
                DUR_SAT as int,
                1_000_000int,
                1_000_000int,
                stp.acc as int,
            );
        }
        let pace = pace_of((stp.dur * 1_000_000) / stp.acc);
        let dist_m: u128 = stp.acc / 1000;
        let dist16: u16 = if dist_m > 0xffff {
            0xffff
        } else {
            dist_m as u16
        };
        let delta_m = mm_delta_to_m_i32(stp.latest_ele, stp.start_ele);
        splits.push(Split { distance: dist16, pace, elevation_delta: delta_m });
    }
    splits
}

/// The (maximum, minimum, capped gain) elevation totals over the first
/// `k` points of `s`, continued from `acc`.  Gain adds only the positive
/// elevation changes between consecutive points.
pub open spec fn ele_seg_prefix_from(
    acc: (Option<i64>, Option<i64>, int),
    s: Seq<TrackPoint>,
    k: int,
) -> (Option<i64>, Option<i64>, int)
    decreases k,
{
    if k <= 0 {
        acc
    } else {
        let prev = ele_seg_prefix_from(acc, s, k - 1);
        let e = s[k - 1].elevation;
        let mx = match prev.0 {
            Option::None => Option::Some(e),
            Option::Some(m) => if e > m {
                Option::Some(e)
            } else {
                Option::Some(m)
            },
        };
        let mn = match prev.1 {
            Option::None => Option::Some(e),
            Option::Some(m) => if e < m {
                Option::Some(e)
            } else {
                Option::Some(m)
            },
        };
        let g = if k >= 2 && e > s[k - 2].elevation {
            sat_acc(prev.2 + (e - s[k - 2].elevation))
        } else {
            prev.2
        };
        (mx, mn, g)
    }
}

/// The elevation totals of the first `k` segments.
pub open spec fn ele_track_prefix(r: Seq<Seq<TrackPoint>>, k: int) -> (
    Option<i64>,
    Option<i64>,
    int,
)
    decreases k,
{
    if k <= 0 {
        (Option::None, Option::None, 0)
    } else {
        ele_seg_prefix_from(ele_track_prefix(r, k - 1), r[k - 1], r[k - 1].len() as int)
    }
}

/// The elevation summary of a track: maximum and minimum observed
/// elevation over all points in document order, and the cumulative gain
/// clamped to `u64`.
pub open spec fn track_elevation_s(r: Seq<Seq<TrackPoint>>) -> (Option<i64>, Option<i64>, int) {
    let t = ele_track_prefix(r, r.len() as int);
    (t.0, t.1, sat_u64(t.2))
}

/// Elevation summary of a track: maximum, minimum and cumulative gain.
pub fn calc_track_elevation_stats(track: &Track) -> (r: crate::ElevationStats)
    ensures
        r.max_elevation == track_elevation_s(track@.route).0,
        r.min_elevation == track_elevation_s(track@.route).1,
        r.gain as int == track_elevation_s(track@.route).2,
{
    let mut max_elevation: Option<i64> = None;
    let mut min_elevation: Option<i64> = None;
    let mut gain: u128 = 0;
    let mut j: usize = 0;
    while j < track.route.len()
        invariant
            j <= track.route.len(),
            max_elevation == ele_track_prefix(track@.route, j as int).0,
            min_elevation == ele_track_prefix(track@.route, j as int).1,
            gain as int == ele_track_prefix(track@.route, j as int).2,
            gain <= ACC_SAT,
        decreases track.route.len() - j,
    {
        let seg = &track.route[j];
        let mut i: usize = 0;
        proof {
            assert(track@.route[j as int] == seg@);
        }
        while i < seg.points.len()
            invariant
                i <= seg.points.len(),
                max_elevation == ele_seg_prefix_from(
                    ele_track_prefix(track@.route, j as int),
                    seg@,
                    i as int,
                ).0,
                min_elevation == ele_seg_prefix_from(
                    ele_track_prefix(track@.route, j as int),
                    seg@,
                    i as int,
                ).1,
                gain as int == ele_seg_prefix_from(
                    ele_track_prefix(track@.route, j as int),
                    seg@,
                    i as int,
                ).2,
                gain <= ACC_SAT,
            decreases seg.points.len() - i,
        {
            let e = seg.points[i].elevation;
            max_elevation = match max_elevation {
                None => Some(e),
                Some(m) => if e > m {
                    Some(e)
                } else {
                    Some(m)
                },
            };
            min_elevation = match min_elevation {
                None => Some(e),
                Some(m) => if e < m {
                    Some(e)
                } else {
                    Some(m)
                },
            };
            if i >= 1 {
                let prev_e = seg.points[i - 1].elevation;
                if e > prev_e {
                    let delta: u128 = ((e as i128) - (prev_e as i128)) as u128;
                    gain = if gain + delta > ACC_SAT {
                        ACC_SAT
                    } else {
                        gain + delta
                    };
                }
            }
            i = i + 1;
        }
        j = j + 1;
    }
    let gain64: u64 = if gain > 0xffff_ffff_ffff_ffff {
        0xffff_ffff_ffff_ffff
    } else {
        gain as u64
    };
    crate::ElevationStats { max_elevation, min_elevation, gain: gain64 }
}

proof fn lemma_empty_track_folds(r: Seq<Seq<TrackPoint>>, k: int)
    requires
        forall|j: int| 0 <= j < r.len() ==> (#[trigger] r[j]).len() == 0,
        k <= r.len(),
    ensures
        track_dist_prefix(r, k) == 0,
        track_dur_prefix(r, k) == 0,
        hr_track_prefix(r, k) == (0int, 0int),
        splits_track_fold(splits_init(), r, k) == splits_init(),
        ele_track_prefix(r, k) == (Option::<i64>::None, Option::<i64>::None, 0int),
    decreases k,
{
    if k > 0 {
        lemma_empty_track_folds(r, k - 1);
    }
}

/// A track without points has distance 0, duration 0, average heart rate
/// 0, no splits, and no elevation data.
pub proof fn lemma_empty_track_stats(r: Seq<Seq<TrackPoint>>)
    requires
        forall|j: int| 0 <= j < r.len() ==> (#[trigger] r[j]).len() == 0,
    ensures
        track_distance_s(r) == 0,
        track_duration_s(r) == 0,
        track_avg_hr_s(r) == 0,
        track_splits_s(r) == Seq::<Split>::empty(),
        track_elevation_s(r) == (Option::<i64>::None, Option::<i64>::None, 0int),
{
    lemma_empty_track_folds(r, r.len() as int);
}

} // verus!
