use runstats::geom::distance;
use runstats::stats::{
    calc_track_average_heart_rate, calc_track_distance, calc_track_duration,
    calc_track_elevation_stats, calc_track_splits,
};
use runstats::trig::isqrt_u128;
use runstats::{Track, TrackPoint, TrackSegment};

fn track_of(points: Vec<TrackPoint>) -> Track {
    let mut track = Track::new();
    track.route.push(TrackSegment { points });
    track
}

fn new_point_at(time_s: i64, heart_rate: u8) -> TrackPoint {
    let mut p = TrackPoint::new();
    p.time = time_s * 1000;
    p.heart_rate = heart_rate;
    p
}

#[test]
fn test_multipoint_distance() {
    let points = vec![
        TrackPoint::from_coordinates(1_000_000_000, 2_000_000_000),
        TrackPoint::from_coordinates(1_500_000_000, 2_100_000_000),
        TrackPoint::from_coordinates(1_800_000_000, 2_200_000_000),
    ];
    let d1 = distance(
        points[0].latitude,
        points[0].longitude,
        points[1].latitude,
        points[1].longitude,
    );
    let d2 = distance(
        points[1].latitude,
        points[1].longitude,
        points[2].latitude,
        points[2].longitude,
    );
    let total = (d1 + d2) / 1000;

    let track = track_of(points);
    assert_eq!(calc_track_distance(&track), total);
}

#[test]
fn test_calc_track_distance_with_elevation() {
    let point1 = TrackPoint::from_coordinates(1_000_000_000, 1_000_000_000);
    let mut point2 = TrackPoint::from_coordinates(2_000_000_000, 1_000_000_000);

    // Make the elevation difference equal to the horizontal distance, so
    // the pair distance becomes sqrt(2) times the horizontal one.
    let dist = distance(point1.latitude, point1.longitude, point2.latitude, point2.longitude);
    point2.elevation = dist as i64;

    let track = track_of(vec![point1, point2]);

    let expected_mm = isqrt_u128(2 * (dist as u128) * (dist as u128));
    assert_eq!(calc_track_distance(&track), expected_mm / 1000);
}

#[test]
fn test_calc_track_duration_10_points() {
    let mut points = Vec::with_capacity(10);
    let step_sec: i64 = 3;
    let offset_sec: i64 = 100;
    for i in 0..10i64 {
        let mut point = TrackPoint::new();
        point.time = (offset_sec + step_sec * i) * 1000;
        points.push(point);
    }
    let track = track_of(points);
    assert_eq!(calc_track_duration(&track), 27_000);
}

#[test]
fn test_calc_track_duration_1_point() {
    let mut point = TrackPoint::new();
    point.time = 123_456_000;
    let track = track_of(vec![point]);
    assert_eq!(calc_track_duration(&track), 0);
}

#[test]
fn test_calc_track_duration_2_same_point() {
    let mut a = TrackPoint::new();
    a.time = 123_456_000;
    let mut b = TrackPoint::new();
    b.time = 123_456_000;
    let track = track_of(vec![a, b]);
    assert_eq!(calc_track_duration(&track), 0);
}

#[test]
fn test_calc_track_average_heartrate() {
    let track = track_of(vec![new_point_at(100, 100), new_point_at(110, 110)]);
    assert_eq!(calc_track_average_heart_rate(&track), 105);
}

#[test]
fn test_calc_track_average_heartrate_multi_segment() {
    let mut track = Track::new();
    track.route.push(TrackSegment { points: vec![new_point_at(100, 100), new_point_at(110, 110)] });
    track.route.push(TrackSegment { points: vec![new_point_at(120, 120), new_point_at(130, 130)] });
    assert_eq!(calc_track_average_heart_rate(&track), 115);
}

#[test]
fn average_heartrate_skips_missing_samples() {
    let track = track_of(vec![new_point_at(100, 0), new_point_at(110, 0)]);
    assert_eq!(calc_track_average_heart_rate(&track), 0);
}

#[test]
fn test_calc_track_splits() {
    // Five points along the equator at nominal-kilometre offsets of
    // 0, 1, 1.5, 2.5 and 3.5 from longitude 100, all at 100 m elevation.
    let lons: [i64; 5] = [
        100_000_000_000,
        100_008_993_203,
        100_013_489_805,
        100_022_483_009,
        100_031_476_212,
    ];
    let times_s: [i64; 5] = [100, 500, 700, 1050, 1350];
    let mut points = Vec::new();
    for i in 0..5 {
        let mut p = TrackPoint::from_coordinates(0, lons[i]);
        p.elevation = 100_000;
        p.time = times_s[i] * 1000;
        points.push(p);
    }
    let track = track_of(points);

    let splits = calc_track_splits(&track);
    assert_eq!(splits.len(), 4);

    assert!((splits[0].distance as i32 - 1000).abs() <= 2);
    assert!((splits[0].pace as i32 - 400).abs() <= 2);
    assert_eq!(splits[0].elevation_delta, 0);

    assert!((splits[1].distance as i32 - 1000).abs() <= 2);
    assert!((splits[1].pace as i32 - 375).abs() <= 2);
    assert_eq!(splits[1].elevation_delta, 0);

    assert!((splits[2].distance as i32 - 1000).abs() <= 2);
    assert!((splits[2].pace as i32 - 325).abs() <= 2);
    assert_eq!(splits[2].elevation_delta, 0);

    assert!((splits[3].distance as i32 - 500).abs() <= 2);
    assert!((splits[3].pace as i32 - 300).abs() <= 2);
    assert_eq!(splits[3].elevation_delta, 0);
}

#[test]
fn splits_shorter_than_threshold_are_discarded() {
    // Two points 50 m apart: no split at all.
    let mut a = TrackPoint::from_coordinates(0, 100_000_000_000);
    a.time = 100_000;
    let mut b = TrackPoint::from_coordinates(0, 100_000_449_660);
    b.time = 130_000;
    let track = track_of(vec![a, b]);
    assert_eq!(calc_track_splits(&track).len(), 0);
}

#[test]
fn empty_track_has_zero_statistics() {
    let track = Track::new();
    assert_eq!(calc_track_distance(&track), 0);
    assert_eq!(calc_track_duration(&track), 0);
    assert_eq!(calc_track_average_heart_rate(&track), 0);
    assert_eq!(calc_track_splits(&track).len(), 0);
    let ele = calc_track_elevation_stats(&track);
    assert_eq!(ele.max_elevation, None);
    assert_eq!(ele.min_elevation, None);
    assert_eq!(ele.gain, 0);
}

#[test]
fn elevation_stats_track_max_min_and_gain() {
    let mut points = Vec::new();
    let elevations_mm: [i64; 5] = [100_000, 150_000, 120_000, 180_000, 90_000];
    for (i, e) in elevations_mm.iter().enumerate() {
        let mut p = TrackPoint::new();
        p.time = (i as i64) * 1000;
        p.elevation = *e;
        points.push(p);
    }
    let track = track_of(points);
    let ele = calc_track_elevation_stats(&track);
    assert_eq!(ele.max_elevation, Some(180_000));
    assert_eq!(ele.min_elevation, Some(90_000));
    // Gains: +50 m and +60 m; descents contribute nothing.
    assert_eq!(ele.gain, 110_000);
}

#[test]
fn elevation_gain_does_not_cross_segments() {
    let mut track = Track::new();
    let mut a = TrackPoint::new();
    a.elevation = 100_000;
    let mut b = TrackPoint::new();
    b.elevation = 500_000;
    track.route.push(TrackSegment { points: vec![a] });
    track.route.push(TrackSegment { points: vec![b] });
    let ele = calc_track_elevation_stats(&track);
    assert_eq!(ele.gain, 0);
    assert_eq!(ele.max_elevation, Some(500_000));
    assert_eq!(ele.min_elevation, Some(100_000));
}

#[test]
fn duration_ignores_gaps_between_segments() {
    let mut track = Track::new();
    track.route.push(TrackSegment { points: vec![new_point_at(100, 0), new_point_at(110, 0)] });
    track.route.push(TrackSegment { points: vec![new_point_at(500, 0), new_point_at(512, 0)] });
    assert_eq!(calc_track_duration(&track), 22_000);
}

#[test]
fn track_methods_match_free_functions() {
    let track = track_of(vec![new_point_at(100, 100), new_point_at(110, 110)]);
    assert_eq!(track.distance(), calc_track_distance(&track));
    assert_eq!(track.duration(), calc_track_duration(&track));
    assert_eq!(track.avg_heart_rate(), calc_track_average_heart_rate(&track));
    assert_eq!(track.splits(), calc_track_splits(&track));
    assert_eq!(track.elevation_stats(), calc_track_elevation_stats(&track));
}
