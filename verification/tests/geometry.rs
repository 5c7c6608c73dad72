use runstats::geom::{distance, distance_with_elevation};
use runstats::TrackPoint;

#[test]
fn test_zero_distance() {
    assert_eq!(distance(0, 0, 0, 0), 0);
}

/// Moscow to Saint Petersburg, expected within one metre.
#[test]
fn test_distance_between_cities() {
    let dist_mm = distance(55_755_826_000, 37_617_300_000, 59_934_280_200, 30_335_098_600);
    let expected_mm: i64 = 633_016_490;
    assert!((dist_mm as i64 - expected_mm).abs() <= 1000);
}

#[test]
fn distance_is_symmetric() {
    let d1 = distance(55_755_826_000, 37_617_300_000, 59_934_280_200, 30_335_098_600);
    let d2 = distance(59_934_280_200, 30_335_098_600, 55_755_826_000, 37_617_300_000);
    assert_eq!(d1, d2);
}

#[test]
fn distance_to_self_is_zero() {
    assert_eq!(distance(55_755_826_000, 37_617_300_000, 55_755_826_000, 37_617_300_000), 0);
    let p = TrackPoint::from_coordinates(-33_868_800_000, 151_209_300_000);
    assert_eq!(distance_with_elevation(&p, &p), 0);
}

/// An elevation difference equal to the horizontal distance stretches the
/// pair distance by the square root of two.
#[test]
fn elevation_equal_to_horizontal_gives_sqrt2() {
    let p1 = TrackPoint::from_coordinates(1_000_000_000, 1_000_000_000);
    let mut p2 = TrackPoint::from_coordinates(2_000_000_000, 1_000_000_000);
    let d = distance(p1.latitude, p1.longitude, p2.latitude, p2.longitude);
    p2.elevation = d as i64;
    let pair = distance_with_elevation(&p1, &p2);
    let expected = ((d as f64) * 2f64.sqrt()) as u64;
    assert!((pair as i64 - expected as i64).abs() <= 1);
}

#[test]
fn antipodal_points_are_half_a_circumference_apart() {
    let d = distance(0, 0, 0, 180_000_000_000);
    let half_circumference: i64 = 20_015_114_442;
    assert!((d as i64 - half_circumference).abs() <= 1000);
}

#[test]
fn one_longitude_degree_at_equator() {
    let d = distance(0, 100_000_000_000, 0, 101_000_000_000);
    let expected: i64 = 111_194_926;
    assert!((d as i64 - expected).abs() <= 1000);
}
