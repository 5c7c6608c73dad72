use runstats::formatter::{format_duration, format_time};

#[test]
fn test_format_time() {
    let time: u64 = 35;
    assert_eq!(format_time(time), "0:35");

    let time: u64 = time + 60 * 23;
    assert_eq!(format_time(time), "23:35");

    let time: u64 = time + 3600 * 11;
    assert_eq!(format_time(time), "11:23:35");

    let time: u64 = time + 60 * 60 * 24 * 4;
    assert_eq!(format_time(time), "4d 11:23:35");
}

#[test]
fn test_format_duration() {
    let duration_ms: u64 = (3 * 24 * 60 * 60 + 5 * 60 * 60 + 4 * 60 + 15) * 1000;
    assert_eq!(format_duration(duration_ms), "3d 5:4:15");
}

#[test]
fn format_time_zero() {
    assert_eq!(format_time(0), "0:0");
}

#[test]
fn format_duration_truncates_milliseconds() {
    assert_eq!(format_duration(61_999), "1:1");
}
