use pii_eval::timestamp::{days_to_ymd, filename_ts, format_elapsed, is_leap, iso8601, secs_to_parts};

#[test]
fn epoch_is_first_of_january_1970() {
    assert_eq!(iso8601(0), "1970-01-01T00:00:00Z");
    assert_eq!(filename_ts(0), "1970-01-01_00_00_00");
    assert_eq!(days_to_ymd(0), (1970, 1, 1));
}

#[test]
fn leap_years_follow_the_gregorian_rule() {
    assert!(is_leap(2000));
    assert!(is_leap(2024));
    assert!(!is_leap(1900));
    assert!(!is_leap(2023));
}

#[test]
fn days_map_to_dates() {
    assert_eq!(days_to_ymd(31), (1970, 2, 1));
    assert_eq!(days_to_ymd(365), (1971, 1, 1));
    // 2000-02-29 is day 11016 after the epoch
    assert_eq!(days_to_ymd(11016), (2000, 2, 29));
    assert_eq!(days_to_ymd(11017), (2000, 3, 1));
}

#[test]
fn seconds_map_to_date_and_time() {
    // 2026-05-07T10:00:00Z
    assert_eq!(iso8601(1_778_148_000), "2026-05-07T10:00:00Z");
    assert_eq!(filename_ts(1_778_148_000 + 3_723), "2026-05-07_11_02_03");
    assert_eq!(secs_to_parts(86_399), (1970, 1, 1, 23, 59, 59));
}

#[test]
fn elapsed_time_is_hours_minutes_seconds() {
    assert_eq!(format_elapsed(0), "00:00:00");
    assert_eq!(format_elapsed(3_661), "01:01:01");
    assert_eq!(format_elapsed(360_000), "100:00:00");
}
