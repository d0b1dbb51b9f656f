use swath::time::{
    civil_from_days, days_from_civil, hms, is_leap, iso8601, month_day, unix_from_utc,
};

#[test]
fn leap_years_follow_the_calendar() {
    assert!(is_leap(2024));
    assert!(is_leap(2000));
    assert!(!is_leap(1900));
    assert!(!is_leap(2023));
}

#[test]
fn the_day_of_the_year_names_a_date() {
    assert_eq!(month_day(2023, 1), Some((1, 1)));
    assert_eq!(month_day(2023, 60), Some((3, 1)));
    assert_eq!(month_day(2024, 60), Some((2, 29)));
    assert_eq!(month_day(2024, 366), Some((12, 31)));
    assert_eq!(month_day(2023, 366), None);
    assert_eq!(month_day(2023, 0), None);
}

#[test]
fn days_are_counted_from_the_epoch() {
    assert_eq!(days_from_civil(1970, 1, 1), 0);
    assert_eq!(days_from_civil(2000, 3, 1), 11017);
    assert_eq!(days_from_civil(1969, 12, 31), -1);
}

#[test]
fn a_date_and_its_day_count_agree() {
    let mut day: i64 = -800_000;
    while day < 800_000 {
        let (y, m, d) = civil_from_days(day);
        assert_eq!(days_from_civil(y, m, d), day);
        day += 373;
    }
}

#[test]
fn an_instant_is_seconds_since_the_epoch() {
    assert_eq!(unix_from_utc(2024, 2, 29, 12, 34, 56), 1709210096);
    assert_eq!(unix_from_utc(1970, 1, 1, 0, 0, 0), 0);
}

#[test]
fn durations_and_instants_are_written_out() {
    assert_eq!(hms(0), "00:00:00");
    assert_eq!(hms(3661), "01:01:01");
    assert_eq!(hms(360_000), "100:00:00");
    assert_eq!(iso8601(0, 0), "1970-01-01T00:00:00Z");
    assert_eq!(iso8601(1709210096, 7_000_000), "2024-02-29T12:34:56.007Z");
    assert_eq!(iso8601(1_000_000_000, 0), "2001-09-09T01:46:40Z");
    assert_eq!(iso8601(0, 999_600_000), "1970-01-01T00:00:01.000Z");
    assert_eq!(iso8601(86399, 999_999_999), "1970-01-02T00:00:00.000Z");
    assert_eq!(iso8601(0, 1), "1970-01-01T00:00:00.000Z");
    assert_eq!(iso8601(-1, 250_000_000), "1969-12-31T23:59:59.250Z");
    assert_eq!(iso8601(-1, 0), "1969-12-31T23:59:59Z");
}
