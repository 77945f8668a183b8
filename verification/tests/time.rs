//! Points in time and their ages.

use chrono::{DateTime, Duration, TimeZone, Utc};
use mission_control::time::{
    age_label, first_reading, now, parse_timestamp, relative_age, Timestamp, FIRST_SECOND,
    LAST_SECOND,
};

fn stamp(t: DateTime<Utc>) -> Timestamp {
    Timestamp::new(t.timestamp(), t.timestamp_subsec_nanos()).unwrap()
}

#[test]
fn relative_ages() {
    let now = Utc.with_ymd_and_hms(2026, 7, 6, 12, 0, 0).unwrap();
    let cases = [
        (now - Duration::seconds(20), "now"),
        (now - Duration::minutes(5), "5m"),
        (now - Duration::hours(2), "2h"),
        (now - Duration::days(3), "3d"),
    ];
    for (updated, expected) in cases {
        assert_eq!(relative_age(stamp(updated), stamp(now)), expected);
    }
}

#[test]
fn ages_change_unit_at_the_hour_and_the_day() {
    assert_eq!(age_label(-5), "now");
    assert_eq!(age_label(59), "now");
    assert_eq!(age_label(60), "1m");
    assert_eq!(age_label(3599), "59m");
    assert_eq!(age_label(3600), "1h");
    assert_eq!(age_label(86_399), "23h");
    assert_eq!(age_label(86_400), "1d");
    assert_eq!(age_label(86_400 * 400), "400d");
}

#[test]
fn ages_round_toward_zero() {
    let at = |seconds: i64, nanos: u32| Timestamp::new(seconds, nanos).unwrap();
    assert_eq!(relative_age(at(0, 1), at(60, 0)), "now");
    assert_eq!(relative_age(at(0, 0), at(60, 0)), "1m");
    // The future has no age.
    assert_eq!(relative_age(at(7200, 0), at(0, 0)), "now");
}

#[test]
fn a_leap_second_counts_once_the_day_passes_it() {
    // 1972-06-30T23:59:60 UTC, held as the last second of the minute.
    let leap = Timestamp::new(78_796_799, 1_500_000_000).unwrap();
    let after = Timestamp::new(78_796_799 + 60, 500_000_000).unwrap();
    assert_eq!(relative_age(leap, after), "now");
    let later = Timestamp::new(78_796_799 + 61, 500_000_000).unwrap();
    assert_eq!(relative_age(leap, later), "1m");
    assert!(Timestamp::new(78_796_798, 1_500_000_000).is_none());
}

#[test]
fn timestamps_hold_what_the_calendar_holds() {
    assert!(Timestamp::new(FIRST_SECOND, 0).is_some());
    assert!(Timestamp::new(FIRST_SECOND - 1, 0).is_none());
    assert!(Timestamp::new(LAST_SECOND, 999_999_999).is_some());
    assert!(Timestamp::new(LAST_SECOND + 1, 0).is_none());
    assert!(Timestamp::new(0, 1_000_000_000).is_none());
    assert_eq!(DateTime::<Utc>::MIN_UTC.timestamp(), FIRST_SECOND);
    assert_eq!(DateTime::<Utc>::MAX_UTC.timestamp(), LAST_SECOND);
    let t = Timestamp::new(-7, 5).unwrap();
    assert_eq!((t.seconds(), t.nanos()), (-7, 5));
}

#[test]
fn stored_timestamps_come_in_three_forms() {
    let expected = stamp(Utc.with_ymd_and_hms(2026, 7, 6, 10, 0, 0).unwrap());
    assert_eq!(parse_timestamp("2026-07-06T10:00:00Z"), Some(expected));
    assert_eq!(parse_timestamp("2026-07-06T12:00:00+02:00"), Some(expected));
    assert_eq!(parse_timestamp("2026-07-06T10:00:00"), Some(expected));
    assert_eq!(parse_timestamp("2026-07-06 10:00:00"), Some(expected));
    let half = parse_timestamp("2026-07-06 10:00:00.5").unwrap();
    assert_eq!(half.nanos(), 500_000_000);
    assert_eq!(parse_timestamp("bogus"), None);
    assert_eq!(parse_timestamp(""), None);
}

#[test]
fn the_first_reading_wins() {
    let a = Some((1, 1));
    let b = Some((2, 2));
    let c = Some((3, 3));
    assert_eq!(first_reading(a, b, c), a);
    assert_eq!(first_reading(None, b, c), b);
    assert_eq!(first_reading(None, None, c), c);
    assert_eq!(first_reading(None, None, None), None);
}

#[test]
fn timestamps_are_written_in_utc() {
    let t = parse_timestamp("2026-07-06T12:30:15.25+02:00").unwrap();
    assert_eq!(t.to_rfc3339(), "2026-07-06T10:30:15.250+00:00");
    assert_eq!(t.month(), "2026-07");
    assert_eq!(parse_timestamp(&t.to_rfc3339()), Some(t));
}

#[test]
fn the_clock_has_started() {
    assert!(now().seconds() > 1_700_000_000);
}
