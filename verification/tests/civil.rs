use lib::civil::{
    civil_from_days, days_from_civil, days_in_month, epoch_seconds, unix_seconds, weekday,
    CivilTime, SECONDS_A_DAY,
};
use std::time::{Duration, UNIX_EPOCH};

fn at(year: i64, month: u32, day: u32, hour: u32, minute: u32, second: u32) -> CivilTime {
    CivilTime::new(year, month, day, hour, minute, second).expect("a real moment")
}

#[test]
fn known_moments_are_their_seconds_since_the_epoch_both_ways() {
    let known = [
        (at(1970, 1, 1, 0, 0, 0), 0),
        (at(1994, 11, 6, 8, 49, 37), 784_111_777),
        (at(2000, 2, 29, 1, 1, 1), 951_782_400 + 3_661),
        (at(2020, 9, 13, 12, 26, 40), 1_600_000_000),
        (at(2024, 2, 29, 0, 0, 0), 1_709_164_800),
        (at(2027, 1, 15, 8, 0, 0), 1_800_000_000),
        (at(1969, 12, 31, 23, 59, 59), -1),
        (at(1900, 3, 1, 0, 0, 0), -2_203_891_200),
    ];
    for (moment, seconds) in known {
        assert_eq!(moment.unix(), seconds, "{moment:?}");
        assert_eq!(CivilTime::from_unix(seconds), moment, "{seconds}");
    }
}

#[test]
fn every_day_for_eight_centuries_reads_back_as_itself() {
    let first = days_from_civil(1600, 1, 1);
    let last = days_from_civil(2400, 12, 31);
    let mut previous = civil_from_days(first - 1);
    for days in first..=last {
        let (year, month, day) = civil_from_days(days);
        assert_eq!(days_from_civil(year, month, day), days);
        assert!(day <= days_in_month(year, month));
        assert!((year, month, day) > previous);
        previous = (year, month, day);
    }
}

#[test]
fn a_field_out_of_its_range_is_no_moment() {
    assert!(CivilTime::new(2027, 13, 15, 8, 0, 0).is_none());
    assert!(CivilTime::new(2027, 2, 29, 8, 0, 0).is_none());
    assert!(CivilTime::new(2028, 2, 29, 8, 0, 0).is_some());
    assert!(CivilTime::new(1900, 2, 29, 0, 0, 0).is_none());
    assert!(CivilTime::new(2000, 2, 29, 0, 0, 0).is_some());
    assert!(CivilTime::new(2027, 4, 31, 0, 0, 0).is_none());
    assert!(CivilTime::new(2027, 1, 0, 0, 0, 0).is_none());
    assert!(CivilTime::new(2027, 1, 1, 24, 0, 0).is_none());
    assert!(CivilTime::new(2027, 1, 1, 0, 60, 0).is_none());
    assert!(CivilTime::new(2016, 12, 31, 23, 59, 60).is_some());
    assert!(CivilTime::new(2016, 12, 31, 23, 59, 61).is_none());
}

#[test]
fn the_epoch_was_a_thursday_and_rfc_3339_is_written_whole_seconds() {
    assert_eq!(weekday(0), 3);
    assert_eq!(at(1994, 11, 6, 8, 49, 37).weekday(), 6, "a Sunday");
    assert_eq!(at(2026, 9, 24, 0, 0, 0).weekday(), 3, "a Thursday");
    assert_eq!(weekday(-1), 2);
    assert_eq!(at(2026, 9, 10, 12, 0, 0).rfc3339(), "2026-09-10T12:00:00Z");
    let before = UNIX_EPOCH
        .checked_sub(Duration::from_secs(5))
        .expect("earlier");
    assert_eq!(CivilTime::from_system_time(before), at(1970, 1, 1, 0, 0, 0));
    assert!(CivilTime::now().year >= 2026);
}

#[test]
fn a_leap_second_is_the_second_after_it_and_years_are_padded() {
    let leap = at(2016, 12, 31, 23, 59, 60);
    assert_eq!(leap.unix(), at(2017, 1, 1, 0, 0, 0).unix());
    assert_eq!(CivilTime::from_unix(leap.unix()), at(2017, 1, 1, 0, 0, 0));
    assert_eq!(at(33, 4, 3, 9, 5, 7).rfc3339(), "0033-04-03T09:05:07Z");
    assert_eq!(at(-5, 1, 1, 0, 0, 0).rfc3339(), "-005-01-01T00:00:00Z");
    assert_eq!(at(12345, 1, 1, 0, 0, 0).rfc3339(), "12345-01-01T00:00:00Z");
    assert_eq!(days_in_month(2024, 2), 29);
    assert_eq!(days_in_month(2024, 13), 0);
    assert_eq!(SECONDS_A_DAY, 86_400);
}

#[test]
fn the_clock_reading_is_taken_whole_seconds_and_never_below_zero() {
    assert_eq!(epoch_seconds(None), 0);
    assert_eq!(epoch_seconds(Some(42)), 42);
    assert_eq!(epoch_seconds(Some(u64::MAX)), 0);
    let later = UNIX_EPOCH + Duration::from_millis(2_500);
    assert_eq!(unix_seconds(later), 2);
    assert_eq!(CivilTime::from_system_time(later), at(1970, 1, 1, 0, 0, 2));
}

#[test]
fn day_numbers_count_from_the_epoch_and_read_back_far_out() {
    assert_eq!(days_from_civil(1970, 1, 1), 0);
    assert_eq!(days_from_civil(2000, 3, 1), 11_017);
    assert_eq!(civil_from_days(11_017), (2000, 3, 1));
    for (year, month, day) in [
        (1_000_000_000, 12, 31),
        (-1_000_000_000, 1, 1),
        (-4, 2, 29),
        (0, 2, 29),
    ] {
        let days = days_from_civil(year, month, day);
        assert_eq!(civil_from_days(days), (year, month, day));
        assert!(civil_from_days(days + 1) > (year, month, day));
    }
}

#[test]
fn moments_far_out_keep_their_order_and_read_back() {
    let late = at(1_000_000_000, 12, 31, 23, 59, 59);
    let early = at(-1_000_000_000, 1, 1, 0, 0, 0);
    assert!(early.unix() < late.unix());
    assert_eq!(CivilTime::from_unix(late.unix()), late);
    assert_eq!(CivilTime::from_unix(early.unix()), early);
    let leap = at(2016, 12, 31, 23, 59, 60);
    assert_eq!(leap.unix(), at(2016, 12, 31, 23, 59, 59).unix() + 1);
}
