use carry_costs::calendar::{eastern_date, weekday_of, CivilDate};
use carry_costs::rollover::{
    cfd_roll_instants_ns, roll_step, roll_time_ns, unix_ns, RollStep, LAST_ROLL_NS,
};

const HOUR: u64 = 3_600_000_000_000;
const DAY: u64 = 24 * HOUR;

fn date(year: i16, month: i8, day: i8) -> CivilDate {
    CivilDate { year, month, day }
}

#[test]
fn test_roll_instants_skip_the_weekend() {
    // 2024-03-04 (Mon) 00:00 UTC through 2024-03-12 (Tue) 00:00 UTC.
    let start = 1_709_510_400_000_000_000_u64;
    let end = 1_710_201_600_000_000_000_u64;
    let instants = cfd_roll_instants_ns(start, end);
    assert_eq!(instants.len(), 6);
    assert!(instants.windows(2).all(|w| w[0] < w[1]));
}

#[test]
fn test_roll_time_tracks_us_dst() {
    // 2024-03-09 is EST (UTC-5) -> 22:00 UTC; 2024-03-11 is EDT (UTC-4) -> 21:00 UTC.
    let est = roll_time_ns(date(2024, 3, 9)).unwrap();
    let edt = roll_time_ns(date(2024, 3, 11)).unwrap();
    assert_eq!(est % 86_400_000_000_000, 22 * 3_600_000_000_000);
    assert_eq!(edt % 86_400_000_000_000, 21 * 3_600_000_000_000);
}

#[test]
fn test_roll_instants_before_first_rollover_are_empty() {
    for (start_ns, end_ns) in [
        (0, 0),
        (1, 1),
        (0, 17_999_999_999_999),
        (17_999_999_999_999, 17_999_999_999_999),
    ] {
        assert!(cfd_roll_instants_ns(start_ns, end_ns).is_empty());
    }
}

#[test]
fn test_roll_instants_from_epoch_start_at_first_representable_rollover() {
    // 1969-12-31 17:00 ET predates the epoch, so the first instant is 1970-01-01 17:00 ET.
    let instants = cfd_roll_instants_ns(0, 200_000_000_000_000);
    assert_eq!(instants, vec![79_200_000_000_000, 165_600_000_000_000]);
}

#[test]
fn test_roll_time_ns_is_none_before_the_epoch() {
    assert!(roll_time_ns(date(1969, 12, 31)).is_none());
    assert_eq!(roll_time_ns(date(1970, 1, 1)), Some(79_200_000_000_000));
}

#[test]
fn roll_times_end_with_the_last_nanosecond() {
    assert_eq!(roll_time_ns(date(2554, 7, 21)), Some(LAST_ROLL_NS));
    assert_eq!(roll_time_ns(date(2554, 7, 22)), None);
    assert_eq!(roll_time_ns(date(9999, 12, 30)), None);
    assert_eq!(roll_time_ns(date(-9999, 1, 2)), None);
}

#[test]
fn the_window_includes_its_start_and_not_its_end() {
    let first = 79_200_000_000_000;
    let second = 165_600_000_000_000;
    assert_eq!(cfd_roll_instants_ns(first, second), vec![first]);
    assert_eq!(cfd_roll_instants_ns(first + 1, second + 1), vec![second]);
    assert!(cfd_roll_instants_ns(second, first).is_empty());
    // The last rollover is on a Sunday.
    let last_friday = LAST_ROLL_NS - 2 * DAY;
    assert_eq!(cfd_roll_instants_ns(last_friday, LAST_ROLL_NS), vec![last_friday]);
    assert!(cfd_roll_instants_ns(last_friday + 1, LAST_ROLL_NS).is_empty());
}

#[test]
fn an_instant_has_the_date_of_new_york() {
    assert_eq!(eastern_date(0), date(1969, 12, 31));
    assert_eq!(eastern_date(5 * HOUR - 1), date(1969, 12, 31));
    assert_eq!(eastern_date(5 * HOUR), date(1970, 1, 1));
    // 2024-02-29 23:00 EST.
    assert_eq!(eastern_date(1_709_265_600_000_000_000), date(2024, 2, 29));
    assert_eq!(eastern_date(u64::MAX), date(2554, 7, 21));
}

#[test]
fn weekdays_are_numbered_from_monday() {
    assert_eq!(weekday_of(date(1970, 1, 1)), 4);
    assert_eq!(weekday_of(date(1969, 12, 31)), 3);
    assert_eq!(weekday_of(date(2024, 2, 29)), 4);
    assert_eq!(weekday_of(date(2024, 3, 3)), 7);
    assert_eq!(weekday_of(date(2024, 3, 4)), 1);
}

#[test]
fn every_rollover_is_at_the_eastern_hour() {
    let instants = cfd_roll_instants_ns(0, LAST_ROLL_NS);
    // Five nights in seven, over every day before the last one.
    assert_eq!(instants.len(), 152_502);
    for instant in &instants {
        let hour = instant % DAY;
        assert!(hour == 21 * HOUR || hour == 22 * HOUR);
    }
    for pair in instants.windows(2) {
        let gap = pair[1] - pair[0];
        assert!(gap >= 23 * HOUR && gap <= 3 * DAY + HOUR);
    }
}

#[test]
fn daylight_saving_follows_the_rule_of_2007() {
    let summer = |y, m, d| roll_time_ns(date(y, m, d)).unwrap() % DAY == 21 * HOUR;
    for (year, march, november) in [(2007, 11, 4), (2024, 10, 3), (2026, 8, 1), (2037, 8, 1), (2500, 14, 7)] {
        assert!(!summer(year, 3, march - 1));
        assert!(summer(year, 3, march));
        assert!(summer(year, 10, 31));
        assert!(november == 1 || summer(year, 11, november - 1));
        assert!(!summer(year, 11, november));
    }
    // The earlier rule.
    assert!(!summer(2006, 4, 1));
    assert!(summer(2006, 4, 2));
}

#[test]
fn a_rollover_is_placed_against_the_window() {
    assert_eq!(roll_step(None, 1, 0, 10), RollStep::Pass);
    assert_eq!(roll_step(Some(4), 1, 5, 10), RollStep::Pass);
    assert_eq!(roll_step(Some(5), 1, 5, 10), RollStep::Charge(5));
    assert_eq!(roll_step(Some(5), 6, 5, 10), RollStep::Pass);
    assert_eq!(roll_step(Some(5), 7, 5, 10), RollStep::Pass);
    assert_eq!(roll_step(Some(10), 7, 5, 10), RollStep::Stop);
}

#[test]
fn instants_out_of_range_have_no_nanoseconds() {
    assert_eq!(unix_ns(-1), None);
    assert_eq!(unix_ns(0), Some(0));
    assert_eq!(unix_ns(u64::MAX as i128), Some(u64::MAX));
    assert_eq!(unix_ns(u64::MAX as i128 + 1), None);
}

#[test]
fn two_windows_list_what_the_whole_window_lists() {
    let start = 1_709_510_400_000_000_000_u64;
    let end = start + 20 * 86_400_000_000_000;
    let whole = cfd_roll_instants_ns(start, end);
    for middle in [start, start + 79_200_000_000_000, start + 79_200_000_000_001, end] {
        let mut parts = cfd_roll_instants_ns(start, middle);
        parts.extend(cfd_roll_instants_ns(middle, end));
        assert_eq!(parts, whole);
    }
}

#[test]
fn a_window_may_end_after_the_last_rollover() {
    // Friday 2554-07-19 is the last weekday whose rollover is counted; the last day is a Sunday.
    let friday = 18_446_562_000_000_000_000_u64;
    let instants = cfd_roll_instants_ns(friday - 86_400_000_000_000, u64::MAX);
    assert_eq!(instants, vec![friday - 86_400_000_000_000, friday]);
    assert!(cfd_roll_instants_ns(friday + 1, u64::MAX).is_empty());
    assert!(cfd_roll_instants_ns(u64::MAX, u64::MAX).is_empty());
    let long = cfd_roll_instants_ns(i64::MAX as u64, u64::MAX);
    assert_eq!(long.last(), Some(&friday));
    assert!(long.windows(2).all(|w| w[0] < w[1]));
}
