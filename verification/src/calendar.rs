//! Civil dates and the Eastern rollover clock.

use vstd::prelude::*;

verus! {

/// The time zone of the broker rollover.
pub const EASTERN: &'static str = "America/New_York";

/// Local hour of the broker rollover.
pub const ROLLOVER_HOUR: i8 = 17;

/// Nanoseconds in an hour.
pub const HOUR_NS: i128 = 3_600_000_000_000;

/// Nanoseconds in a day.
pub const DAY_NS: i128 = 86_400_000_000_000;

/// A date of the proleptic Gregorian calendar.
///
/// Its view is the number of days since 1970-01-01.
#[derive(Debug, Clone, Copy, PartialEq, Eq, Structural)]
pub struct CivilDate {
    pub year: i16,
    pub month: i8,
    pub day: i8,
}

/// Whether `year` has a 29th of February.
pub open spec fn leap_year(year: int) -> bool {
    year % 4 == 0 && (year % 100 != 0 || year % 400 == 0)
}

/// The number of days in a month.
pub open spec fn month_length(year: int, month: int) -> int {
    if month == 2 {
        if leap_year(year) { 29 } else { 28 }
    } else if month == 4 || month == 6 || month == 9 || month == 11 {
        30
    } else {
        31
    }
}

/// The number of days of `year` before the first of `month`.
pub open spec fn days_before_month(year: int, month: int) -> int
    decreases month,
{
    if month <= 1 {
        0
    } else {
        days_before_month(year, month - 1) + month_length(year, month - 1)
    }
}

/// The number of days from 1970-01-01 to the first of January of `year`.
pub open spec fn days_before_year(year: int) -> int {
    let last = year - 1;
    365 * (year - 1970) + last / 4 - last / 100 + last / 400 - 477
}

impl View for CivilDate {
    type V = int;

    open spec fn view(&self) -> int {
        days_before_year(self.year as int) + days_before_month(self.year as int, self.month as int)
            + self.day - 1
    }
}

impl CivilDate {
    /// Whether the fields name a day of the calendar, in the years -9999 to 9999.
    pub open spec fn valid(self) -> bool {
        &&& -9999 <= self.year <= 9999
        &&& 1 <= self.month <= 12
        &&& 1 <= self.day <= month_length(self.year as int, self.month as int)
    }
}

impl CivilDate {
    /// Whether this is 9999-12-31, the last date of the calendar.
    pub open spec fn is_last(self) -> bool {
        self.year == 9999 && self.month == 12 && self.day == 31
    }

    /// Whether this is -9999-01-01, the first date of the calendar.
    pub open spec fn is_first(self) -> bool {
        self.year == -9999 && self.month == 1 && self.day == 1
    }

    /// The date one day later.
    pub open spec fn next(self) -> CivilDate {
        if self.day < month_length(self.year as int, self.month as int) {
            CivilDate { year: self.year, month: self.month, day: (self.day + 1) as i8 }
        } else if self.month < 12 {
            CivilDate { year: self.year, month: (self.month + 1) as i8, day: 1 }
        } else {
            CivilDate { year: (self.year + 1) as i16, month: 1, day: 1 }
        }
    }
}

/// The ISO weekday of a day, with 1 for Monday and 7 for Sunday.
pub open spec fn iso_weekday(day: int) -> int {
    (day + 3) % 7 + 1
}

/// Whether the United States observe daylight saving time in the afternoon of a date, by the
/// rule in force since 2007: from the second Sunday of March up to, and without, the first
/// Sunday of November.
pub open spec fn us_daylight_saving(date: CivilDate) -> bool {
    let sunday = date.day - iso_weekday(date@) % 7;
    ||| 4 <= date.month <= 10
    ||| date.month == 3 && sunday >= 8
    ||| date.month == 11 && sunday < 1
}

/// Whether an instant can fall on a civil day in New York, which has always been four to five
/// hours behind UTC.
pub open spec fn eastern_day_contains(day: int, ts_ns: int) -> bool {
    day * DAY_NS + 4 * HOUR_NS <= ts_ns && ts_ns < (day + 1) * DAY_NS + 5 * HOUR_NS
}

/// Whether an instant can be 17:00 of a civil date in New York: 21:00 to 22:00 UTC, exactly one
/// of the two since 1970, and 21:00 under daylight saving time alone since 2007.
pub open spec fn eastern_rollover(date: CivilDate, ts_ns: int) -> bool {
    let utc = ts_ns - date@ * DAY_NS;
    &&& 21 * HOUR_NS <= utc <= 22 * HOUR_NS
    &&& date.year >= 1970 ==> utc == 21 * HOUR_NS || utc == 22 * HOUR_NS
    &&& date.year >= 2007 ==> (utc == 21 * HOUR_NS <==> us_daylight_saving(date))
}

/// The civil day on which an instant falls in a time zone, as `jiff` computes it from its
/// bundled time zone database.
pub uninterp spec fn zone_day(zone: Seq<char>, ts_ns: int) -> Option<int>;

/// The instant at which the clocks of a time zone show a full hour of a civil day, as `jiff`
/// computes it from its bundled time zone database.
pub uninterp spec fn zone_instant(zone: Seq<char>, day: int, hour: int) -> Option<int>;

/// Calls `jiff::Timestamp::to_zoned` and takes the date, with the zone looked up in
/// `TimeZoneDatabase::bundled`.
///
/// The result is named by `zone_day`, and is `None` for a name that the database lacks. New York
/// has been four to five hours behind UTC as long as the database goes back, so its day starts
/// four to five hours after the day of UTC.
#[verifier::external_body]
pub(crate) fn date_in_zone(zone: &str, ts_ns: u64) -> (date: Option<CivilDate>)
    ensures
        date is Some <==> zone_day(zone@, ts_ns as int) is Some,
        date matches Some(d) ==> d.valid() && zone_day(zone@, ts_ns as int) == Some(d@),
        zone@ == EASTERN@ ==> date is Some && eastern_day_contains(date->0@, ts_ns as int),
{
    let tz = jiff::tz::TimeZoneDatabase::bundled().get(zone).ok()?;
    let date = jiff::Timestamp::from_nanosecond(ts_ns as i128).ok()?.to_zoned(tz).date();
    Some(CivilDate { year: date.year(), month: date.month(), day: date.day() })
}

/// Calls `jiff::tz::TimeZone::to_ambiguous_timestamp` and `unambiguous`, with the zone looked up
/// in `TimeZoneDatabase::bundled`.
///
/// The result is named by `zone_instant`. It is `None` for a name that the database lacks, for a
/// time that the zone skips or repeats on that day, and for an instant beyond the range of
/// `jiff::Timestamp`. The clocks of New York show 17:00 once on every day, four to five hours
/// before UTC does; since 1970 the difference is either four or five hours, and since 2007 it is
/// four hours under daylight saving time.
#[verifier::external_body]
pub(crate) fn instant_in_zone(zone: &str, date: CivilDate, hour: i8) -> (instant: Option<i128>)
    requires
        date.valid(),
        0 <= hour < 24,
    ensures
        instant is Some <==> zone_instant(zone@, date@, hour as int) is Some,
        instant matches Some(t) ==> zone_instant(zone@, date@, hour as int) == Some(t as int),
        zone@ == EASTERN@ && hour == 17 && !date.is_first() && !date.is_last() ==> instant is Some
            && eastern_rollover(date, instant->0 as int),
{
    let tz = jiff::tz::TimeZoneDatabase::bundled().get(zone).ok()?;
    let local = jiff::civil::date(date.year, date.month, date.day).at(hour, 0, 0, 0);
    let timestamp = tz.to_ambiguous_timestamp(local).unambiguous().ok()?;
    Some(timestamp.as_nanosecond())
}

/// Calls `jiff::civil::Date::tomorrow`, which gives the next date of the Gregorian calendar and
/// fails on the last date only.
#[verifier::external_body]
pub(crate) fn tomorrow(date: CivilDate) -> (next: Option<CivilDate>)
    requires
        date.valid(),
    ensures
        next == (if date.is_last() { None } else { Some(date.next()) }),
{
    let next = jiff::civil::date(date.year, date.month, date.day).tomorrow().ok()?;
    Some(CivilDate { year: next.year(), month: next.month(), day: next.day() })
}

/// Calls `jiff::civil::Date::weekday` and `Weekday::to_monday_one_offset`, which number the
/// weekdays from 1 for Monday to 7 for Sunday; 1970-01-01 is a Thursday.
#[verifier::external_body]
fn monday_one_offset(date: CivilDate) -> (weekday: i8)
    requires
        date.valid(),
    ensures
        weekday == iso_weekday(date@),
{
    jiff::civil::date(date.year, date.month, date.day).weekday().to_monday_one_offset()
}

/// The following date has the following day number.
pub proof fn lemma_next_day(date: CivilDate)
    requires
        date.valid(),
        !date.is_last(),
    ensures
        date.next().valid(),
        date.next()@ == date@ + 1,
{
    let year = date.year as int;
    if date.day == month_length(year, date.month as int) && date.month == 12 {
        reveal_with_fuel(days_before_month, 13);
    }
}

/// The day numbers at the ends of the calendar.
pub proof fn lemma_calendar_ends(date: CivilDate)
    ensures
        date.is_first() ==> date@ == -4_371_587,
        date.is_last() ==> date@ == 2_932_896,
{
    reveal_with_fuel(days_before_month, 12);
}

/// The date with a day number.
pub open spec fn date_of(day: int) -> CivilDate {
    choose|date: CivilDate| date.valid() && #[trigger] date@ == day
}

/// Whether one date comes before another in the calendar.
pub open spec fn earlier(a: CivilDate, b: CivilDate) -> bool {
    ||| a.year < b.year
    ||| a.year == b.year && a.month < b.month
    ||| a.year == b.year && a.month == b.month && a.day < b.day
}

proof fn lemma_days_before_year_grows(a: int, b: int)
    requires
        a < b,
    ensures
        days_before_year(a) + days_before_month(a, 13) <= days_before_year(b),
    decreases b - a,
{
    reveal_with_fuel(days_before_month, 13);
    if a < b - 1 {
        lemma_days_before_year_grows(a, b - 1);
    }
}

proof fn lemma_days_before_month_grows(year: int, a: int, b: int)
    requires
        1 <= a < b,
    ensures
        days_before_month(year, a) + month_length(year, a) <= days_before_month(year, b),
    decreases b - a,
{
    if a < b - 1 {
        lemma_days_before_month_grows(year, a, b - 1);
    }
}

/// Day numbers grow with the calendar.
pub proof fn lemma_day_numbers_ordered(a: CivilDate, b: CivilDate)
    requires
        a.valid(),
        b.valid(),
        earlier(a, b),
    ensures
        a@ < b@,
{
    let year = a.year as int;
    if a.year < b.year {
        lemma_days_before_year_grows(year, b.year as int);
        lemma_days_before_month_grows(year, a.month as int, 13);
        if b.month > 1 {
            lemma_days_before_month_grows(b.year as int, 1, b.month as int);
        }
    } else if a.month < b.month {
        lemma_days_before_month_grows(year, a.month as int, b.month as int);
    }
}

/// A day number names one date only.
pub proof fn lemma_date_of(date: CivilDate)
    requires
        date.valid(),
    ensures
        date_of(date@) == date,
{
    let other = date_of(date@);
    assert(date.valid() && date@ == date@);
    if earlier(date, other) {
        lemma_day_numbers_ordered(date, other);
    } else if earlier(other, date) {
        lemma_day_numbers_ordered(other, date);
    }
}

/// Returns the Eastern calendar date of an instant.
pub fn eastern_date(ts_ns: u64) -> (date: CivilDate)
    ensures
        date.valid(),
        zone_day(EASTERN@, ts_ns as int) == Some(date@),
        eastern_day_contains(date@, ts_ns as int),
{
    date_in_zone(EASTERN, ts_ns).unwrap()
}

/// Returns the ISO weekday of a date.
pub fn weekday_of(date: CivilDate) -> (weekday: u8)
    requires
        date.valid(),
    ensures
        weekday == iso_weekday(date@),
        1 <= weekday <= 7,
{
    monday_one_offset(date) as u8
}

}
