//! The daily broker rollover, at 17:00 `America/New_York`.

use vstd::prelude::*;

use crate::calendar::{
    date_of, eastern_date, eastern_day_contains, eastern_rollover, instant_in_zone, iso_weekday,
    lemma_calendar_ends, lemma_date_of, lemma_next_day, tomorrow, weekday_of, zone_day,
    zone_instant, CivilDate, DAY_NS, EASTERN, HOUR_NS, ROLLOVER_HOUR,
};

verus! {

/// ISO weekday of the default triple-swap night.
pub const FRIDAY: u8 = 5;

/// ISO weekday that follows the default triple-swap night.
pub const SATURDAY: u8 = 6;

/// ISO weekday on which the week ends.
pub const SUNDAY: u8 = 7;

/// The last day whose rollover is a UNIX-nanosecond instant.
pub const LAST_ROLL_DAY: i32 = 213_503;

/// The rollover of the last day that has one.
pub const LAST_ROLL_NS: u64 = 18_446_734_800_000_000_000;

/// The rollover instant of a day, where it can be counted in UNIX nanoseconds.
pub open spec fn roll_ns(day: int) -> Option<int> {
    match zone_instant(EASTERN@, day, ROLLOVER_HOUR as int) {
        Some(t) => if 0 <= t <= u64::MAX { Some(t) } else { None },
        None => None,
    }
}

/// Whether the rollover of a day falls where New York time puts it.
pub open spec fn regular_roll(day: int) -> bool {
    &&& zone_instant(EASTERN@, day, ROLLOVER_HOUR as int) is Some
    &&& eastern_rollover(date_of(day), zone_instant(EASTERN@, day, ROLLOVER_HOUR as int)->0)
    &&& date_of(day)@ == day
}

/// Whether an ISO weekday is on the weekend, whose nights do not roll.
pub open spec fn is_weekend(weekday: int) -> bool {
    weekday == SATURDAY || weekday == SUNDAY
}

/// Returns the 17:00 Eastern rollover instant of a date, in UNIX nanoseconds.
///
/// Returns `None` for a pre-epoch instant, which no UNIX-nanosecond window can contain.
pub fn roll_time_ns(date: CivilDate) -> (roll: Option<u64>)
    requires
        date.valid(),
        !date.is_first(),
        !date.is_last(),
    ensures
        roll is Some <==> roll_ns(date@) is Some,
        roll matches Some(t) ==> roll_ns(date@) == Some(t as int),
        regular_roll(date@),
        roll is Some <==> 0 <= date@ <= LAST_ROLL_DAY,
{
    let instant = instant_in_zone(EASTERN, date, ROLLOVER_HOUR).unwrap();
    proof {
        lemma_date_of(date);
    }
    unix_ns(instant)
}

/// Returns an instant as UNIX nanoseconds, or `None` where they cannot count it.
pub fn unix_ns(instant: i128) -> (ns: Option<u64>)
    ensures
        ns == (if 0 <= instant <= u64::MAX { Some(instant as u64) } else { None }),
{
    if 0 <= instant && instant <= u64::MAX as i128 {
        Some(instant as u64)
    } else {
        None
    }
}

/// What a day's rollover means for a window of instants.
#[derive(Debug, Clone, Copy, PartialEq, Eq)]
pub enum RollStep {
    /// The rollover is at or after the end of the window.
    Stop,
    /// The rollover is charged, at an instant in the window.
    Charge(u64),
    /// The rollover is not in the window, or not charged.
    Pass,
}

/// Places a day's rollover against the window `[start_ns, end_ns)`.
pub fn roll_step(roll: Option<u64>, iso_weekday: u8, start_ns: u64, end_ns: u64) -> (step: RollStep)
    ensures
        step == (match roll {
            Some(t) => if t >= end_ns {
                RollStep::Stop
            } else if t >= start_ns && !is_weekend(iso_weekday as int) {
                RollStep::Charge(t)
            } else {
                RollStep::Pass
            },
            None => RollStep::Pass,
        }),
{
    match roll {
        Some(t) => {
            if t >= end_ns {
                RollStep::Stop
            } else if t >= start_ns && iso_weekday != SATURDAY && iso_weekday != SUNDAY {
                RollStep::Charge(t)
            } else {
                RollStep::Pass
            }
        },
        None => RollStep::Pass,
    }
}

/// The first day from `day` on whose rollover is at or after `ts_ns`, or the last day that has a
/// rollover where none is.
pub open spec fn first_roll_from(day: int, ts_ns: int) -> int
    decreases LAST_ROLL_DAY - day,
{
    if day >= LAST_ROLL_DAY || (roll_ns(day) is Some && roll_ns(day)->0 >= ts_ns) {
        day
    } else {
        first_roll_from(day + 1, ts_ns)
    }
}

/// The day of the first rollover at or after `ts_ns`, for a run that starts then.
pub open spec fn opening_day(ts_ns: int) -> int {
    let today = zone_day(EASTERN@, ts_ns)->0;
    let next = if roll_ns(today) is Some && ts_ns <= roll_ns(today)->0 { today } else { today + 1 };
    if next < 0 { 0 } else { next }
}

/// Whether the rollover of a day is charged, at or after `start_ns`.
pub open spec fn charged_from(day: int, start_ns: int) -> bool {
    roll_ns(day) is Some && roll_ns(day)->0 >= start_ns && !is_weekend(iso_weekday(day))
}

/// The rollovers of the days from `first` up to, and without, `stop` that are charged at or
/// after `start_ns`.
pub open spec fn charged_rolls(first: int, stop: int, start_ns: int) -> Seq<u64>
    decreases stop - first,
{
    if first >= stop {
        Seq::empty()
    } else {
        let before = charged_rolls(first, stop - 1, start_ns);
        if charged_from(stop - 1, start_ns) {
            before.push(roll_ns(stop - 1)->0 as u64)
        } else {
            before
        }
    }
}

/// An instant is among the charged rollovers of some days exactly where it is the rollover of
/// one of them, not on a weekend, and not before `start_ns`.
pub proof fn law_charged_rolls_complete(first: int, stop: int, start_ns: int, ts_ns: u64)
    ensures
        charged_rolls(first, stop, start_ns).contains(ts_ns) <==> exists|day: int|
            first <= day < stop && #[trigger] charged_from(day, start_ns) && roll_ns(day) == Some(
                ts_ns as int,
            ),
    decreases stop - first,
{
    if first < stop {
        law_charged_rolls_complete(first, stop - 1, start_ns, ts_ns);
        let before = charged_rolls(first, stop - 1, start_ns);
        let all = charged_rolls(first, stop, start_ns);
        if charged_from(stop - 1, start_ns) {
            assert(all[all.len() - 1] == roll_ns(stop - 1)->0 as u64);
            if before.contains(ts_ns) {
                let i = choose|i: int| 0 <= i < before.len() && before[i] == ts_ns;
                assert(all[i] == ts_ns);
            }
            if all.contains(ts_ns) && !before.contains(ts_ns) {
                let i = choose|i: int| 0 <= i < all.len() && all[i] == ts_ns;
                assert(i == all.len() - 1) by {
                    if i < all.len() - 1 {
                        assert(before[i] == ts_ns);
                    }
                }
            }
        }
    }
}

/// The charged rollovers of two spans of days are those of the whole span.
pub proof fn law_charged_rolls_split(first: int, middle: int, stop: int, start_ns: int)
    requires
        first <= middle <= stop,
    ensures
        charged_rolls(first, stop, start_ns) == charged_rolls(first, middle, start_ns)
            + charged_rolls(middle, stop, start_ns),
    decreases stop - middle,
{
    let head = charged_rolls(first, middle, start_ns);
    if middle < stop {
        law_charged_rolls_split(first, middle, stop - 1, start_ns);
        assert(charged_rolls(first, stop, start_ns) =~= head + charged_rolls(
            middle,
            stop,
            start_ns,
        ));
    } else {
        assert(head + Seq::<u64>::empty() =~= head);
    }
}

/// The day on which the window that opens at `start_ns` begins.
pub open spec fn window_first(start_ns: int) -> int {
    zone_day(EASTERN@, start_ns)->0
}

/// The day before which the rollovers of the window `[start_ns, end_ns)` end.
pub open spec fn window_stop(start_ns: int, end_ns: int) -> int {
    first_roll_from(window_first(start_ns), end_ns)
}

/// The chargeable rollover instants of the window `[start_ns, end_ns)`, in the order of time.
pub open spec fn listed_rolls(start_ns: int, end_ns: int) -> Seq<u64> {
    charged_rolls(window_first(start_ns), window_stop(start_ns, end_ns), start_ns)
}

/// Whether the days of the window `[start_ns, end_ns)` are those of New York time.
pub open spec fn regular_window(start_ns: int, end_ns: int) -> bool {
    let first = window_first(start_ns);
    let stop = window_stop(start_ns, end_ns);
    &&& eastern_day_contains(first, start_ns)
    &&& first <= stop <= LAST_ROLL_DAY
    &&& roll_ns(stop) is Some
    &&& roll_ns(stop)->0 >= end_ns || stop == LAST_ROLL_DAY
    &&& forall|day: int| first <= day <= stop ==> #[trigger] regular_roll(day)
}

/// Every chargeable rollover of a window is listed: an instant is listed exactly where it is in
/// the window and is the rollover of a day that is not on a weekend.
pub proof fn law_window_lists_every_charged_roll(start_ns: u64, end_ns: u64, day: int)
    requires
        regular_window(start_ns as int, end_ns as int),
        regular_roll(day),
        roll_ns(day) is Some,
    ensures
        listed_rolls(start_ns as int, end_ns as int).contains(roll_ns(day)->0 as u64) <==> (
        !is_weekend(iso_weekday(day)) && start_ns <= roll_ns(day)->0 < end_ns),
{
    let first = window_first(start_ns as int);
    let stop = window_stop(start_ns as int, end_ns as int);
    let roll = roll_ns(day)->0 as u64;
    law_charged_rolls_complete(first, stop, start_ns as int, roll);
    if listed_rolls(start_ns as int, end_ns as int).contains(roll) {
        let other = choose|other: int|
            first <= other < stop && #[trigger] charged_from(other, start_ns as int) && roll_ns(other)
                == Some(roll as int);
        assert(regular_roll(other));
        lemma_rolls_before_are_earlier(first, end_ns as int, other);
    } else if !is_weekend(iso_weekday(day)) && start_ns <= roll < end_ns {
        assert(charged_from(day, start_ns as int));
        assert(regular_roll(stop));
    }
}

/// The days up to, and without, the first rollover at or after an instant have theirs before it.
pub proof fn lemma_rolls_before_are_earlier(first: int, ts_ns: int, day: int)
    requires
        first <= day < first_roll_from(first, ts_ns),
        roll_ns(day) is Some,
    ensures
        roll_ns(day)->0 < ts_ns,
    decreases LAST_ROLL_DAY - first,
{
    if first < day {
        lemma_rolls_before_are_earlier(first + 1, ts_ns, day);
    }
}

/// The search for a rollover passes through the days before the one that it finds.
pub proof fn lemma_first_roll_passes(first: int, ts_ns: int, day: int)
    requires
        first <= day <= first_roll_from(first, ts_ns),
    ensures
        first_roll_from(day, ts_ns) == first_roll_from(first, ts_ns),
    decreases LAST_ROLL_DAY - first,
{
    if first < day {
        lemma_first_roll_passes(first + 1, ts_ns, day);
    }
}

/// Returns every chargeable rollover instant in `[start_ns, end_ns)`.
///
/// Weekend instants are omitted, since the module never charges them. A window opening before
/// the first representable rollover simply starts at that rollover, and one closing after the
/// last representable rollover ends with it.
pub fn cfd_roll_instants_ns(start_ns: u64, end_ns: u64) -> (instants: Vec<u64>)
    ensures
        instants@ == listed_rolls(start_ns as int, end_ns as int),
        regular_window(start_ns as int, end_ns as int),
        forall|i: int| 0 <= i < instants.len() ==> start_ns <= #[trigger] instants[i] < end_ns,
        forall|i: int, j: int| 0 <= i < j < instants.len() ==> instants[i] < instants[j],
{
    let mut out: Vec<u64> = Vec::new();
    let mut date = eastern_date(start_ns);
    let ghost first = date@;
    loop
        invariant
            date.valid(),
            zone_day(EASTERN@, start_ns as int) == Some(first),
            eastern_day_contains(first, start_ns as int),
            -1 <= first <= date@ <= LAST_ROLL_DAY,
            first_roll_from(first, end_ns as int) == first_roll_from(date@, end_ns as int),
            out@ == charged_rolls(first, date@, start_ns as int),
            forall|day: int| first <= day < date@ ==> #[trigger] regular_roll(day),
            forall|i: int| 0 <= i < out.len() ==> start_ns <= #[trigger] out[i] < end_ns && out[i]
                <= (date@ - 1) * DAY_NS + 22 * HOUR_NS,
            forall|i: int, j: int| 0 <= i < j < out.len() ==> out[i] < out[j],
        ensures
            regular_roll(date@),
            roll_ns(date@) is Some,
            roll_ns(date@)->0 >= end_ns || date@ == LAST_ROLL_DAY,
        decreases LAST_ROLL_DAY - date@,
    {
        proof {
            lemma_calendar_ends(date);
        }
        let roll = roll_time_ns(date);
        match roll_step(roll, weekday_of(date), start_ns, end_ns) {
            RollStep::Stop => {
                break ;
            },
            RollStep::Charge(t) => {
                out.push(t);
            },
            RollStep::Pass => {},
        }
        if let Some(t) = roll {
            if t >= LAST_ROLL_NS {
                break ;
            }
        }
        proof {
            lemma_next_day(date);
        }
        date = tomorrow(date).unwrap();
    }
    out
}

}
