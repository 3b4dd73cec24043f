//! What the shared carry helpers and the rollover are for, in terms of the positions, prices,
//! rates and dates that they are given.

use vstd::prelude::*;

use crate::calendar::{iso_weekday, lemma_date_of, CivilDate};
use crate::carry::{
    based, by_id, exposures_of, group_exposures, kept_in, mark_of, notional_of, resolved_mark,
    snapshot_of, BookPrice, ContextModel, Exposure, Instrument, InstrumentId, Position,
    SnapshotModel,
};
use crate::number::{lemma_zero_value, Currency, Formula, Real};
use crate::rollover::{
    charged_from, is_weekend, law_charged_rolls_complete, law_window_lists_every_charged_roll,
    lemma_rolls_before_are_earlier, listed_rolls, regular_roll, regular_window, roll_ns,
    window_first, window_stop,
};

verus! {

/// One more element of a sequence is one more element to filter.
pub proof fn lemma_filter_take<A>(s: Seq<A>, pred: spec_fn(A) -> bool, n: int)
    requires
        0 < n <= s.len(),
    ensures
        s.take(n).filter(pred) == if pred(s[n - 1]) {
            s.take(n - 1).filter(pred).push(s[n - 1])
        } else {
            s.take(n - 1).filter(pred)
        },
{
    reveal(Seq::filter);
    assert(s.take(n).drop_last() =~= s.take(n - 1));
    assert(s.take(n).last() == s[n - 1]);
}

/// Nothing is filtered from nothing.
pub proof fn lemma_filter_none<A>(s: Seq<A>, pred: spec_fn(A) -> bool)
    ensures
        s.take(0).filter(pred) == Seq::<A>::empty(),
{
    reveal(Seq::filter);
    assert(s.take(0).filter(pred) =~= Seq::<A>::empty());
}

/// One more part is one more part to join.
pub proof fn lemma_flatten_next<A>(n: nat, part: spec_fn(int) -> Seq<A>)
    ensures
        Seq::new(n + 1, part).flatten() == Seq::new(n, part).flatten() + part(n as int),
{
    let parts = Seq::new(n, part);
    assert(Seq::new(n + 1, part) =~= parts.push(part(n as int)));
    parts.lemma_flatten_push(part(n as int));
}

/// An element of joined parts is an element of one of them.
pub proof fn lemma_flatten_element<A>(parts: Seq<Seq<A>>, k: int) -> (at: (int, int))
    requires
        0 <= k < parts.flatten().len(),
    ensures
        0 <= at.0 < parts.len(),
        0 <= at.1 < parts[at.0].len(),
        parts.flatten()[k] == parts[at.0][at.1],
    decreases parts.len(),
{
    if parts.len() == 0 {
        (0, 0)
    } else if k < parts[0].len() {
        (0, k)
    } else {
        let rest = lemma_flatten_element(parts.drop_first(), k - parts[0].len());
        (rest.0 + 1, rest.1)
    }
}

/// A weekend night is that of a Saturday or a Sunday.
pub proof fn law_weekend_is_saturday_and_sunday(day: int)
    ensures
        is_weekend(iso_weekday(day)) <==> (day + 3) % 7 == 5 || (day + 3) % 7 == 6,
        forall|weekday: int| #[trigger] is_weekend(weekday) <==> weekday == 6 || weekday == 7,
{
}

/// A number is finite where its exponent bits are not all set, is a zero where no bit but the
/// sign is set, and loses its sign alone in its magnitude.
pub proof fn law_numbers_by_their_bits(number: Real)
    ensures
        number.finite() <==> number.bits % 0x8000_0000_0000_0000 < 0x7ff0_0000_0000_0000,
        number.zero() <==> number.bits == 0 || number.bits == 0x8000_0000_0000_0000,
        number.negative() <==> number.bits >= 0x8000_0000_0000_0000,
        number.magnitude().bits == number.bits % 0x8000_0000_0000_0000,
        number.magnitude().value() == if number.negative() {
            -number.value()
        } else {
            number.value()
        },
        number.finite() ==> number.magnitude().value() >= 0real,
{
    assert(number.magnitude().exponent() == number.exponent());
    assert(number.magnitude().fraction() == number.fraction());
    if number.finite() {
        lemma_zero_value(number.magnitude());
    }
}

/// The group of an instrument holds the kept positions in it, and nothing else, in their order.
pub proof fn law_groups_are_the_kept_positions(
    positions: Seq<Position>,
    kept: Seq<bool>,
    id: InstrumentId,
)
    requires
        kept.len() == positions.len(),
    ensures
        ({
            let own = Seq::new(positions.len(), |i: int| i).filter(
                |i: int| kept[i] && positions[i].instrument_id == id,
            ).map_values(|i: int| positions[i].exposure);
            let groups = group_exposures(positions, kept);
            &&& groups.contains_key(id) <==> own.len() > 0
            &&& own.len() > 0 ==> groups[id] == own
        }),
{
    let own = |i: int| kept[i] && positions[i].instrument_id == id;
    let value = |i: int| positions[i].exposure;
    let all = Seq::new(positions.len(), |i: int| i);
    lemma_exposures_by_index(positions, kept, id, own, value, positions.len() as int);
    assert(positions.take(positions.len() as int) =~= positions);
    assert(kept.take(kept.len() as int) =~= kept);
    assert(all.take(all.len() as int) =~= all);
}

proof fn lemma_exposures_by_index(
    positions: Seq<Position>,
    kept: Seq<bool>,
    id: InstrumentId,
    own: spec_fn(int) -> bool,
    value: spec_fn(int) -> Exposure,
    n: int,
)
    requires
        kept.len() == positions.len(),
        0 <= n <= positions.len(),
        own == (|i: int| kept[i] && positions[i].instrument_id == id),
        value == (|i: int| positions[i].exposure),
    ensures
        exposures_of(positions.take(n), kept.take(n), id) == Seq::new(
            positions.len(),
            |i: int| i,
        ).take(n).filter(own).map_values(value),
    decreases n,
{
    let all = Seq::new(positions.len(), |i: int| i);
    let found = all.take(n).filter(own).map_values(value);
    if n == 0 {
        lemma_filter_none(all, own);
        assert(found =~= Seq::empty());
    } else {
        lemma_exposures_by_index(positions, kept, id, own, value, n - 1);
        lemma_filter_take(all, own, n);
        assert(positions.take(n).drop_last() =~= positions.take(n - 1));
        assert(kept.take(n).drop_last() =~= kept.take(n - 1));
        let before = all.take(n - 1).filter(own);
        assert(before.push(all[n - 1]).map_values(value) =~= before.map_values(value).push(
            positions[n - 1].exposure,
        ));
    }
}

proof fn lemma_exposures_by_instrument(
    positions: Seq<Position>,
    ids: Set<InstrumentId>,
    id: InstrumentId,
    own: spec_fn(Position) -> bool,
    value: spec_fn(Position) -> Exposure,
    n: int,
)
    requires
        0 <= n <= positions.len(),
        own == (|p: Position| p.instrument_id == id),
        value == (|p: Position| p.exposure),
    ensures
        exposures_of(positions.take(n), kept_in(positions, ids).take(n), id) == if ids.contains(
            id,
        ) {
            positions.take(n).filter(own).map_values(value)
        } else {
            Seq::empty()
        },
    decreases n,
{
    let kept = kept_in(positions, ids);
    if n == 0 {
        lemma_filter_none(positions, own);
        assert(positions.take(0).filter(own).map_values(value) =~= Seq::empty());
    } else {
        lemma_exposures_by_instrument(positions, ids, id, own, value, n - 1);
        lemma_filter_take(positions, own, n);
        assert(positions.take(n).drop_last() =~= positions.take(n - 1));
        assert(kept.take(n).drop_last() =~= kept.take(n - 1));
        let before = positions.take(n - 1).filter(own);
        assert(before.push(positions[n - 1]).map_values(value) =~= before.map_values(value).push(
            positions[n - 1].exposure,
        ));
    }
}

/// A snapshot of some instruments holds all their open positions in cache order, and the live
/// mark of those among them that are priced, known and marked.
pub proof fn law_snapshot_holds_open_positions(
    ctx: ContextModel,
    ids: Set<InstrumentId>,
    priced: Set<InstrumentId>,
    id: InstrumentId,
)
    ensures
        ({
            let snapshot = snapshot_of(ctx, ids, priced);
            let open = ctx.positions.filter(|p: Position| p.instrument_id == id).map_values(
                |p: Position| p.exposure,
            );
            let marked = ids.contains(id) && open.len() > 0 && priced.contains(id)
                && ctx.instruments.contains_key(id) && mark_of(ctx.instruments[id]) is Some;
            &&& snapshot.exposures.contains_key(id) <==> ids.contains(id) && open.len() > 0
            &&& snapshot.exposures.contains_key(id) ==> snapshot.exposures[id] == open
            &&& snapshot.marks.contains_key(id) <==> marked
            &&& marked ==> snapshot.marks[id] == mark_of(ctx.instruments[id])->0
        }),
{
    let own = |p: Position| p.instrument_id == id;
    let value = |p: Position| p.exposure;
    let n = ctx.positions.len() as int;
    lemma_exposures_by_instrument(ctx.positions, ids, id, own, value, n);
    assert(ctx.positions.take(n) =~= ctx.positions);
    assert(kept_in(ctx.positions, ids).take(n) =~= kept_in(ctx.positions, ids));
}

/// An instrument of a context is the last one listed under its number.
pub proof fn law_last_listed_instrument_counts(instruments: Seq<Instrument>, i: int)
    requires
        0 <= i < instruments.len(),
        forall|j: int|
            i < j < instruments.len() ==> (#[trigger] instruments[j]).id != instruments[i].id,
    ensures
        by_id(instruments).contains_key(instruments[i].id),
        by_id(instruments)[instruments[i].id] == instruments[i],
    decreases instruments.len(),
{
    let end = instruments.len() - 1;
    if i < end {
        let rest = instruments.drop_last();
        assert(instruments[end].id != instruments[i].id);
        assert(rest[i] == instruments[i]);
        assert forall|j: int| i < j < rest.len() implies (#[trigger] rest[j]).id != rest[i].id by {
            assert(instruments[j].id != instruments[i].id);
        }
        law_last_listed_instrument_counts(rest, i);
    }
}

/// A number under which no instrument is listed leads to none.
pub proof fn law_unlisted_instrument_is_unknown(instruments: Seq<Instrument>, id: InstrumentId)
    requires
        forall|i: int| 0 <= i < instruments.len() ==> (#[trigger] instruments[i]).id != id,
    ensures
        !by_id(instruments).contains_key(id),
    decreases instruments.len(),
{
    if instruments.len() > 0 {
        let rest = instruments.drop_last();
        assert forall|i: int| 0 <= i < rest.len() implies (#[trigger] rest[i]).id != id by {
            assert(instruments[i].id != id);
        }
        assert(instruments[instruments.len() - 1].id != id);
        law_unlisted_instrument_is_unknown(rest, id);
    }
}

/// The mark is the book midpoint, without one the best bid, without one the best ask, and
/// without any of them the last price; a book price that the instrument cannot hold is no mark.
pub proof fn law_mark_priority(instrument: Instrument)
    ensures
        instrument.book is None ==> mark_of(instrument) == instrument.last,
        instrument.book matches Some(book) ==> {
            let mark = mark_of(instrument);
            let no_mid = book.midpoint is Absent;
            let no_bid = no_mid && book.best_bid is Absent;
            &&& book.midpoint matches BookPrice::Valid(price) ==> mark == Some(price)
            &&& book.midpoint is Invalid ==> mark is None
            &&& no_mid ==> (book.best_bid matches BookPrice::Valid(price) ==> mark == Some(price))
            &&& no_mid && book.best_bid is Invalid ==> mark is None
            &&& no_bid ==> (book.best_ask matches BookPrice::Valid(price) ==> mark == Some(price))
            &&& no_bid && book.best_ask is Invalid ==> mark is None
            &&& no_bid && book.best_ask is Absent ==> mark == instrument.last
        },
{
}

/// A charge in a gap is valued at the mark of the snapshot wherever the snapshot has one,
/// whatever the prices have come to; any other charge is valued at the live mark.
pub proof fn law_gap_mark_is_the_snapshot_mark(
    id: InstrumentId,
    instrument: Instrument,
    other: Instrument,
    snapshot: SnapshotModel,
)
    ensures
        snapshot.marks.contains_key(id) ==> resolved_mark(id, instrument, snapshot, true) == Some(
            snapshot.marks[id],
        ) && resolved_mark(id, other, snapshot, true) == Some(snapshot.marks[id]),
        !snapshot.marks.contains_key(id) ==> resolved_mark(id, instrument, snapshot, true)
            == mark_of(instrument),
        resolved_mark(id, instrument, snapshot, false) == mark_of(instrument),
{
}

/// An amount stays what it is for an account without a base currency or with the quote currency
/// as its base; otherwise it is worth the amount times the exchange rate, and nothing where there
/// is no rate or a rate of zero, in the base currency.
pub proof fn law_conversion_value(
    base_currency: Option<Currency>,
    xrate: Option<Real>,
    amount: Formula,
    quote_currency: Currency,
    round: spec_fn(real, Currency) -> real,
)
    ensures
        ({
            let (converted, currency) = based(base_currency, xrate, amount, quote_currency);
            let foreign = base_currency is Some && base_currency->0 != quote_currency;
            let rated = xrate is Some && !xrate->0.zero();
            &&& !foreign ==> converted == amount && currency == quote_currency
            &&& foreign ==> currency == base_currency->0
            &&& foreign && rated ==> converted.value(round) == amount.value(round)
                * xrate->0.value()
            &&& foreign && !rated ==> converted.value(round) == 0real
        }),
{
    reveal_with_fuel(Formula::value, 2);
}

/// The notional of a position is its quantity times its multiplier times the mark, rounded to
/// the quote currency as one amount.
pub proof fn law_notional_value(
    exposure: Exposure,
    mark_px: Real,
    quote_currency: Currency,
    round: spec_fn(real, Currency) -> real,
)
    ensures
        notional_of(exposure, mark_px, quote_currency).value(round) == round(
            exposure.quantity.value() * exposure.multiplier.value() * mark_px.value(),
            quote_currency,
        ),
{
    reveal_with_fuel(Formula::value, 4);
}

/// In double precision the order of operations counts: a notional is the quantity times the
/// multiplier, times the mark, and is rounded once, at the end.
pub proof fn law_notional_order_of_operations(
    exposure: Exposure,
    mark_px: Real,
    quote_currency: Currency,
)
    ensures
        notional_of(exposure, mark_px, quote_currency) == Formula::Rounded(
            Box::new(
                Formula::Product(
                    Box::new(
                        Formula::Product(
                            Box::new(Formula::Number(exposure.quantity)),
                            Box::new(Formula::Number(exposure.multiplier)),
                        ),
                    ),
                    Box::new(Formula::Number(mark_px)),
                ),
            ),
            quote_currency,
        ),
{
}

/// In double precision the order of operations counts: a conversion is one product, of the whole
/// amount and the rate.
pub proof fn law_conversion_order_of_operations(
    base: Currency,
    rate: Real,
    amount: Formula,
    quote_currency: Currency,
)
    requires
        base != quote_currency,
        !rate.zero(),
    ensures
        based(Some(base), Some(rate), amount, quote_currency).0 == Formula::Product(
            Box::new(amount),
            Box::new(Formula::Number(rate)),
        ),
        based(Some(base), None, amount, quote_currency).0 == Formula::Integer(0),
{
}

/// The rollover of a date is at 21:00 to 22:00 UTC of its day; since 1970 at either of the two,
/// and since 2007 at 21:00 exactly from the second Sunday of March up to, and without, the first
/// Sunday of November.
pub proof fn law_rollover_instant(date: CivilDate)
    requires
        date.valid(),
        regular_roll(date@),
        roll_ns(date@) is Some,
    ensures
        ({
            let utc = roll_ns(date@)->0 - date@ * 86_400_000_000_000;
            let sunday = date.day - (date@ + 4) % 7;
            let summer = 4 <= date.month <= 10 || (date.month == 3 && sunday >= 8) || (date.month
                == 11 && sunday <= 0);
            &&& 75_600_000_000_000 <= utc <= 79_200_000_000_000
            &&& date.year >= 1970 ==> utc == 75_600_000_000_000 || utc == 79_200_000_000_000
            &&& date.year >= 2007 ==> utc == if summer {
                75_600_000_000_000int
            } else {
                79_200_000_000_000int
            }
        }),
{
    lemma_date_of(date);
}

/// Every day of New York time from 1970-01-01 to 2554-07-21 has a rollover, and no other.
pub proof fn law_days_with_a_rollover(day: int)
    requires
        regular_roll(day),
    ensures
        roll_ns(day) is Some <==> 0 <= day <= 213_503,
{
}

/// Every listed instant is the rollover of a weekday, in the window; the day is returned.
pub proof fn law_listed_instants_are_rollovers(start_ns: u64, end_ns: u64, k: int) -> (day: int)
    requires
        regular_window(start_ns as int, end_ns as int),
        0 <= k < listed_rolls(start_ns as int, end_ns as int).len(),
    ensures
        ({
            let instant = listed_rolls(start_ns as int, end_ns as int)[k];
            &&& regular_roll(day)
            &&& roll_ns(day) == Some(instant as int)
            &&& (day + 3) % 7 < 5
            &&& start_ns <= instant < end_ns
        }),
{
    let first = window_first(start_ns as int);
    let stop = window_stop(start_ns as int, end_ns as int);
    let listed = listed_rolls(start_ns as int, end_ns as int);
    let instant = listed[k];
    law_charged_rolls_complete(first, stop, start_ns as int, instant);
    assert(listed.contains(instant));
    let day = choose|day: int|
        first <= day < stop && #[trigger] charged_from(day, start_ns as int) && roll_ns(day) == Some(
            instant as int,
        );
    assert(regular_roll(day));
    lemma_rolls_before_are_earlier(first, end_ns as int, day);
    day
}

/// A weekday rollover in a window is listed, and a weekend one is not.
pub proof fn law_weekday_rollovers_are_listed(start_ns: u64, end_ns: u64, day: int)
    requires
        regular_window(start_ns as int, end_ns as int),
        regular_roll(day),
        roll_ns(day) is Some,
    ensures
        listed_rolls(start_ns as int, end_ns as int).contains(roll_ns(day)->0 as u64) <==> (day + 3)
            % 7 < 5 && start_ns <= roll_ns(day)->0 < end_ns,
{
    law_window_lists_every_charged_roll(start_ns, end_ns, day);
}

}
