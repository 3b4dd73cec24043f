//! What CFD overnight swap is for, in terms of the swap terms, the positions and marks of the
//! venue, the rollovers of New York, and the outcomes that the exchange reports.

use vstd::prelude::*;

use crate::calendar::iso_weekday;
use crate::carry::{
    mark_of, notional_of, resolved_mark, ContextModel, Exposure, Instrument, InstrumentId, Position,
    ProcessInputs, SnapshotModel,
};
use crate::carry_laws::{
    law_conversion_value, law_notional_value, law_numbers_by_their_bits,
    law_snapshot_holds_open_positions, lemma_filter_none, lemma_filter_take, lemma_flatten_element,
    lemma_flatten_next,
};
use crate::cfd_swap::{
    acknowledged_ledger, adjustments_of, exposure_charges, exposure_flow, law_mode_text_round_trip,
    law_opening_rollover_is_charged, law_process_rolls_all_due, lemma_catches_up, lots_of,
    mode_named, night_charges, roll_charges, rolled_charges, spec_charges, spec_list, swap_flow,
    terms_fault, SwapAdjustment, SwapCharge, SwapFault, SwapMode, SwapModel, SwapSpec, SwapTerms,
};
use crate::ledger::{
    entry_terms, law_acknowledged_instrument, law_acknowledged_keeps_order,
    AccountAdjustmentOutcome, LedgerModel, Money,
};
use crate::number::{Currency, Formula, Real};
use crate::rollover::{opening_day, regular_roll, roll_ns};

verus! {

/// The wire strings of the modes, each of which names its mode; no other text names one.
pub proof fn law_mode_texts(text: Seq<char>)
    ensures
        SwapMode::Disabled.text() == "disabled"@,
        SwapMode::CcyMargin.text() == "ccy_margin"@,
        SwapMode::Interest.text() == "interest"@,
        mode_named(text) == Some(SwapMode::Disabled) <==> text == "disabled"@,
        mode_named(text) == Some(SwapMode::CcyMargin) <==> text == "ccy_margin"@,
        mode_named(text) == Some(SwapMode::Interest) <==> text == "interest"@,
{
    law_mode_text_round_trip(SwapMode::Disabled);
    law_mode_text_round_trip(SwapMode::CcyMargin);
    law_mode_text_round_trip(SwapMode::Interest);
}

/// The lots of a position are its size without the sign over the contract size, and none for a
/// contract size of zero.
pub proof fn law_lots_value(
    exposure: Exposure,
    contract_size: Real,
    round: spec_fn(real, Currency) -> real,
)
    ensures
        lots_of(exposure, contract_size).value(round) == if contract_size.zero() {
            0real
        } else if exposure.signed_qty.negative() {
            -exposure.signed_qty.value() / contract_size.value()
        } else {
            exposure.signed_qty.value() / contract_size.value()
        },
{
    law_numbers_by_their_bits(exposure.signed_qty);
    reveal_with_fuel(Formula::value, 3);
}

/// The cash flow of a night: nothing on a Saturday or a Sunday, in mode `disabled` or in a mode
/// that is not recognised; otherwise the points of the side of the position, per lot for
/// `ccy_margin`, or as a percentage of the notional over 360 days for `interest`, three times on
/// the triple night.
pub proof fn law_night_flow_value(
    swap_mode: Seq<char>,
    swap_long: Real,
    swap_short: Real,
    is_long: bool,
    weekday: u8,
    notional_abs: Formula,
    lots: Formula,
    swap_3day_dow: u8,
    round: spec_fn(real, Currency) -> real,
)
    ensures
        ({
            let value = swap_flow(
                swap_mode,
                swap_long,
                swap_short,
                is_long,
                weekday,
                notional_abs,
                lots,
                swap_3day_dow,
            ).value(round);
            let points = if is_long { swap_long.value() } else { swap_short.value() };
            let nights = if weekday == swap_3day_dow { 3real } else { 1real };
            if weekday == 6 || weekday == 7 {
                value == 0real
            } else if swap_mode == "ccy_margin"@ {
                value == lots.value(round) * points * nights
            } else if swap_mode == "interest"@ {
                value == points / 100real * notional_abs.value(round) / 360real * nights
            } else {
                value == 0real
            }
        }),
{
    law_mode_texts(swap_mode);
    reveal_with_fuel(Formula::value, 6);
}

/// In double precision the order of operations counts: a night is the lots times the points for
/// `ccy_margin`, and the points over 100 times the notional over 360 for `interest`, and then
/// times the nights. A night that is not charged is the constant zero.
pub proof fn law_night_order_of_operations(
    swap_mode: Seq<char>,
    swap_long: Real,
    swap_short: Real,
    is_long: bool,
    weekday: u8,
    notional_abs: Formula,
    lots: Formula,
    swap_3day_dow: u8,
)
    ensures
        ({
            let flow = swap_flow(
                swap_mode,
                swap_long,
                swap_short,
                is_long,
                weekday,
                notional_abs,
                lots,
                swap_3day_dow,
            );
            let points = Formula::Number(if is_long { swap_long } else { swap_short });
            let charged = weekday != 6 && weekday != 7;
            let nights = Formula::Integer(if weekday == swap_3day_dow { 3 } else { 1 });
            &&& charged && swap_mode == "ccy_margin"@ ==> flow == Formula::Product(
                Box::new(Formula::Product(Box::new(lots), Box::new(points))),
                Box::new(nights),
            )
            &&& charged && swap_mode == "interest"@ ==> flow == Formula::Product(
                Box::new(
                    Formula::Quotient(
                        Box::new(
                            Formula::Product(
                                Box::new(
                                    Formula::Quotient(
                                        Box::new(points),
                                        Box::new(Formula::Integer(100)),
                                    ),
                                ),
                                Box::new(notional_abs),
                            ),
                        ),
                        Box::new(Formula::Integer(360)),
                    ),
                ),
                Box::new(nights),
            )
            &&& !charged || (swap_mode != "ccy_margin"@ && swap_mode != "interest"@) ==> flow
                == Formula::Integer(0)
        }),
{
    law_mode_texts(swap_mode);
}

/// In double precision the order of operations counts: lots are one quotient, of the size without
/// its sign and the contract size.
pub proof fn law_lots_order_of_operations(exposure: Exposure, contract_size: Real)
    ensures
        contract_size.zero() ==> lots_of(exposure, contract_size) == Formula::Integer(0),
        !contract_size.zero() ==> lots_of(exposure, contract_size) == Formula::Quotient(
            Box::new(Formula::Number(exposure.signed_qty.magnitude())),
            Box::new(Formula::Number(contract_size)),
        ),
{
}

/// A night charges each position of the snapshot in the instrument of some terms, in order: the
/// points of its side per lot for `ccy_margin`, or as a percentage of the rounded notional over
/// 360 days for `interest`, three times on the triple night, at the exchange rate to the base
/// currency. It charges nothing on a weekend, for disabled terms, in an unknown instrument, or for
/// `interest` without a mark.
pub proof fn law_night_charge_values(
    spec: SwapSpec,
    weekday: u8,
    snapshot: SnapshotModel,
    use_snapshot_mark: bool,
    ctx: ContextModel,
    round: spec_fn(real, Currency) -> real,
)
    ensures
        spec_charges(spec, weekday, snapshot, use_snapshot_mark, ctx).map_values(
            |c: SwapCharge| (c.instrument_id, c.currency, c.amount.value(round)),
        ) == {
            let id = spec.instrument_id;
            let instrument = ctx.instruments[id];
            let quote = instrument.quote_currency;
            let mark = if use_snapshot_mark && snapshot.marks.contains_key(id) {
                Some(snapshot.marks[id])
            } else {
                mark_of(instrument)
            };
            if weekday == 6 || weekday == 7 || spec.mode is Disabled
                || !ctx.instruments.contains_key(id) || !snapshot.exposures.contains_key(id) || (
            spec.mode is Interest && mark is None) {
                Seq::empty()
            } else {
                snapshot.exposures[id].map_values(
                    |e: Exposure|
                        {
                            let points = if e.is_long {
                                spec.swap_long.value()
                            } else {
                                spec.swap_short.value()
                            };
                            let nights = if weekday == spec.swap_3day_dow {
                                3real
                            } else {
                                1real
                            };
                            let size = if e.signed_qty.negative() {
                                -e.signed_qty.value()
                            } else {
                                e.signed_qty.value()
                            };
                            let lots = if spec.contract_size.zero() {
                                0real
                            } else {
                                size / spec.contract_size.value()
                            };
                            let notional = round(
                                e.quantity.value() * e.multiplier.value() * mark->0.value(),
                                quote,
                            );
                            let flow = if spec.mode is CcyMargin {
                                lots * points * nights
                            } else {
                                points / 100real * notional / 360real * nights
                            };
                            if ctx.base_currency is None || ctx.base_currency->0 == quote {
                                (id, quote, flow)
                            } else if instrument.xrate is None || instrument.xrate->0.zero() {
                                (id, ctx.base_currency->0, 0real)
                            } else {
                                (id, ctx.base_currency->0, flow * instrument.xrate->0.value())
                            }
                        },
                )
            }
        },
{
    let id = spec.instrument_id;
    let instrument = ctx.instruments[id];
    let quote = instrument.quote_currency;
    let mark = resolved_mark(id, instrument, snapshot, use_snapshot_mark);
    let exposures = snapshot.exposures[id];
    let charges = spec_charges(spec, weekday, snapshot, use_snapshot_mark, ctx);
    let none = weekday == 6 || weekday == 7 || spec.mode is Disabled
        || !ctx.instruments.contains_key(id) || !snapshot.exposures.contains_key(id) || (
    spec.mode is Interest && mark is None);
    if ctx.instruments.contains_key(id) && snapshot.exposures.contains_key(id) {
        lemma_charges_of_exposures(
            spec,
            exposures,
            weekday,
            mark,
            instrument,
            ctx.base_currency,
            round,
        );
    }
    if none {
        assert(charges =~= Seq::empty());
    }
}

proof fn lemma_charges_of_exposures(
    spec: SwapSpec,
    exposures: Seq<Exposure>,
    weekday: u8,
    mark: Option<Real>,
    instrument: Instrument,
    base_currency: Option<Currency>,
    round: spec_fn(real, Currency) -> real,
)
    ensures
        ({
            let charges = exposure_charges(
                spec,
                exposures,
                weekday,
                mark,
                instrument,
                base_currency,
            );
            let quote = instrument.quote_currency;
            let none = weekday == 6 || weekday == 7 || spec.mode is Disabled || (
            spec.mode is Interest && mark is None);
            &&& none ==> charges.len() == 0
            &&& !none ==> charges.len() == exposures.len() && forall|j: int|
                0 <= j < charges.len() ==> {
                    let e = exposures[j];
                    let charge = #[trigger] charges[j];
                    let points = if e.is_long {
                        spec.swap_long.value()
                    } else {
                        spec.swap_short.value()
                    };
                    let nights = if weekday == spec.swap_3day_dow { 3real } else { 1real };
                    let size = if e.signed_qty.negative() {
                        -e.signed_qty.value()
                    } else {
                        e.signed_qty.value()
                    };
                    let lots = if spec.contract_size.zero() {
                        0real
                    } else {
                        size / spec.contract_size.value()
                    };
                    let notional = round(
                        e.quantity.value() * e.multiplier.value() * mark->0.value(),
                        quote,
                    );
                    let flow = if spec.mode is CcyMargin {
                        lots * points * nights
                    } else {
                        points / 100real * notional / 360real * nights
                    };
                    let foreign = base_currency is Some && base_currency->0 != quote;
                    &&& charge.instrument_id == spec.instrument_id
                    &&& !foreign ==> charge.currency == quote && charge.amount.value(round) == flow
                    &&& foreign ==> charge.currency == base_currency->0 && charge.amount.value(
                        round,
                    ) == (if instrument.xrate is None || instrument.xrate->0.zero() {
                        0real
                    } else {
                        flow * instrument.xrate->0.value()
                    })
                }
        }),
    decreases exposures.len(),
{
    let quote = instrument.quote_currency;
    law_mode_text_round_trip(spec.mode);
    if exposures.len() > 0 {
        let rest = exposures.drop_last();
        let e = exposures.last();
        lemma_charges_of_exposures(spec, rest, weekday, mark, instrument, base_currency, round);
        let before = exposure_charges(spec, rest, weekday, mark, instrument, base_currency);
        let all = exposure_charges(spec, exposures, weekday, mark, instrument, base_currency);
        let none = weekday == 6 || weekday == 7 || spec.mode is Disabled || (
        spec.mode is Interest && mark is None);
        let flow = exposure_flow(spec, e, weekday, mark, quote);
        if !none {
            let notional = if spec.mode is Interest {
                notional_of(e, mark->0, quote)
            } else {
                Formula::Integer(0)
            };
            law_notional_value(e, mark->0, quote, round);
            law_lots_value(e, spec.contract_size, round);
            law_night_flow_value(
                spec.mode.text(),
                spec.swap_long,
                spec.swap_short,
                e.is_long,
                weekday,
                notional,
                lots_of(e, spec.contract_size),
                spec.swap_3day_dow,
                round,
            );
            law_mode_texts(spec.mode.text());
            law_conversion_value(base_currency, instrument.xrate, flow->0, quote, round);
            assert(flow is Some && flow->0 != Formula::Integer(0));
            assert(all.drop_last() =~= before);
            assert forall|j: int| 0 <= j < before.len() implies #[trigger] all[j] == before[j]
                && rest[j] == exposures[j] by {}
        } else {
            assert(flow is None || flow->0 == Formula::Integer(0));
        }
    }
}

/// A night charges the terms one after the other, and nothing on a Saturday or a Sunday.
pub proof fn law_night_charges_by_terms(
    specs: Seq<SwapSpec>,
    weekday: u8,
    snapshot: SnapshotModel,
    use_snapshot_mark: bool,
    ctx: ContextModel,
)
    ensures
        night_charges(specs, weekday, snapshot, use_snapshot_mark, ctx) == if weekday == 6
            || weekday == 7 {
            Seq::empty()
        } else {
            Seq::new(
                specs.len(),
                |s: int| spec_charges(specs[s], weekday, snapshot, use_snapshot_mark, ctx),
            ).flatten()
        },
{
    let part = |s: int| spec_charges(specs[s], weekday, snapshot, use_snapshot_mark, ctx);
    let n = specs.len() as int;
    if weekday != 6 && weekday != 7 {
        lemma_night_by_terms(specs, weekday, snapshot, use_snapshot_mark, ctx, part, n);
        assert(specs.take(n) =~= specs);
    }
}

proof fn lemma_night_by_terms(
    specs: Seq<SwapSpec>,
    weekday: u8,
    snapshot: SnapshotModel,
    use_snapshot_mark: bool,
    ctx: ContextModel,
    part: spec_fn(int) -> Seq<SwapCharge>,
    n: int,
)
    requires
        0 <= n <= specs.len(),
        weekday != 6 && weekday != 7,
        part == (|s: int| spec_charges(specs[s], weekday, snapshot, use_snapshot_mark, ctx)),
    ensures
        night_charges(specs.take(n), weekday, snapshot, use_snapshot_mark, ctx) == Seq::new(
            n as nat,
            part,
        ).flatten(),
    decreases n,
{
    if n > 0 {
        lemma_night_by_terms(specs, weekday, snapshot, use_snapshot_mark, ctx, part, n - 1);
        lemma_flatten_next((n - 1) as nat, part);
        assert(specs.take(n).drop_last() =~= specs.take(n - 1));
    } else {
        assert(Seq::new(n as nat, part).flatten() =~= Seq::<SwapCharge>::empty());
    }
}

/// A process call charges the nights from its first one on, up to and without the next one, one
/// after the other. A rollover before the call is charged against the positions and marks of the
/// call before, any other against those of this call; the day number of the rollover gives its
/// weekday.
pub proof fn law_process_charges_by_night(model: SwapModel, ts_now: u64, ctx: ContextModel)
    requires
        model.valid(),
        model.specs.len() > 0,
        model.regular_call(ts_now),
    ensures
        ({
            let first = match model.next_roll {
                Some(day) => day,
                None => opening_day(ts_now as int),
            };
            let stop = model.processed(ts_now, ctx).next_roll->0;
            &&& first <= stop
            &&& model.charges(ts_now, ctx) == Seq::new(
                (stop - first) as nat,
                |n: int|
                    {
                        let day = first + n;
                        let gap = model.prev_snapshot is Some && roll_ns(day)->0 < ts_now;
                        night_charges(
                            model.specs,
                            ((day + 3) % 7 + 1) as u8,
                            if gap {
                                model.prev_snapshot->0
                            } else {
                                model.snapshot(ctx)
                            },
                            gap,
                            ctx,
                        )
                    },
            ).flatten()
        }),
{
    let first = model.first_day(ts_now);
    let stop = model.stop_day(ts_now);
    let inputs = model.inputs(ts_now, ctx);
    let part = |n: int| roll_charges(model.specs, first + n, inputs);
    let owed = |n: int|
        {
            let day = first + n;
            let gap = model.prev_snapshot is Some && roll_ns(day)->0 < ts_now;
            night_charges(
                model.specs,
                ((day + 3) % 7 + 1) as u8,
                if gap {
                    model.prev_snapshot->0
                } else {
                    model.snapshot(ctx)
                },
                gap,
                ctx,
            )
        };
    lemma_rolled_by_night(model.specs, first, (stop - first) as nat, inputs, part);
    assert(Seq::new((stop - first) as nat, part) =~= Seq::new((stop - first) as nat, owed));
}

proof fn lemma_rolled_by_night(
    specs: Seq<SwapSpec>,
    first: int,
    count: nat,
    inputs: ProcessInputs,
    part: spec_fn(int) -> Seq<SwapCharge>,
)
    requires
        part == (|n: int| roll_charges(specs, first + n, inputs)),
    ensures
        rolled_charges(specs, first, first + count, inputs) == Seq::new(count, part).flatten(),
    decreases count,
{
    if count > 0 {
        let before = (count - 1) as nat;
        lemma_rolled_by_night(specs, first, before, inputs, part);
        lemma_flatten_next(before, part);
    } else {
        assert(Seq::new(count, part).flatten() =~= Seq::<SwapCharge>::empty());
    }
}

/// Every charge of a process call is for a position, terms of its instrument, and a rollover at or
/// before the call, on a weekday: its amount is the points of the side of the position per lot,
/// or as a percentage of its rounded notional over 360 days, three times on the triple night, and
/// times the exchange rate where it is converted. The day of the rollover, the terms and the
/// position in the group are returned.
pub proof fn law_process_charge_values(
    model: SwapModel,
    ts_now: u64,
    ctx: ContextModel,
    round: spec_fn(real, Currency) -> real,
    k: int,
) -> (at: (int, int, int))
    requires
        model.valid(),
        model.regular_call(ts_now),
        0 <= k < model.charges(ts_now, ctx).len(),
    ensures
        ({
            let (day, s, j) = at;
            let charge = model.charges(ts_now, ctx)[k];
            let spec = model.specs[s];
            let id = spec.instrument_id;
            let instrument = ctx.instruments[id];
            let quote = instrument.quote_currency;
            let gap = model.prev_snapshot is Some && roll_ns(day)->0 < ts_now;
            let snapshot = if gap { model.prev_snapshot->0 } else { model.snapshot(ctx) };
            let e = snapshot.exposures[id][j];
            let mark = if gap && snapshot.marks.contains_key(id) {
                Some(snapshot.marks[id])
            } else {
                mark_of(instrument)
            };
            let points = if e.is_long { spec.swap_long.value() } else { spec.swap_short.value() };
            let nights = if (day + 3) % 7 + 1 == spec.swap_3day_dow { 3real } else { 1real };
            let size = if e.signed_qty.negative() {
                -e.signed_qty.value()
            } else {
                e.signed_qty.value()
            };
            let lots = if spec.contract_size.zero() {
                0real
            } else {
                size / spec.contract_size.value()
            };
            let notional = round(
                e.quantity.value() * e.multiplier.value() * mark->0.value(),
                quote,
            );
            let flow = if spec.mode is CcyMargin {
                lots * points * nights
            } else {
                points / 100real * notional / 360real * nights
            };
            let foreign = ctx.base_currency is Some && ctx.base_currency->0 != quote;
            let rated = instrument.xrate is Some && !instrument.xrate->0.zero();
            &&& roll_ns(day) is Some && roll_ns(day)->0 <= ts_now
            &&& (day + 3) % 7 < 5
            &&& 0 <= s < model.specs.len()
            &&& spec.mode !is Disabled
            &&& ctx.instruments.contains_key(id)
            &&& snapshot.exposures.contains_key(id)
            &&& 0 <= j < snapshot.exposures[id].len()
            &&& spec.mode is Interest ==> mark is Some
            &&& charge.instrument_id == id
            &&& charge.currency == if foreign { ctx.base_currency->0 } else { quote }
            &&& !foreign ==> charge.amount.value(round) == flow
            &&& foreign && rated ==> charge.amount.value(round) == flow * instrument.xrate->0.value()
            &&& foreign && !rated ==> charge.amount.value(round) == 0real
        }),
{
    let first = model.first_day(ts_now);
    let stop = model.stop_day(ts_now);
    let inputs = model.inputs(ts_now, ctx);
    let part = |n: int| roll_charges(model.specs, first + n, inputs);
    lemma_rolled_by_night(model.specs, first, (stop - first) as nat, inputs, part);
    let nights = Seq::new((stop - first) as nat, part);
    let outer = lemma_flatten_element(nights, k);
    let day = first + outer.0;
    assert(regular_roll(day));
    assert(regular_roll(stop));
    assert(roll_ns(day) is Some);
    law_process_rolls_all_due(model, ts_now, day);
    let gap = model.prev_snapshot is Some && roll_ns(day)->0 < ts_now;
    let snapshot = if gap { model.prev_snapshot->0 } else { model.snapshot(ctx) };
    let weekday = iso_weekday(day) as u8;
    law_night_charges_by_terms(model.specs, weekday, snapshot, gap, ctx);
    let by_terms = Seq::new(
        model.specs.len(),
        |s: int| spec_charges(model.specs[s], weekday, snapshot, gap, ctx),
    );
    assert(nights[outer.0] == by_terms.flatten());
    let inner = lemma_flatten_element(by_terms, outer.1);
    let s = inner.0;
    let j = inner.1;
    let charges = spec_charges(model.specs[s], weekday, snapshot, gap, ctx);
    law_night_charge_values(model.specs[s], weekday, snapshot, gap, ctx, round);
    let values = charges.map_values(
        |c: SwapCharge| (c.instrument_id, c.currency, c.amount.value(round)),
    );
    assert(values.len() == charges.len());
    assert(values[j] == (
        charges[j].instrument_id,
        charges[j].currency,
        charges[j].amount.value(round),
    ));
    (day, s, j)
}

/// A snapshot holds every open position in an instrument that has swap terms, in cache order, and
/// the live mark of the `interest` instruments among them that are known.
pub proof fn law_snapshot_of_configured_positions(
    model: SwapModel,
    ctx: ContextModel,
    id: InstrumentId,
)
    ensures
        ({
            let snapshot = model.snapshot(ctx);
            let configured = exists|i: int|
                0 <= i < model.specs.len() && (#[trigger] model.specs[i]).instrument_id == id;
            let priced = exists|i: int|
                0 <= i < model.specs.len() && (#[trigger] model.specs[i]).instrument_id == id
                    && model.specs[i].mode == SwapMode::Interest;
            let open = ctx.positions.filter(|p: Position| p.instrument_id == id).map_values(
                |p: Position| p.exposure,
            );
            let marked = priced && open.len() > 0 && ctx.instruments.contains_key(id) && mark_of(
                ctx.instruments[id],
            ) is Some;
            &&& snapshot.exposures.contains_key(id) <==> configured && open.len() > 0
            &&& snapshot.exposures.contains_key(id) ==> snapshot.exposures[id] == open
            &&& snapshot.marks.contains_key(id) <==> marked
            &&& marked ==> snapshot.marks[id] == mark_of(ctx.instruments[id])->0
        }),
{
    law_snapshot_holds_open_positions(ctx, model.configured(), model.priced(), id);
    if model.priced().contains(id) {
        let i = choose|i: int|
            0 <= i < model.specs.len() && (#[trigger] model.specs[i]).instrument_id == id
                && model.specs[i].mode is Interest;
        assert(model.specs[i].instrument_id == id && model.specs[i].mode == SwapMode::Interest);
    }
}

/// A process call of a module that has terms captures the venue that it was handed, whatever the
/// call before captured, and makes the first rollover after it the next one; a module without
/// terms completes an empty batch. Costs and terms stay.
pub proof fn law_process_state(model: SwapModel, ts_now: u64, ctx: ContextModel)
    requires
        model.valid(),
        model.specs.len() > 0 ==> model.regular_call(ts_now),
    ensures
        ({
            let after = model.processed(ts_now, ctx);
            let first = match model.next_roll {
                Some(day) => day,
                None => opening_day(ts_now as int),
            };
            &&& after.specs == model.specs
            &&& after.ledger == model.ledger
            &&& model.specs.len() > 0 ==> {
                &&& after.prev_snapshot == Some(model.snapshot(ctx))
                &&& after.awaiting == model.awaiting
                &&& after.next_roll is Some
                &&& roll_ns(after.next_roll->0) is Some
                &&& roll_ns(after.next_roll->0)->0 > ts_now
                &&& forall|day: int| #[trigger]
                    regular_roll(day) && roll_ns(day) is Some && first <= day ==> (day
                        < after.next_roll->0 <==> roll_ns(day)->0 <= ts_now)
            }
            &&& model.specs.len() == 0 ==> {
                &&& after.prev_snapshot == model.prev_snapshot
                &&& after.next_roll == model.next_roll
                &&& after.awaiting == Some(Seq::<SwapAdjustment>::empty())
            }
        }),
{
    if model.specs.len() > 0 {
        assert forall|day: int| #[trigger]
            regular_roll(day) && roll_ns(day) is Some && model.first_day(ts_now) <= day implies (day
            < model.stop_day(ts_now) <==> roll_ns(day)->0 <= ts_now) by {
            law_process_rolls_all_due(model, ts_now, day);
        }
    }
}

/// Of two calls one after the other, a rollover strictly before the second one is charged against
/// the positions that were open at the first one, and at the mark that an `interest` instrument
/// had then, also where other calls came before; a rollover at the second one is charged against
/// the positions and the mark of the second one.
pub proof fn law_gap_is_charged_as_the_call_before_saw_it(
    model: SwapModel,
    first: u64,
    before: ContextModel,
    second: u64,
    ctx: ContextModel,
    day: int,
    s: int,
    round: spec_fn(real, Currency) -> real,
)
    requires
        model.valid(),
        0 <= s < model.specs.len(),
        ctx.instruments.contains_key(model.specs[s].instrument_id),
        roll_ns(day) is Some,
        roll_ns(day)->0 <= second,
        (day + 3) % 7 < 5,
    ensures
        ({
            let between = model.processed(first, before);
            let spec = model.specs[s];
            let id = spec.instrument_id;
            let weekday = ((day + 3) % 7 + 1) as u8;
            let gap = roll_ns(day)->0 < second;
            let seen = if gap { before } else { ctx };
            let open = seen.positions.filter(|p: Position| p.instrument_id == id).map_values(
                |p: Position| p.exposure,
            );
            let instrument = ctx.instruments[id];
            let quote = instrument.quote_currency;
            let captured = gap && before.instruments.contains_key(id) && mark_of(
                before.instruments[id],
            ) is Some;
            let mark = if captured {
                mark_of(before.instruments[id])
            } else {
                mark_of(instrument)
            };
            &&& between.prev_snapshot is Some
            &&& spec_charges(
                spec,
                weekday,
                if gap {
                    between.prev_snapshot->0
                } else {
                    between.snapshot(ctx)
                },
                gap,
                ctx,
            ).map_values(
                |c: SwapCharge| (c.instrument_id, c.currency, c.amount.value(round)),
            ) == if spec.mode is Disabled || (spec.mode is Interest && mark is None) {
                Seq::empty()
            } else {
                open.map_values(
                    |e: Exposure|
                        {
                            let points = if e.is_long {
                                spec.swap_long.value()
                            } else {
                                spec.swap_short.value()
                            };
                            let nights = if weekday == spec.swap_3day_dow {
                                3real
                            } else {
                                1real
                            };
                            let size = if e.signed_qty.negative() {
                                -e.signed_qty.value()
                            } else {
                                e.signed_qty.value()
                            };
                            let lots = if spec.contract_size.zero() {
                                0real
                            } else {
                                size / spec.contract_size.value()
                            };
                            let notional = round(
                                e.quantity.value() * e.multiplier.value() * mark->0.value(),
                                quote,
                            );
                            let flow = if spec.mode is CcyMargin {
                                lots * points * nights
                            } else {
                                points / 100real * notional / 360real * nights
                            };
                            if ctx.base_currency is None || ctx.base_currency->0 == quote {
                                (id, quote, flow)
                            } else if instrument.xrate is None || instrument.xrate->0.zero() {
                                (id, ctx.base_currency->0, 0real)
                            } else {
                                (id, ctx.base_currency->0, flow * instrument.xrate->0.value())
                            }
                        },
                )
            }
        }),
{
    let between = model.processed(first, before);
    let spec = model.specs[s];
    let id = spec.instrument_id;
    let weekday = ((day + 3) % 7 + 1) as u8;
    let gap = roll_ns(day)->0 < second;
    let snapshot = if gap { between.prev_snapshot->0 } else { between.snapshot(ctx) };
    law_snapshot_of_configured_positions(model, before, id);
    law_snapshot_of_configured_positions(between, ctx, id);
    assert(between.specs[s].instrument_id == id);
    assert(between.prev_snapshot == Some(model.snapshot(before)));
    if spec.mode is Interest {
        assert(model.specs[s].instrument_id == id && model.specs[s].mode == SwapMode::Interest);
    }
    law_night_charge_values(spec, weekday, snapshot, gap, ctx, round);
    let seen = if gap { before } else { ctx };
    let open = seen.positions.filter(|p: Position| p.instrument_id == id).map_values(
        |p: Position| p.exposure,
    );
    let values = spec_charges(spec, weekday, snapshot, gap, ctx).map_values(
        |c: SwapCharge| (c.instrument_id, c.currency, c.amount.value(round)),
    );
    if open.len() == 0 {
        assert(values =~= Seq::empty());
    } else if spec.mode is CcyMargin {
        let instrument = ctx.instruments[id];
        let quote = instrument.quote_currency;
        assert(snapshot.exposures[id] == open);
        assert(values =~= open.map_values(
            |e: Exposure|
                {
                    let points = if e.is_long {
                        spec.swap_long.value()
                    } else {
                        spec.swap_short.value()
                    };
                    let nights = if weekday == spec.swap_3day_dow { 3real } else { 1real };
                    let size = if e.signed_qty.negative() {
                        -e.signed_qty.value()
                    } else {
                        e.signed_qty.value()
                    };
                    let lots = if spec.contract_size.zero() {
                        0real
                    } else {
                        size / spec.contract_size.value()
                    };
                    let flow = lots * points * nights;
                    if ctx.base_currency is None || ctx.base_currency->0 == quote {
                        (id, quote, flow)
                    } else if instrument.xrate is None || instrument.xrate->0.zero() {
                        (id, ctx.base_currency->0, 0real)
                    } else {
                        (id, ctx.base_currency->0, flow * instrument.xrate->0.value())
                    }
                },
        ));
    }
}

/// A rollover in a gap is charged the same on terms whose instrument has a mark in the snapshot,
/// or needs none, whatever the books and last prices have come to.
pub proof fn law_gap_charges_ignore_later_prices(
    spec: SwapSpec,
    weekday: u8,
    snapshot: SnapshotModel,
    ctx: ContextModel,
    other: ContextModel,
)
    requires
        spec.mode is Interest ==> snapshot.marks.contains_key(spec.instrument_id),
        ctx.base_currency == other.base_currency,
        ctx.instruments.contains_key(spec.instrument_id) <==> other.instruments.contains_key(
            spec.instrument_id,
        ),
        ctx.instruments[spec.instrument_id].quote_currency
            == other.instruments[spec.instrument_id].quote_currency,
        ctx.instruments[spec.instrument_id].xrate == other.instruments[spec.instrument_id].xrate,
    ensures
        spec_charges(spec, weekday, snapshot, true, ctx) == spec_charges(
            spec,
            weekday,
            snapshot,
            true,
            other,
        ),
{
    let id = spec.instrument_id;
    if ctx.instruments.contains_key(id) && snapshot.exposures.contains_key(id) {
        lemma_charges_ignore_prices(
            spec,
            snapshot.exposures[id],
            weekday,
            resolved_mark(id, ctx.instruments[id], snapshot, true),
            resolved_mark(id, other.instruments[id], snapshot, true),
            ctx.instruments[id],
            other.instruments[id],
            ctx.base_currency,
        );
    }
}

proof fn lemma_charges_ignore_prices(
    spec: SwapSpec,
    exposures: Seq<Exposure>,
    weekday: u8,
    mark: Option<Real>,
    other_mark: Option<Real>,
    instrument: Instrument,
    other: Instrument,
    base_currency: Option<Currency>,
)
    requires
        spec.mode is Interest ==> mark == other_mark,
        instrument.quote_currency == other.quote_currency,
        instrument.xrate == other.xrate,
    ensures
        exposure_charges(spec, exposures, weekday, mark, instrument, base_currency)
            == exposure_charges(spec, exposures, weekday, other_mark, other, base_currency),
    decreases exposures.len(),
{
    if exposures.len() > 0 {
        lemma_charges_ignore_prices(
            spec,
            exposures.drop_last(),
            weekday,
            mark,
            other_mark,
            instrument,
            other,
            base_currency,
        );
    }
}

/// A call whose rollovers all fell in the gap makes the same charges whatever the books and last
/// prices have come to, if each `interest` instrument had a mark before it.
pub proof fn law_gap_call_ignores_later_prices(
    model: SwapModel,
    ts_now: u64,
    ctx: ContextModel,
    other: ContextModel,
)
    requires
        model.valid(),
        model.specs.len() > 0,
        model.prev_snapshot is Some,
        model.regular_call(ts_now),
        forall|day: int| #[trigger] regular_roll(day) ==> roll_ns(day) != Some(ts_now as int),
        forall|s: int|
            0 <= s < model.specs.len() && (#[trigger] model.specs[s]).mode is Interest
                ==> model.prev_snapshot->0.marks.contains_key(model.specs[s].instrument_id),
        ctx.base_currency == other.base_currency,
        forall|id: InstrumentId| #[trigger]
            ctx.instruments.contains_key(id) <==> other.instruments.contains_key(id),
        forall|id: InstrumentId| #[trigger]
            ctx.instruments.contains_key(id) ==> ctx.instruments[id].quote_currency
                == other.instruments[id].quote_currency && ctx.instruments[id].xrate
                == other.instruments[id].xrate,
    ensures
        model.charges(ts_now, ctx) == model.charges(ts_now, other),
{
    let first = model.first_day(ts_now);
    let stop = model.stop_day(ts_now);
    let inputs = model.inputs(ts_now, ctx);
    let others = model.inputs(ts_now, other);
    let part = |n: int| roll_charges(model.specs, first + n, inputs);
    let other_part = |n: int| roll_charges(model.specs, first + n, others);
    let count = (stop - first) as nat;
    assert forall|n: int| 0 <= n < count implies #[trigger] part(n) == other_part(n) by {
        let day = first + n;
        assert(regular_roll(day));
        assert(regular_roll(stop));
        assert(roll_ns(day) is Some);
        law_process_rolls_all_due(model, ts_now, day);
        assert(roll_ns(day) != Some(ts_now as int));
        lemma_night_ignores_prices(
            model.specs,
            iso_weekday(day) as u8,
            model.prev_snapshot->0,
            ctx,
            other,
            model.specs.len() as int,
        );
        assert(model.specs.take(model.specs.len() as int) =~= model.specs);
    }
    lemma_rolled_by_night(model.specs, first, count, inputs, part);
    lemma_rolled_by_night(model.specs, first, count, others, other_part);
    assert(Seq::new(count, part) =~= Seq::new(count, other_part));
}

proof fn lemma_night_ignores_prices(
    specs: Seq<SwapSpec>,
    weekday: u8,
    snapshot: SnapshotModel,
    ctx: ContextModel,
    other: ContextModel,
    n: int,
)
    requires
        0 <= n <= specs.len(),
        forall|s: int|
            0 <= s < specs.len() && (#[trigger] specs[s]).mode is Interest
                ==> snapshot.marks.contains_key(specs[s].instrument_id),
        ctx.base_currency == other.base_currency,
        forall|id: InstrumentId| #[trigger]
            ctx.instruments.contains_key(id) <==> other.instruments.contains_key(id),
        forall|id: InstrumentId| #[trigger]
            ctx.instruments.contains_key(id) ==> ctx.instruments[id].quote_currency
                == other.instruments[id].quote_currency && ctx.instruments[id].xrate
                == other.instruments[id].xrate,
    ensures
        night_charges(specs.take(n), weekday, snapshot, true, ctx) == night_charges(
            specs.take(n),
            weekday,
            snapshot,
            true,
            other,
        ),
    decreases n,
{
    if n > 0 {
        lemma_night_ignores_prices(specs, weekday, snapshot, ctx, other, n - 1);
        assert(specs.take(n).drop_last() =~= specs.take(n - 1));
        assert(specs.take(n).last() == specs[n - 1]);
        if ctx.instruments.contains_key(specs[n - 1].instrument_id) {
            law_gap_charges_ignore_later_prices(specs[n - 1], weekday, snapshot, ctx, other);
        }
    }
}

/// After the first call of a run, and after any call that is no earlier than the one before it,
/// the next rollover is the first one after the call: exactly the days before it have theirs at
/// or before the call.
pub proof fn law_next_rollover_is_the_first_after_the_call(
    model: SwapModel,
    ts_prev: int,
    ts_now: u64,
    ctx: ContextModel,
    day: int,
)
    requires
        model.specs.len() > 0,
        model.regular_call(ts_now),
        ts_prev <= ts_now,
        model.next_roll is Some ==> forall|d: int| #[trigger]
            regular_roll(d) && roll_ns(d) is Some ==> (d < model.next_roll->0 <==> roll_ns(d)->0
                <= ts_prev),
        regular_roll(day),
        roll_ns(day) is Some,
    ensures
        model.processed(ts_now, ctx).next_roll is Some,
        day < model.processed(ts_now, ctx).next_roll->0 <==> roll_ns(day)->0 <= ts_now,
{
    lemma_catches_up(model, ts_now, ts_prev, ctx);
}

/// A run that starts at the very instant of a rollover is charged for that night against the
/// positions of the call, and for no other night.
pub proof fn law_run_starting_at_a_rollover_is_charged(
    model: SwapModel,
    ts_now: u64,
    ctx: ContextModel,
    day: int,
)
    requires
        model.valid(),
        model.specs.len() > 0,
        model.next_roll is None,
        model.regular_call(ts_now),
        regular_roll(day),
        roll_ns(day) == Some(ts_now as int),
    ensures
        model.charges(ts_now, ctx) == night_charges(
            model.specs,
            ((day + 3) % 7 + 1) as u8,
            model.snapshot(ctx),
            false,
            ctx,
        ),
{
    let opening = opening_day(ts_now as int);
    assert(regular_roll(opening));
    assert(opening == day);
    law_opening_rollover_is_charged(model, ts_now, ctx);
}

/// A run that does not start at the very instant of a rollover is charged for nothing yet.
pub proof fn law_run_is_not_charged_for_the_past(
    model: SwapModel,
    ts_now: u64,
    ctx: ContextModel,
)
    requires
        model.valid(),
        model.next_roll is None,
        model.specs.len() > 0 ==> model.regular_call(ts_now),
        forall|day: int| #[trigger] regular_roll(day) ==> roll_ns(day) != Some(ts_now as int),
    ensures
        model.charges(ts_now, ctx).len() == 0,
{
    if model.specs.len() > 0 {
        let opening = opening_day(ts_now as int);
        assert(regular_roll(opening));
        assert(roll_ns(opening) != Some(ts_now as int));
        assert(roll_ns(opening) is Some && roll_ns(opening)->0 > ts_now);
    }
}

/// The adjustments of a completed batch are those of the charges whose amount is valid and not
/// zero, in order, each with the instrument and currency of its charge.
pub proof fn law_complete_keeps_valid_amounts(
    model: SwapModel,
    charges: Seq<SwapCharge>,
    amounts: Seq<Option<i128>>,
)
    requires
        charges.len() == amounts.len(),
    ensures
        ({
            let after = model.completed(charges, amounts);
            &&& after.awaiting == Some(
                Seq::new(charges.len(), |i: int| i).filter(
                    |i: int| amounts[i] is Some && amounts[i]->0 != 0,
                ).map_values(
                    |i: int|
                        SwapAdjustment {
                            instrument_id: charges[i].instrument_id,
                            amount: Money { raw: amounts[i]->0, currency: charges[i].currency },
                        },
                ),
            )
            &&& after.specs == model.specs
            &&& after.next_roll == model.next_roll
            &&& after.prev_snapshot == model.prev_snapshot
            &&& after.ledger == model.ledger
        }),
{
    let kept = |i: int| amounts[i] is Some && amounts[i]->0 != 0;
    let value = |i: int|
        SwapAdjustment {
            instrument_id: charges[i].instrument_id,
            amount: Money { raw: amounts[i]->0, currency: charges[i].currency },
        };
    let n = charges.len() as int;
    let all = Seq::new(charges.len(), |i: int| i);
    lemma_adjustments_by_index(charges, amounts, kept, value, n);
    assert(charges.take(n) =~= charges);
    assert(amounts.take(n) =~= amounts);
    assert(all.take(n) =~= all);
}

proof fn lemma_adjustments_by_index(
    charges: Seq<SwapCharge>,
    amounts: Seq<Option<i128>>,
    kept: spec_fn(int) -> bool,
    value: spec_fn(int) -> SwapAdjustment,
    n: int,
)
    requires
        charges.len() == amounts.len(),
        0 <= n <= charges.len(),
        kept == (|i: int| amounts[i] is Some && amounts[i]->0 != 0),
        value == (|i: int|
            SwapAdjustment {
                instrument_id: charges[i].instrument_id,
                amount: Money { raw: amounts[i]->0, currency: charges[i].currency },
            }),
    ensures
        adjustments_of(charges.take(n), amounts.take(n)) == Seq::new(
            charges.len(),
            |i: int| i,
        ).take(n).filter(kept).map_values(value),
    decreases n,
{
    let all = Seq::new(charges.len(), |i: int| i);
    if n == 0 {
        lemma_filter_none(all, kept);
        assert(all.take(n).filter(kept).map_values(value) =~= Seq::empty());
    } else {
        lemma_adjustments_by_index(charges, amounts, kept, value, n - 1);
        lemma_filter_take(all, kept, n);
        assert(charges.take(n).drop_last() =~= charges.take(n - 1));
        assert(amounts.take(n).drop_last() =~= amounts.take(n - 1));
        let before = all.take(n - 1).filter(kept);
        assert(before.push(all[n - 1]).map_values(value) =~= before.map_values(value).push(
            value(n - 1),
        ));
    }
}

/// An acknowledgement books each cost of the batch, the negated amount of its adjustment, in
/// order: an applied one on its own instrument and on the total, a failed one on the unapplied
/// cost alone.
pub proof fn law_acknowledge_books_each_cost(
    model: SwapModel,
    outcomes: Seq<AccountAdjustmentOutcome>,
    id: InstrumentId,
)
    requires
        model.valid(),
        model.awaiting is Some,
        model.awaiting->0.len() == outcomes.len(),
    ensures
        ({
            let after = model.acknowledged(outcomes);
            let batch = model.awaiting->0;
            let all = Seq::new(batch.len(), |i: int| i);
            let applied = all.filter(|i: int| outcomes[i] is Applied);
            let own = all.filter(
                |i: int| outcomes[i] is Applied && batch[i].instrument_id == id,
            );
            let failed = all.filter(|i: int| outcomes[i] is Failed);
            &&& entry_terms(after.ledger.instruments, id) == entry_terms(
                model.ledger.instruments,
                id,
            ) + own.map_values(|i: int| (-batch[i].amount.raw) as i128)
            &&& after.ledger.total == model.ledger.total + applied.map_values(
                |i: int| (-batch[i].amount.raw) as i128,
            )
            &&& after.ledger.unapplied == model.ledger.unapplied + failed.map_values(
                |i: int| (-batch[i].amount.raw) as i128,
            )
            &&& after.awaiting is None
            &&& after.specs == model.specs
            &&& after.next_roll == model.next_roll
            &&& after.prev_snapshot == model.prev_snapshot
        }),
{
    let batch = model.awaiting->0;
    let n = batch.len() as int;
    let all = Seq::new(batch.len(), |i: int| i);
    let is_applied = |i: int| outcomes[i] is Applied;
    let is_own = |i: int| outcomes[i] is Applied && batch[i].instrument_id == id;
    let is_failed = |i: int| outcomes[i] is Failed;
    let cost = |i: int| (-batch[i].amount.raw) as i128;
    lemma_booked_costs(model.ledger, batch, outcomes, id, is_own, cost, n);
    lemma_booked_totals(model.ledger, batch, outcomes, is_applied, is_failed, cost, n);
    assert(batch.take(n) =~= batch);
    assert(outcomes.take(n) =~= outcomes);
    assert(all.take(n) =~= all);
}

proof fn lemma_booked_costs(
    ledger: LedgerModel,
    batch: Seq<SwapAdjustment>,
    outcomes: Seq<AccountAdjustmentOutcome>,
    id: InstrumentId,
    is_own: spec_fn(int) -> bool,
    cost: spec_fn(int) -> i128,
    n: int,
)
    requires
        batch.len() == outcomes.len(),
        0 <= n <= batch.len(),
        is_own == (|i: int| outcomes[i] is Applied && batch[i].instrument_id == id),
        cost == (|i: int| (-batch[i].amount.raw) as i128),
    ensures
        entry_terms(acknowledged_ledger(ledger, batch.take(n), outcomes.take(n)).instruments, id)
            == entry_terms(ledger.instruments, id) + Seq::new(batch.len(), |i: int| i).take(
            n,
        ).filter(is_own).map_values(cost),
    decreases n,
{
    let all = Seq::new(batch.len(), |i: int| i);
    let terms = entry_terms(ledger.instruments, id);
    if n == 0 {
        lemma_filter_none(all, is_own);
        assert(terms + all.take(n).filter(is_own).map_values(cost) =~= terms);
    } else {
        lemma_booked_costs(ledger, batch, outcomes, id, is_own, cost, n - 1);
        lemma_filter_take(all, is_own, n);
        assert(batch.take(n).drop_last() =~= batch.take(n - 1));
        assert(outcomes.take(n).drop_last() =~= outcomes.take(n - 1));
        law_acknowledged_instrument(
            acknowledged_ledger(ledger, batch.take(n - 1), outcomes.take(n - 1)),
            batch[n - 1].instrument_id,
            cost(n - 1),
            outcomes[n - 1],
            id,
        );
        let before = all.take(n - 1).filter(is_own);
        assert(terms + before.push(all[n - 1]).map_values(cost) =~= (terms + before.map_values(
            cost,
        )).push(cost(n - 1)));
    }
}

proof fn lemma_booked_totals(
    ledger: LedgerModel,
    batch: Seq<SwapAdjustment>,
    outcomes: Seq<AccountAdjustmentOutcome>,
    is_applied: spec_fn(int) -> bool,
    is_failed: spec_fn(int) -> bool,
    cost: spec_fn(int) -> i128,
    n: int,
)
    requires
        batch.len() == outcomes.len(),
        0 <= n <= batch.len(),
        is_applied == (|i: int| outcomes[i] is Applied),
        is_failed == (|i: int| outcomes[i] is Failed),
        cost == (|i: int| (-batch[i].amount.raw) as i128),
    ensures
        ({
            let after = acknowledged_ledger(ledger, batch.take(n), outcomes.take(n));
            let all = Seq::new(batch.len(), |i: int| i).take(n);
            &&& after.total == ledger.total + all.filter(is_applied).map_values(cost)
            &&& after.unapplied == ledger.unapplied + all.filter(is_failed).map_values(cost)
        }),
    decreases n,
{
    let all = Seq::new(batch.len(), |i: int| i);
    if n == 0 {
        lemma_filter_none(all, is_applied);
        lemma_filter_none(all, is_failed);
        assert(ledger.total + all.take(n).filter(is_applied).map_values(cost) =~= ledger.total);
        assert(ledger.unapplied + all.take(n).filter(is_failed).map_values(cost)
            =~= ledger.unapplied);
    } else {
        lemma_booked_totals(ledger, batch, outcomes, is_applied, is_failed, cost, n - 1);
        lemma_filter_take(all, is_applied, n);
        lemma_filter_take(all, is_failed, n);
        assert(batch.take(n).drop_last() =~= batch.take(n - 1));
        assert(outcomes.take(n).drop_last() =~= outcomes.take(n - 1));
        law_acknowledged_keeps_order(
            acknowledged_ledger(ledger, batch.take(n - 1), outcomes.take(n - 1)),
            batch[n - 1].instrument_id,
            cost(n - 1),
            outcomes[n - 1],
        );
        let applied = all.take(n - 1).filter(is_applied);
        let failed = all.take(n - 1).filter(is_failed);
        assert(ledger.total + applied.push(all[n - 1]).map_values(cost) =~= (ledger.total
            + applied.map_values(cost)).push(cost(n - 1)));
        assert(ledger.unapplied + failed.push(all[n - 1]).map_values(cost) =~= (ledger.unapplied
            + failed.map_values(cost)).push(cost(n - 1)));
    }
}

/// The instruments of the recorded costs stay where they are, and an acknowledgement adds those
/// that are charged for the first time, at the end, in the order of the applied adjustments.
pub proof fn law_instruments_in_order_of_first_charge(
    model: SwapModel,
    outcomes: Seq<AccountAdjustmentOutcome>,
)
    requires
        model.valid(),
        model.awaiting is Some,
        model.awaiting->0.len() == outcomes.len(),
    ensures
        ({
            let batch = model.awaiting->0;
            let applied = Seq::new(batch.len(), |i: int| i).filter(
                |i: int| outcomes[i] is Applied,
            );
            model.acknowledged(outcomes).ledger.instruments.map_values(
                |e: (InstrumentId, Seq<i128>)| e.0,
            ) == applied.fold_left(
                model.ledger.instruments.map_values(|e: (InstrumentId, Seq<i128>)| e.0),
                |ids: Seq<InstrumentId>, i: int|
                    if ids.contains(batch[i].instrument_id) {
                        ids
                    } else {
                        ids.push(batch[i].instrument_id)
                    },
            )
        }),
{
    let batch = model.awaiting->0;
    let n = batch.len() as int;
    let all = Seq::new(batch.len(), |i: int| i);
    let is_applied = |i: int| outcomes[i] is Applied;
    let number = |e: (InstrumentId, Seq<i128>)| e.0;
    let add_new = |ids: Seq<InstrumentId>, i: int|
        if ids.contains(batch[i].instrument_id) {
            ids
        } else {
            ids.push(batch[i].instrument_id)
        };
    lemma_first_charges(model.ledger, batch, outcomes, is_applied, number, add_new, n);
    assert(batch.take(n) =~= batch);
    assert(outcomes.take(n) =~= outcomes);
    assert(all.take(n) =~= all);
}

proof fn lemma_first_charges(
    ledger: LedgerModel,
    batch: Seq<SwapAdjustment>,
    outcomes: Seq<AccountAdjustmentOutcome>,
    is_applied: spec_fn(int) -> bool,
    number: spec_fn((InstrumentId, Seq<i128>)) -> InstrumentId,
    add_new: spec_fn(Seq<InstrumentId>, int) -> Seq<InstrumentId>,
    n: int,
)
    requires
        batch.len() == outcomes.len(),
        0 <= n <= batch.len(),
        is_applied == (|i: int| outcomes[i] is Applied),
        number == (|e: (InstrumentId, Seq<i128>)| e.0),
        add_new == (|ids: Seq<InstrumentId>, i: int|
            if ids.contains(batch[i].instrument_id) {
                ids
            } else {
                ids.push(batch[i].instrument_id)
            }),
    ensures
        acknowledged_ledger(ledger, batch.take(n), outcomes.take(n)).instruments.map_values(number)
            == Seq::new(batch.len(), |i: int| i).take(n).filter(is_applied).fold_left(
            ledger.instruments.map_values(number),
            add_new,
        ),
    decreases n,
{
    let all = Seq::new(batch.len(), |i: int| i);
    if n == 0 {
        lemma_filter_none(all, is_applied);
    } else {
        lemma_first_charges(ledger, batch, outcomes, is_applied, number, add_new, n - 1);
        lemma_filter_take(all, is_applied, n);
        assert(batch.take(n).drop_last() =~= batch.take(n - 1));
        assert(outcomes.take(n).drop_last() =~= outcomes.take(n - 1));
        let before = acknowledged_ledger(ledger, batch.take(n - 1), outcomes.take(n - 1));
        law_acknowledged_keeps_order(
            before,
            batch[n - 1].instrument_id,
            (-batch[n - 1].amount.raw) as i128,
            outcomes[n - 1],
        );
        let applied = all.take(n - 1).filter(is_applied);
        assert(applied.push(all[n - 1]).drop_last() =~= applied);
    }
}

/// Swap terms are accepted exactly where the name could be parsed, the mode is one of the three
/// wire strings, no swap point and no contract size has all its exponent bits set, the contract
/// size is not below zero, the triple night is an ISO weekday, and no earlier terms have the
/// instrument; each fault is reported where it is the first one.
pub proof fn law_terms_faults(terms: Seq<SwapTerms>, i: int)
    requires
        0 <= i < terms.len(),
    ensures
        ({
            let entry = terms[i];
            let named = entry.instrument_id is Some;
            let text = entry.swap_mode@;
            let known = text == "disabled"@ || text == "ccy_margin"@ || text == "interest"@;
            let pointed = entry.swap_long.bits % 0x8000_0000_0000_0000 < 0x7ff0_0000_0000_0000
                && entry.swap_short.bits % 0x8000_0000_0000_0000 < 0x7ff0_0000_0000_0000;
            let size = entry.contract_size.bits;
            let sized = size < 0x7ff0_0000_0000_0000 || size == 0x8000_0000_0000_0000;
            let nightly = 1 <= entry.swap_3day_dow <= 7;
            let repeated = exists|j: int|
                0 <= j < i && (#[trigger] terms[j]).instrument_id == entry.instrument_id;
            let fault = terms_fault(terms, i);
            &&& fault is None <==> named && known && pointed && sized && nightly && !repeated
            &&& fault == Some(SwapFault::InvalidInstrumentId) <==> !named
            &&& fault == Some(SwapFault::InvalidMode) <==> named && !known
            &&& fault == Some(SwapFault::PointsNotFinite) <==> named && known && !pointed
            &&& fault == Some(SwapFault::InvalidContractSize) <==> named && known && pointed
                && !sized
            &&& fault == Some(SwapFault::InvalidWeekday) <==> named && known && pointed && sized
                && !nightly
            &&& fault == Some(SwapFault::Duplicate) <==> named && known && pointed && sized
                && nightly && repeated
        }),
{
    let entry = terms[i];
    law_mode_texts(entry.swap_mode@);
    law_numbers_by_their_bits(entry.swap_long);
    law_numbers_by_their_bits(entry.swap_short);
    law_numbers_by_their_bits(entry.contract_size);
}

/// A new or reset module holds the swap terms as they were given, with no rollover fixed and
/// nothing captured, awaited or recorded.
pub proof fn law_fresh_module(terms: Seq<SwapTerms>)
    ensures
        ({
            let fresh = SwapModel::fresh(spec_list(terms));
            &&& fresh.specs.len() == terms.len()
            &&& forall|i: int| #![trigger fresh.specs[i]]
                0 <= i < terms.len() ==> {
                    let text = terms[i].swap_mode@;
                    &&& fresh.specs[i].instrument_id == terms[i].instrument_id->0
                    &&& text == "disabled"@ ==> fresh.specs[i].mode == SwapMode::Disabled
                    &&& text == "ccy_margin"@ ==> fresh.specs[i].mode == SwapMode::CcyMargin
                    &&& text == "interest"@ ==> fresh.specs[i].mode == SwapMode::Interest
                    &&& fresh.specs[i].swap_long == terms[i].swap_long
                    &&& fresh.specs[i].swap_short == terms[i].swap_short
                    &&& fresh.specs[i].contract_size == terms[i].contract_size
                    &&& fresh.specs[i].swap_3day_dow == terms[i].swap_3day_dow
                }
            &&& fresh.next_roll is None
            &&& fresh.prev_snapshot is None
            &&& fresh.awaiting is None
            &&& fresh.ledger.instruments.len() == 0
            &&& fresh.ledger.total.len() == 0
            &&& fresh.ledger.unapplied.len() == 0
        }),
{
    law_mode_texts("disabled"@);
    law_mode_texts("ccy_margin"@);
    law_mode_texts("interest"@);
}

}
