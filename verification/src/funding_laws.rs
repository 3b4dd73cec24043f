//! What perpetual swap funding is for, in terms of the schedules, the positions and marks of the
//! venue, and the outcomes that the exchange reports.

use vstd::prelude::*;

use crate::carry::{
    mark_of, notional_of, resolved_mark, ContextModel, Exposure, InstrumentId, Position,
    ProcessInputs, SnapshotModel,
};
use crate::carry_laws::{
    law_conversion_value, law_notional_value, law_numbers_by_their_bits,
    law_snapshot_holds_open_positions, lemma_filter_none, lemma_filter_take, lemma_flatten_element,
    lemma_flatten_next,
};
use crate::funding_rate::{
    acknowledged_ledger, adjustments_of, all_charges, applied_settlements, ascending,
    drained_charges, due_end, entries, entry_fault, first_not_finite, funding_flow,
    law_funding_long_pays_short_receives, law_pending_counts_undrained, law_process_drains_all_due,
    lemma_due_end, lemma_settlement_fits, not_inverse, remaining, series_charges, series_list,
    settlement_charges, EntryModel, FundingAdjustment, FundingCharge, FundingModel, ScheduleEntry,
    ScheduleFault, SeriesModel,
};
use crate::ledger::{
    entry_terms, law_acknowledged_instrument, law_acknowledged_keeps_order,
    AccountAdjustmentOutcome, LedgerModel, Money,
};
use crate::number::{Currency, Formula, Real};

verus! {

/// In double precision the order of operations counts: a funding flow is one product, of the
/// negated rate and the notional with the sign of the position.
pub proof fn law_funding_order_of_operations(rate: Real, notional_abs: Formula)
    ensures
        funding_flow(rate, notional_abs, true) == Formula::Product(
            Box::new(Formula::Negated(Box::new(Formula::Number(rate)))),
            Box::new(notional_abs),
        ),
        funding_flow(rate, notional_abs, false) == Formula::Product(
            Box::new(Formula::Negated(Box::new(Formula::Number(rate)))),
            Box::new(Formula::Negated(Box::new(notional_abs))),
        ),
{
}

/// A settlement charges each position of the snapshot in its instrument, in order: a long
/// position pays the signed rate of the schedule on its rounded notional and a short one receives
/// it, at the exchange rate to the base currency. It charges nothing at a rate of zero, in an
/// unknown instrument, or without a mark.
pub proof fn law_settlement_charge_values(
    id: InstrumentId,
    rate: Real,
    ts_settle: u64,
    snapshot: SnapshotModel,
    use_snapshot_mark: bool,
    ctx: ContextModel,
    round: spec_fn(real, Currency) -> real,
)
    ensures
        settlement_charges(id, rate, ts_settle, snapshot, use_snapshot_mark, ctx).map_values(
            |c: FundingCharge|
                (c.instrument_id, c.ts_settle, c.currency, c.amount.value(round)),
        ) == {
            let instrument = ctx.instruments[id];
            let quote = instrument.quote_currency;
            let mark = if use_snapshot_mark && snapshot.marks.contains_key(id) {
                Some(snapshot.marks[id])
            } else {
                mark_of(instrument)
            };
            if rate.zero() || !ctx.instruments.contains_key(id) || mark is None
                || !snapshot.exposures.contains_key(id) {
                Seq::empty()
            } else {
                snapshot.exposures[id].map_values(
                    |e: Exposure|
                        {
                            let notional = round(
                                e.quantity.value() * e.multiplier.value() * mark->0.value(),
                                quote,
                            );
                            let flow = if e.is_long {
                                -(rate.value() * notional)
                            } else {
                                rate.value() * notional
                            };
                            if ctx.base_currency is None || ctx.base_currency->0 == quote {
                                (id, ts_settle, quote, flow)
                            } else if instrument.xrate is None || instrument.xrate->0.zero() {
                                (id, ts_settle, ctx.base_currency->0, 0real)
                            } else {
                                (
                                    id,
                                    ts_settle,
                                    ctx.base_currency->0,
                                    flow * instrument.xrate->0.value(),
                                )
                            }
                        },
                )
            }
        },
{
    let charges = settlement_charges(id, rate, ts_settle, snapshot, use_snapshot_mark, ctx);
    let instrument = ctx.instruments[id];
    let quote = instrument.quote_currency;
    let mark = resolved_mark(id, instrument, snapshot, use_snapshot_mark);
    assert forall|j: int| 0 <= j < charges.len() implies {
        let e = snapshot.exposures[id][j];
        let notional = round(
            e.quantity.value() * e.multiplier.value() * mark->0.value(),
            quote,
        );
        let flow = if e.is_long {
            -(rate.value() * notional)
        } else {
            rate.value() * notional
        };
        let foreign = ctx.base_currency is Some && ctx.base_currency->0 != quote;
        let charge = #[trigger] charges[j];
        &&& charge.instrument_id == id
        &&& charge.ts_settle == ts_settle
        &&& !foreign ==> charge.currency == quote && charge.amount.value(round) == flow
        &&& foreign ==> charge.currency == ctx.base_currency->0 && charge.amount.value(round) == (
        if instrument.xrate is None || instrument.xrate->0.zero() {
            0real
        } else {
            flow * instrument.xrate->0.value()
        })
    } by {
        let e = snapshot.exposures[id][j];
        let notional = notional_of(e, mark->0, quote);
        law_notional_value(e, mark->0, quote, round);
        law_funding_long_pays_short_receives(rate, notional, round);
        law_conversion_value(
            ctx.base_currency,
            instrument.xrate,
            funding_flow(rate, notional, e.is_long),
            quote,
            round,
        );
    }
}

/// A process call charges the schedules one after the other, and in each the settlements that it
/// drains one after the other. A settlement before the call is charged against the positions and
/// marks of the call before, any other against those of this call.
pub proof fn law_process_charges_by_settlement(model: FundingModel, ts_now: u64, ctx: ContextModel)
    requires
        model.valid(),
    ensures
        model.charges(ts_now, ctx) == Seq::new(
            model.series.len(),
            |i: int|
                Seq::new(
                    (model.processed(ts_now, ctx).next_idx[i] - model.next_idx[i]) as nat,
                    |k: int|
                        {
                            let series = model.series[i];
                            let idx = model.next_idx[i] + k;
                            let gap = model.prev_snapshot is Some && series.ts_ns[idx] < ts_now;
                            settlement_charges(
                                series.instrument_id,
                                series.rates[idx],
                                series.ts_ns[idx],
                                if gap {
                                    model.prev_snapshot->0
                                } else {
                                    model.snapshot(ctx)
                                },
                                gap,
                                ctx,
                            )
                        },
                ).flatten(),
        ).flatten(),
{
    let after = model.processed(ts_now, ctx);
    let inputs = model.inputs(ts_now, ctx);
    let n = model.series.len();
    let part = |i: int|
        series_charges(
            model.series[i],
            model.next_idx[i] as int,
            due_end(model.series[i].ts_ns, model.next_idx[i] as int, ts_now),
            inputs,
        );
    let owed = |i: int|
        Seq::new(
            (after.next_idx[i] - model.next_idx[i]) as nat,
            |k: int|
                {
                    let series = model.series[i];
                    let idx = model.next_idx[i] + k;
                    let gap = model.prev_snapshot is Some && series.ts_ns[idx] < ts_now;
                    settlement_charges(
                        series.instrument_id,
                        series.rates[idx],
                        series.ts_ns[idx],
                        if gap {
                            model.prev_snapshot->0
                        } else {
                            model.snapshot(ctx)
                        },
                        gap,
                        ctx,
                    )
                },
        ).flatten();
    law_pending_counts_undrained(model);
    assert forall|i: int| 0 <= i < n implies #[trigger] owed(i) == part(i) by {
        let from = model.next_idx[i] as int;
        assert(model.next_idx[i] <= model.series[i].ts_ns.len());
        lemma_due_end(model.series[i].ts_ns, from, ts_now);
        lemma_settlement_fits(model.series, i);
        let count = (due_end(model.series[i].ts_ns, from, ts_now) - from) as nat;
        let drained = |k: int| drained_charges(model.series[i], from + k, inputs);
        lemma_series_by_settlement(model.series[i], from, count, inputs, drained);
        assert(after.next_idx[i] - from == count);
        assert(Seq::new(
            (after.next_idx[i] - model.next_idx[i]) as nat,
            |k: int|
                {
                    let series = model.series[i];
                    let idx = model.next_idx[i] + k;
                    let gap = model.prev_snapshot is Some && series.ts_ns[idx] < ts_now;
                    settlement_charges(
                        series.instrument_id,
                        series.rates[idx],
                        series.ts_ns[idx],
                        if gap {
                            model.prev_snapshot->0
                        } else {
                            model.snapshot(ctx)
                        },
                        gap,
                        ctx,
                    )
                },
        ) =~= Seq::new(count, drained));
    }
    lemma_all_by_series(model.series, model.next_idx, inputs, part, n as int);
    assert(model.series.take(n as int) =~= model.series);
    assert(model.next_idx.take(n as int) =~= model.next_idx);
    assert(Seq::new(n, owed) =~= Seq::new(n, part));
    if model.pending() == 0 {
        assert forall|i: int| 0 <= i < n implies #[trigger] part(i) == Seq::<
            FundingCharge,
        >::empty() by {
            assert(model.next_idx[i] == model.series[i].ts_ns.len());
        }
        lemma_nothing_to_join(n, part);
    }
}

proof fn lemma_nothing_to_join(n: nat, part: spec_fn(int) -> Seq<FundingCharge>)
    requires
        forall|i: int| 0 <= i < n ==> #[trigger] part(i) == Seq::<FundingCharge>::empty(),
    ensures
        Seq::new(n, part).flatten() == Seq::<FundingCharge>::empty(),
    decreases n,
{
    if n > 0 {
        lemma_nothing_to_join((n - 1) as nat, part);
        lemma_flatten_next((n - 1) as nat, part);
        assert(part(n - 1) == Seq::<FundingCharge>::empty());
    }
    assert(Seq::new(n, part).flatten() =~= Seq::<FundingCharge>::empty());
}

proof fn lemma_series_by_settlement(
    series: SeriesModel,
    from: int,
    count: nat,
    inputs: ProcessInputs,
    drained: spec_fn(int) -> Seq<FundingCharge>,
)
    requires
        drained == (|k: int| drained_charges(series, from + k, inputs)),
    ensures
        series_charges(series, from, from + count, inputs) == Seq::new(count, drained).flatten(),
    decreases count,
{
    if count > 0 {
        let before = (count - 1) as nat;
        lemma_series_by_settlement(series, from, before, inputs, drained);
        lemma_flatten_next(before, drained);
    } else {
        assert(Seq::new(count, drained).flatten() =~= Seq::<FundingCharge>::empty());
    }
}

proof fn lemma_all_by_series(
    series: Seq<SeriesModel>,
    next_idx: Seq<usize>,
    inputs: ProcessInputs,
    part: spec_fn(int) -> Seq<FundingCharge>,
    n: int,
)
    requires
        next_idx.len() == series.len(),
        0 <= n <= series.len(),
        part == (|i: int|
            series_charges(
                series[i],
                next_idx[i] as int,
                due_end(series[i].ts_ns, next_idx[i] as int, inputs.ts_now),
                inputs,
            )),
    ensures
        all_charges(series.take(n), next_idx.take(n), inputs) == Seq::new(
            n as nat,
            part,
        ).flatten(),
    decreases n,
{
    if n > 0 {
        lemma_all_by_series(series, next_idx, inputs, part, n - 1);
        lemma_flatten_next((n - 1) as nat, part);
        assert(series.take(n).drop_last() =~= series.take(n - 1));
        assert(next_idx.take(n).drop_last() =~= next_idx.take(n - 1));
    } else {
        assert(Seq::new(n as nat, part).flatten() =~= Seq::<FundingCharge>::empty());
    }
}

/// Every charge of a process call is for a position and a due settlement of its instrument: its
/// amount is minus the signed rate times the rounded notional for a long position and the signed
/// rate times the rounded notional for a short one, times the exchange rate where it is converted.
/// The settlement, by schedule and position in it, and the position in the group are returned.
pub proof fn law_process_charge_values(
    model: FundingModel,
    ts_now: u64,
    ctx: ContextModel,
    round: spec_fn(real, Currency) -> real,
    k: int,
) -> (at: (int, int, int))
    requires
        model.valid(),
        0 <= k < model.charges(ts_now, ctx).len(),
    ensures
        ({
            let (i, idx, j) = at;
            let charge = model.charges(ts_now, ctx)[k];
            let series = model.series[i];
            let id = series.instrument_id;
            let rate = series.rates[idx];
            let instrument = ctx.instruments[id];
            let quote = instrument.quote_currency;
            let gap = model.prev_snapshot is Some && series.ts_ns[idx] < ts_now;
            let snapshot = if gap { model.prev_snapshot->0 } else { model.snapshot(ctx) };
            let e = snapshot.exposures[id][j];
            let mark = if gap && snapshot.marks.contains_key(id) {
                Some(snapshot.marks[id])
            } else {
                mark_of(instrument)
            };
            let notional = round(
                e.quantity.value() * e.multiplier.value() * mark->0.value(),
                quote,
            );
            let flow = if e.is_long {
                -(rate.value() * notional)
            } else {
                rate.value() * notional
            };
            let foreign = ctx.base_currency is Some && ctx.base_currency->0 != quote;
            let rated = instrument.xrate is Some && !instrument.xrate->0.zero();
            &&& 0 <= i < model.series.len()
            &&& model.next_idx[i] <= idx < series.ts_ns.len()
            &&& series.ts_ns[idx] <= ts_now
            &&& !rate.zero()
            &&& ctx.instruments.contains_key(id)
            &&& snapshot.exposures.contains_key(id)
            &&& 0 <= j < snapshot.exposures[id].len()
            &&& mark is Some
            &&& charge.instrument_id == id
            &&& charge.ts_settle == series.ts_ns[idx]
            &&& charge.currency == if foreign { ctx.base_currency->0 } else { quote }
            &&& !foreign ==> charge.amount.value(round) == flow
            &&& foreign && rated ==> charge.amount.value(round) == flow * instrument.xrate->0.value()
            &&& foreign && !rated ==> charge.amount.value(round) == 0real
        }),
{
    let after = model.processed(ts_now, ctx);
    let settlement = |i: int, n: int|
        {
            let series = model.series[i];
            let idx = model.next_idx[i] + n;
            let gap = model.prev_snapshot is Some && series.ts_ns[idx] < ts_now;
            settlement_charges(
                series.instrument_id,
                series.rates[idx],
                series.ts_ns[idx],
                if gap {
                    model.prev_snapshot->0
                } else {
                    model.snapshot(ctx)
                },
                gap,
                ctx,
            )
        };
    let parts = Seq::new(
        model.series.len(),
        |i: int|
            Seq::new(
                (after.next_idx[i] - model.next_idx[i]) as nat,
                |n: int| settlement(i, n),
            ).flatten(),
    );
    law_process_charges_by_settlement(model, ts_now, ctx);
    let listed = Seq::new(
        model.series.len(),
        |i: int|
            Seq::new(
                (model.processed(ts_now, ctx).next_idx[i] - model.next_idx[i]) as nat,
                |k: int|
                    {
                        let series = model.series[i];
                        let idx = model.next_idx[i] + k;
                        let gap = model.prev_snapshot is Some && series.ts_ns[idx] < ts_now;
                        settlement_charges(
                            series.instrument_id,
                            series.rates[idx],
                            series.ts_ns[idx],
                            if gap {
                                model.prev_snapshot->0
                            } else {
                                model.snapshot(ctx)
                            },
                            gap,
                            ctx,
                        )
                    },
            ).flatten(),
    );
    assert(parts =~= listed) by {
        assert forall|i: int| 0 <= i < parts.len() implies #[trigger] parts[i] == listed[i] by {
            assert(Seq::new(
                (after.next_idx[i] - model.next_idx[i]) as nat,
                |n: int| settlement(i, n),
            ) =~= Seq::new(
                (model.processed(ts_now, ctx).next_idx[i] - model.next_idx[i]) as nat,
                |k: int|
                    {
                        let series = model.series[i];
                        let idx = model.next_idx[i] + k;
                        let gap = model.prev_snapshot is Some && series.ts_ns[idx] < ts_now;
                        settlement_charges(
                            series.instrument_id,
                            series.rates[idx],
                            series.ts_ns[idx],
                            if gap {
                                model.prev_snapshot->0
                            } else {
                                model.snapshot(ctx)
                            },
                            gap,
                            ctx,
                        )
                    },
            ));
        }
    }
    let outer = lemma_flatten_element(parts, k);
    let i = outer.0;
    let drained = Seq::new(
        (after.next_idx[i] - model.next_idx[i]) as nat,
        |n: int| settlement(i, n),
    );
    assert(parts[i] == drained.flatten());
    let inner = lemma_flatten_element(drained, outer.1);
    let idx = model.next_idx[i] + inner.0;
    let j = inner.1;
    let series = model.series[i];
    lemma_processed_positions(model, ts_now, ctx, i);
    law_process_drains_all_due(model, ts_now, ctx, i, idx);
    let gap = model.prev_snapshot is Some && series.ts_ns[idx] < ts_now;
    let snapshot = if gap { model.prev_snapshot->0 } else { model.snapshot(ctx) };
    let charges = settlement_charges(
        series.instrument_id,
        series.rates[idx],
        series.ts_ns[idx],
        snapshot,
        gap,
        ctx,
    );
    assert(drained[inner.0] == charges);
    law_settlement_charge_values(
        series.instrument_id,
        series.rates[idx],
        series.ts_ns[idx],
        snapshot,
        gap,
        ctx,
        round,
    );
    let values = charges.map_values(
        |c: FundingCharge| (c.instrument_id, c.ts_settle, c.currency, c.amount.value(round)),
    );
    assert(values.len() == charges.len());
    assert(values[j] == (
        charges[j].instrument_id,
        charges[j].ts_settle,
        charges[j].currency,
        charges[j].amount.value(round),
    ));
    (i, idx, j)
}

proof fn lemma_processed_positions(model: FundingModel, ts_now: u64, ctx: ContextModel, i: int)
    requires
        model.valid(),
        0 <= i < model.series.len(),
    ensures
        model.next_idx[i] <= model.processed(ts_now, ctx).next_idx[i],
        model.processed(ts_now, ctx).next_idx[i] <= model.series[i].ts_ns.len(),
{
    assert(model.next_idx[i] <= model.series[i].ts_ns.len());
    lemma_due_end(model.series[i].ts_ns, model.next_idx[i] as int, ts_now);
    lemma_settlement_fits(model.series, i);
}

/// A snapshot holds every open position in an instrument that has a schedule, in cache order,
/// and its live mark unless the instrument is inverse or unknown.
pub proof fn law_snapshot_of_funded_positions(
    model: FundingModel,
    ctx: ContextModel,
    id: InstrumentId,
)
    ensures
        ({
            let snapshot = model.snapshot(ctx);
            let scheduled = exists|i: int|
                0 <= i < model.series.len() && (#[trigger] model.series[i]).instrument_id == id;
            let open = ctx.positions.filter(|p: Position| p.instrument_id == id).map_values(
                |p: Position| p.exposure,
            );
            let marked = scheduled && open.len() > 0 && ctx.instruments.contains_key(id)
                && !ctx.instruments[id].is_inverse && mark_of(ctx.instruments[id]) is Some;
            &&& snapshot.exposures.contains_key(id) <==> scheduled && open.len() > 0
            &&& snapshot.exposures.contains_key(id) ==> snapshot.exposures[id] == open
            &&& snapshot.marks.contains_key(id) <==> marked
            &&& marked ==> snapshot.marks[id] == mark_of(ctx.instruments[id])->0
        }),
{
    law_snapshot_holds_open_positions(ctx, model.funded(), not_inverse(ctx), id);
}

/// A process call drains the due settlements and no others. While there is one left it captures
/// the venue that it was handed, whatever the call before captured; once none is left it captures
/// nothing and completes an empty batch. Costs, settlements and schedules stay.
pub proof fn law_process_state(model: FundingModel, ts_now: u64, ctx: ContextModel)
    requires
        model.valid(),
    ensures
        ({
            let after = model.processed(ts_now, ctx);
            let left = exists|i: int|
                0 <= i < model.series.len() && (#[trigger] model.next_idx[i])
                    < model.series[i].ts_ns.len();
            &&& after.series == model.series
            &&& after.ledger == model.ledger
            &&& after.settlements == model.settlements
            &&& after.next_idx.len() == model.series.len()
            &&& forall|i: int, idx: int|
                #![trigger model.series[i].ts_ns[idx]]
                0 <= i < model.series.len() && model.next_idx[i] <= idx
                    < model.series[i].ts_ns.len() ==> (idx < after.next_idx[i]
                    <==> model.series[i].ts_ns[idx] <= ts_now)
            &&& forall|i: int|
                0 <= i < model.series.len() ==> model.next_idx[i] <= (#[trigger] after.next_idx[i])
                    <= model.series[i].ts_ns.len()
            &&& left ==> after.prev_snapshot == Some(model.snapshot(ctx)) && after.awaiting
                == model.awaiting
            &&& !left ==> after.prev_snapshot is None && after.awaiting == Some(
                Seq::<FundingAdjustment>::empty(),
            )
        }),
{
    let after = model.processed(ts_now, ctx);
    law_pending_counts_undrained(model);
    assert forall|i: int, idx: int|
        #![trigger model.series[i].ts_ns[idx]]
        0 <= i < model.series.len() && model.next_idx[i] <= idx
            < model.series[i].ts_ns.len() implies (idx < after.next_idx[i]
        <==> model.series[i].ts_ns[idx] <= ts_now) by {
        law_process_drains_all_due(model, ts_now, ctx, i, idx);
    }
    assert forall|i: int| 0 <= i < model.series.len() implies model.next_idx[i] <= (
    #[trigger] after.next_idx[i]) <= model.series[i].ts_ns.len() by {
        lemma_processed_positions(model, ts_now, ctx, i);
    }
    assert forall|i: int| 0 <= i < model.series.len() implies (#[trigger] model.next_idx[i])
        <= model.series[i].ts_ns.len() by {}
}

/// Of two calls one after the other, a settlement strictly before the second one is charged
/// against the positions that were open at the first one, and at the mark that its instrument had
/// then, also where other calls came before; a settlement at the second one is charged against
/// the positions and the mark of the second one.
pub proof fn law_gap_is_charged_as_the_call_before_saw_it(
    model: FundingModel,
    first: u64,
    before: ContextModel,
    second: u64,
    ctx: ContextModel,
    i: int,
    idx: int,
    round: spec_fn(real, Currency) -> real,
)
    requires
        model.valid(),
        0 <= i < model.series.len(),
        model.processed(first, before).next_idx[i] <= idx < model.series[i].ts_ns.len(),
        model.series[i].ts_ns[idx] <= second,
        ctx.instruments.contains_key(model.series[i].instrument_id),
    ensures
        ({
            let between = model.processed(first, before);
            let series = model.series[i];
            let id = series.instrument_id;
            let rate = series.rates[idx];
            let ts_settle = series.ts_ns[idx];
            let gap = ts_settle < second;
            let seen = if gap { before } else { ctx };
            let open = seen.positions.filter(|p: Position| p.instrument_id == id).map_values(
                |p: Position| p.exposure,
            );
            let instrument = ctx.instruments[id];
            let quote = instrument.quote_currency;
            let captured = gap && before.instruments.contains_key(id)
                && !before.instruments[id].is_inverse && mark_of(before.instruments[id]) is Some;
            let mark = if captured {
                mark_of(before.instruments[id])
            } else {
                mark_of(instrument)
            };
            &&& between.prev_snapshot is Some
            &&& settlement_charges(
                id,
                rate,
                ts_settle,
                if gap {
                    between.prev_snapshot->0
                } else {
                    between.snapshot(ctx)
                },
                gap,
                ctx,
            ).map_values(
                |c: FundingCharge|
                    (c.instrument_id, c.ts_settle, c.currency, c.amount.value(round)),
            ) == if rate.zero() || mark is None {
                Seq::empty()
            } else {
                open.map_values(
                    |e: Exposure|
                        {
                            let notional = round(
                                e.quantity.value() * e.multiplier.value() * mark->0.value(),
                                quote,
                            );
                            let flow = if e.is_long {
                                -(rate.value() * notional)
                            } else {
                                rate.value() * notional
                            };
                            if ctx.base_currency is None || ctx.base_currency->0 == quote {
                                (id, ts_settle, quote, flow)
                            } else if instrument.xrate is None || instrument.xrate->0.zero() {
                                (id, ts_settle, ctx.base_currency->0, 0real)
                            } else {
                                (
                                    id,
                                    ts_settle,
                                    ctx.base_currency->0,
                                    flow * instrument.xrate->0.value(),
                                )
                            }
                        },
                )
            }
        }),
{
    let series = model.series[i];
    let id = series.instrument_id;
    let rate = series.rates[idx];
    let ts_settle = series.ts_ns[idx];
    let between = model.processed(first, before);
    law_process_state(model, first, before);
    lemma_processed_positions(model, first, before, i);
    assert(model.next_idx[i] < model.series[i].ts_ns.len());
    law_snapshot_of_funded_positions(model, before, id);
    law_snapshot_of_funded_positions(between, ctx, id);
    assert(between.series[i].instrument_id == id);
    let gap = ts_settle < second;
    let snapshot = if gap { between.prev_snapshot->0 } else { between.snapshot(ctx) };
    let seen = if gap { before } else { ctx };
    let open = seen.positions.filter(|p: Position| p.instrument_id == id).map_values(
        |p: Position| p.exposure,
    );
    law_settlement_charge_values(id, rate, ts_settle, snapshot, gap, ctx, round);
    let values = settlement_charges(id, rate, ts_settle, snapshot, gap, ctx).map_values(
        |c: FundingCharge| (c.instrument_id, c.ts_settle, c.currency, c.amount.value(round)),
    );
    if open.len() == 0 {
        assert(values =~= Seq::empty());
    }
}

/// A settlement in a gap whose instrument has a mark in the snapshot is charged the same whatever
/// the books and last prices have come to.
pub proof fn law_gap_charges_ignore_later_prices(
    id: InstrumentId,
    rate: Real,
    ts_settle: u64,
    snapshot: SnapshotModel,
    ctx: ContextModel,
    other: ContextModel,
)
    requires
        snapshot.marks.contains_key(id),
        ctx.base_currency == other.base_currency,
        ctx.instruments.contains_key(id) <==> other.instruments.contains_key(id),
        ctx.instruments[id].quote_currency == other.instruments[id].quote_currency,
        ctx.instruments[id].xrate == other.instruments[id].xrate,
    ensures
        settlement_charges(id, rate, ts_settle, snapshot, true, ctx) == settlement_charges(
            id,
            rate,
            ts_settle,
            snapshot,
            true,
            other,
        ),
{
    assert(settlement_charges(id, rate, ts_settle, snapshot, true, ctx) =~= settlement_charges(
        id,
        rate,
        ts_settle,
        snapshot,
        true,
        other,
    ));
}

/// A call whose due settlements all fell in the gap, in instruments that had a mark before it,
/// makes the same charges whatever the books and last prices have come to.
pub proof fn law_gap_call_ignores_later_prices(
    model: FundingModel,
    ts_now: u64,
    ctx: ContextModel,
    other: ContextModel,
)
    requires
        model.valid(),
        model.prev_snapshot is Some,
        forall|i: int, idx: int|
            #![trigger model.series[i].ts_ns[idx]]
            0 <= i < model.series.len() && model.next_idx[i] <= idx < model.series[i].ts_ns.len()
                && model.series[i].ts_ns[idx] <= ts_now ==> model.series[i].ts_ns[idx] < ts_now
                && model.prev_snapshot->0.marks.contains_key(model.series[i].instrument_id),
        ctx.base_currency == other.base_currency,
        forall|id: InstrumentId| #[trigger]
            ctx.instruments.contains_key(id) <==> other.instruments.contains_key(id),
        forall|id: InstrumentId| #[trigger]
            ctx.instruments.contains_key(id) ==> ctx.instruments[id].quote_currency
                == other.instruments[id].quote_currency && ctx.instruments[id].xrate
                == other.instruments[id].xrate,
    ensures
        model.charges(ts_now, ctx) == model.charges(ts_now, other),
{
    let inputs = model.inputs(ts_now, ctx);
    let others = model.inputs(ts_now, other);
    assert forall|i: int, idx: int|
        0 <= i < model.series.len() && model.next_idx[i] <= idx < due_end(
            model.series[i].ts_ns,
            model.next_idx[i] as int,
            ts_now,
        ) implies #[trigger] drained_charges(model.series[i], idx, inputs) == drained_charges(
        model.series[i],
        idx,
        others,
    ) by {
        let series = model.series[i];
        let id = series.instrument_id;
        assert(model.next_idx[i] <= series.ts_ns.len());
        lemma_due_end(series.ts_ns, model.next_idx[i] as int, ts_now);
        lemma_settlement_fits(model.series, i);
        law_process_drains_all_due(model, ts_now, ctx, i, idx);
        law_pending_counts_undrained(model);
        assert(series.ts_ns[idx] < ts_now);
        if ctx.instruments.contains_key(id) {
            law_gap_charges_ignore_later_prices(
                id,
                series.rates[idx],
                series.ts_ns[idx],
                model.prev_snapshot->0,
                ctx,
                other,
            );
        }
    }
    lemma_same_charges(model.series, model.next_idx, inputs, others, model.series.len() as int);
    let n = model.series.len() as int;
    assert(model.series.take(n) =~= model.series);
    assert(model.next_idx.take(n) =~= model.next_idx);
}

proof fn lemma_same_series_charges(
    series: SeriesModel,
    from: int,
    to: int,
    inputs: ProcessInputs,
    others: ProcessInputs,
)
    requires
        forall|idx: int|
            from <= idx < to ==> #[trigger] drained_charges(series, idx, inputs)
                == drained_charges(series, idx, others),
    ensures
        series_charges(series, from, to, inputs) == series_charges(series, from, to, others),
    decreases to - from,
{
    if from < to {
        lemma_same_series_charges(series, from, to - 1, inputs, others);
        assert(drained_charges(series, to - 1, inputs) == drained_charges(series, to - 1, others));
    }
}

proof fn lemma_same_charges(
    series: Seq<SeriesModel>,
    next_idx: Seq<usize>,
    inputs: ProcessInputs,
    others: ProcessInputs,
    n: int,
)
    requires
        next_idx.len() == series.len(),
        0 <= n <= series.len(),
        inputs.ts_now == others.ts_now,
        forall|i: int, idx: int|
            0 <= i < series.len() && next_idx[i] <= idx < due_end(
                series[i].ts_ns,
                next_idx[i] as int,
                inputs.ts_now,
            ) ==> #[trigger] drained_charges(series[i], idx, inputs) == drained_charges(
                series[i],
                idx,
                others,
            ),
    ensures
        all_charges(series.take(n), next_idx.take(n), inputs) == all_charges(
            series.take(n),
            next_idx.take(n),
            others,
        ),
    decreases n,
{
    if n > 0 {
        lemma_same_charges(series, next_idx, inputs, others, n - 1);
        assert(series.take(n).drop_last() =~= series.take(n - 1));
        assert(next_idx.take(n).drop_last() =~= next_idx.take(n - 1));
        let from = next_idx[n - 1] as int;
        lemma_same_series_charges(
            series[n - 1],
            from,
            due_end(series[n - 1].ts_ns, from, inputs.ts_now),
            inputs,
            others,
        );
    }
}

/// The adjustments of a completed batch are those of the charges whose amount is valid and not
/// zero, in order, each with the instrument, timestamp and currency of its charge.
pub proof fn law_complete_keeps_valid_amounts(
    model: FundingModel,
    charges: Seq<FundingCharge>,
    amounts: Seq<Option<i128>>,
)
    requires
        charges.len() == amounts.len(),
    ensures
        ({
            let after = model.completed(charges, amounts);
            &&& after.awaiting == Some(
                Seq::new(charges.len(), |i: int| i).filter(
                    |i: int| amounts[i] is Some && amounts[i]->0 != 0,
                ).map_values(
                    |i: int|
                        FundingAdjustment {
                            instrument_id: charges[i].instrument_id,
                            ts_settle: charges[i].ts_settle,
                            amount: Money { raw: amounts[i]->0, currency: charges[i].currency },
                        },
                ),
            )
            &&& after.series == model.series
            &&& after.next_idx == model.next_idx
            &&& after.prev_snapshot == model.prev_snapshot
            &&& after.ledger == model.ledger
            &&& after.settlements == model.settlements
        }),
{
    let kept = |i: int| amounts[i] is Some && amounts[i]->0 != 0;
    let value = |i: int|
        FundingAdjustment {
            instrument_id: charges[i].instrument_id,
            ts_settle: charges[i].ts_settle,
            amount: Money { raw: amounts[i]->0, currency: charges[i].currency },
        };
    let n = charges.len() as int;
    let all = Seq::new(charges.len(), |i: int| i);
    lemma_adjustments_by_index(charges, amounts, kept, value, n);
    assert(charges.take(n) =~= charges);
    assert(amounts.take(n) =~= amounts);
    assert(all.take(n) =~= all);
}

proof fn lemma_adjustments_by_index(
    charges: Seq<FundingCharge>,
    amounts: Seq<Option<i128>>,
    kept: spec_fn(int) -> bool,
    value: spec_fn(int) -> FundingAdjustment,
    n: int,
)
    requires
        charges.len() == amounts.len(),
        0 <= n <= charges.len(),
        kept == (|i: int| amounts[i] is Some && amounts[i]->0 != 0),
        value == (|i: int|
            FundingAdjustment {
                instrument_id: charges[i].instrument_id,
                ts_settle: charges[i].ts_settle,
                amount: Money { raw: amounts[i]->0, currency: charges[i].currency },
            }),
    ensures
        adjustments_of(charges.take(n), amounts.take(n)) == Seq::new(
            charges.len(),
            |i: int| i,
        ).take(n).filter(kept).map_values(value),
    decreases n,
{
    let all = Seq::new(charges.len(), |i: int| i);
    if n == 0 {
        lemma_filter_none(all, kept);
        assert(all.take(n).filter(kept).map_values(value) =~= Seq::empty());
    } else {
        lemma_adjustments_by_index(charges, amounts, kept, value, n - 1);
        lemma_filter_take(all, kept, n);
        assert(charges.take(n).drop_last() =~= charges.take(n - 1));
        assert(amounts.take(n).drop_last() =~= amounts.take(n - 1));
        let before = all.take(n - 1).filter(kept);
        assert(before.push(all[n - 1]).map_values(value) =~= before.map_values(value).push(
            value(n - 1),
        ));
    }
}

/// An acknowledgement books each cost of the batch, the negated amount of its adjustment, in
/// order: an applied one on its own instrument, on the total, and with its timestamp in the
/// settlements; a failed one on the unapplied cost alone.
pub proof fn law_acknowledge_books_each_cost(
    model: FundingModel,
    outcomes: Seq<AccountAdjustmentOutcome>,
    id: InstrumentId,
)
    requires
        model.valid(),
        model.awaiting is Some,
        model.awaiting->0.len() == outcomes.len(),
    ensures
        ({
            let after = model.acknowledged(outcomes);
            let batch = model.awaiting->0;
            let all = Seq::new(batch.len(), |i: int| i);
            let applied = all.filter(|i: int| outcomes[i] is Applied);
            let own = all.filter(
                |i: int| outcomes[i] is Applied && batch[i].instrument_id == id,
            );
            let failed = all.filter(|i: int| outcomes[i] is Failed);
            &&& entry_terms(after.ledger.instruments, id) == entry_terms(
                model.ledger.instruments,
                id,
            ) + own.map_values(|i: int| (-batch[i].amount.raw) as i128)
            &&& after.ledger.total == model.ledger.total + applied.map_values(
                |i: int| (-batch[i].amount.raw) as i128,
            )
            &&& after.ledger.unapplied == model.ledger.unapplied + failed.map_values(
                |i: int| (-batch[i].amount.raw) as i128,
            )
            &&& after.settlements == model.settlements + applied.map_values(
                |i: int| (batch[i].ts_settle, (-batch[i].amount.raw) as i128),
            )
            &&& after.awaiting is None
            &&& after.series == model.series
            &&& after.next_idx == model.next_idx
            &&& after.prev_snapshot == model.prev_snapshot
        }),
{
    let batch = model.awaiting->0;
    let n = batch.len() as int;
    let all = Seq::new(batch.len(), |i: int| i);
    let is_applied = |i: int| outcomes[i] is Applied;
    let is_own = |i: int| outcomes[i] is Applied && batch[i].instrument_id == id;
    let is_failed = |i: int| outcomes[i] is Failed;
    let cost = |i: int| (-batch[i].amount.raw) as i128;
    let stamped = |i: int| (batch[i].ts_settle, (-batch[i].amount.raw) as i128);
    lemma_booked_costs(model.ledger, batch, outcomes, id, is_own, cost, n);
    lemma_booked_totals(
        model.ledger,
        batch,
        outcomes,
        is_applied,
        is_failed,
        cost,
        stamped,
        n,
    );
    assert(batch.take(n) =~= batch);
    assert(outcomes.take(n) =~= outcomes);
    assert(all.take(n) =~= all);
}

proof fn lemma_booked_costs(
    ledger: LedgerModel,
    batch: Seq<FundingAdjustment>,
    outcomes: Seq<AccountAdjustmentOutcome>,
    id: InstrumentId,
    is_own: spec_fn(int) -> bool,
    cost: spec_fn(int) -> i128,
    n: int,
)
    requires
        batch.len() == outcomes.len(),
        0 <= n <= batch.len(),
        is_own == (|i: int| outcomes[i] is Applied && batch[i].instrument_id == id),
        cost == (|i: int| (-batch[i].amount.raw) as i128),
    ensures
        entry_terms(acknowledged_ledger(ledger, batch.take(n), outcomes.take(n)).instruments, id)
            == entry_terms(ledger.instruments, id) + Seq::new(batch.len(), |i: int| i).take(
            n,
        ).filter(is_own).map_values(cost),
    decreases n,
{
    let all = Seq::new(batch.len(), |i: int| i);
    let terms = entry_terms(ledger.instruments, id);
    if n == 0 {
        lemma_filter_none(all, is_own);
        assert(terms + all.take(n).filter(is_own).map_values(cost) =~= terms);
    } else {
        lemma_booked_costs(ledger, batch, outcomes, id, is_own, cost, n - 1);
        lemma_filter_take(all, is_own, n);
        assert(batch.take(n).drop_last() =~= batch.take(n - 1));
        assert(outcomes.take(n).drop_last() =~= outcomes.take(n - 1));
        law_acknowledged_instrument(
            acknowledged_ledger(ledger, batch.take(n - 1), outcomes.take(n - 1)),
            batch[n - 1].instrument_id,
            cost(n - 1),
            outcomes[n - 1],
            id,
        );
        let before = all.take(n - 1).filter(is_own);
        assert(terms + before.push(all[n - 1]).map_values(cost) =~= (terms + before.map_values(
            cost,
        )).push(cost(n - 1)));
    }
}

proof fn lemma_booked_totals(
    ledger: LedgerModel,
    batch: Seq<FundingAdjustment>,
    outcomes: Seq<AccountAdjustmentOutcome>,
    is_applied: spec_fn(int) -> bool,
    is_failed: spec_fn(int) -> bool,
    cost: spec_fn(int) -> i128,
    stamped: spec_fn(int) -> (u64, i128),
    n: int,
)
    requires
        batch.len() == outcomes.len(),
        0 <= n <= batch.len(),
        is_applied == (|i: int| outcomes[i] is Applied),
        is_failed == (|i: int| outcomes[i] is Failed),
        cost == (|i: int| (-batch[i].amount.raw) as i128),
        stamped == (|i: int| (batch[i].ts_settle, (-batch[i].amount.raw) as i128)),
    ensures
        ({
            let after = acknowledged_ledger(ledger, batch.take(n), outcomes.take(n));
            let all = Seq::new(batch.len(), |i: int| i).take(n);
            &&& after.total == ledger.total + all.filter(is_applied).map_values(cost)
            &&& after.unapplied == ledger.unapplied + all.filter(is_failed).map_values(cost)
            &&& applied_settlements(batch.take(n), outcomes.take(n)) == all.filter(
                is_applied,
            ).map_values(stamped)
        }),
    decreases n,
{
    let all = Seq::new(batch.len(), |i: int| i);
    if n == 0 {
        lemma_filter_none(all, is_applied);
        lemma_filter_none(all, is_failed);
        assert(ledger.total + all.take(n).filter(is_applied).map_values(cost) =~= ledger.total);
        assert(ledger.unapplied + all.take(n).filter(is_failed).map_values(cost)
            =~= ledger.unapplied);
        assert(all.take(n).filter(is_applied).map_values(stamped) =~= Seq::empty());
    } else {
        lemma_booked_totals(
            ledger,
            batch,
            outcomes,
            is_applied,
            is_failed,
            cost,
            stamped,
            n - 1,
        );
        lemma_filter_take(all, is_applied, n);
        lemma_filter_take(all, is_failed, n);
        assert(batch.take(n).drop_last() =~= batch.take(n - 1));
        assert(outcomes.take(n).drop_last() =~= outcomes.take(n - 1));
        law_acknowledged_keeps_order(
            acknowledged_ledger(ledger, batch.take(n - 1), outcomes.take(n - 1)),
            batch[n - 1].instrument_id,
            cost(n - 1),
            outcomes[n - 1],
        );
        let applied = all.take(n - 1).filter(is_applied);
        let failed = all.take(n - 1).filter(is_failed);
        assert(ledger.total + applied.push(all[n - 1]).map_values(cost) =~= (ledger.total
            + applied.map_values(cost)).push(cost(n - 1)));
        assert(ledger.unapplied + failed.push(all[n - 1]).map_values(cost) =~= (ledger.unapplied
            + failed.map_values(cost)).push(cost(n - 1)));
        assert(applied.push(all[n - 1]).map_values(stamped) =~= applied.map_values(stamped).push(
            stamped(n - 1),
        ));
    }
}

/// The instruments of the recorded costs stay where they are, and an acknowledgement adds those
/// that are charged for the first time, at the end, in the order of the applied adjustments.
pub proof fn law_instruments_in_order_of_first_charge(
    model: FundingModel,
    outcomes: Seq<AccountAdjustmentOutcome>,
)
    requires
        model.valid(),
        model.awaiting is Some,
        model.awaiting->0.len() == outcomes.len(),
    ensures
        ({
            let batch = model.awaiting->0;
            let applied = Seq::new(batch.len(), |i: int| i).filter(
                |i: int| outcomes[i] is Applied,
            );
            model.acknowledged(outcomes).ledger.instruments.map_values(
                |e: (InstrumentId, Seq<i128>)| e.0,
            ) == applied.fold_left(
                model.ledger.instruments.map_values(|e: (InstrumentId, Seq<i128>)| e.0),
                |ids: Seq<InstrumentId>, i: int|
                    if ids.contains(batch[i].instrument_id) {
                        ids
                    } else {
                        ids.push(batch[i].instrument_id)
                    },
            )
        }),
{
    let batch = model.awaiting->0;
    let n = batch.len() as int;
    let all = Seq::new(batch.len(), |i: int| i);
    let is_applied = |i: int| outcomes[i] is Applied;
    let number = |e: (InstrumentId, Seq<i128>)| e.0;
    let add_new = |ids: Seq<InstrumentId>, i: int|
        if ids.contains(batch[i].instrument_id) {
            ids
        } else {
            ids.push(batch[i].instrument_id)
        };
    lemma_first_charges(model.ledger, batch, outcomes, is_applied, number, add_new, n);
    assert(batch.take(n) =~= batch);
    assert(outcomes.take(n) =~= outcomes);
    assert(all.take(n) =~= all);
}

proof fn lemma_first_charges(
    ledger: LedgerModel,
    batch: Seq<FundingAdjustment>,
    outcomes: Seq<AccountAdjustmentOutcome>,
    is_applied: spec_fn(int) -> bool,
    number: spec_fn((InstrumentId, Seq<i128>)) -> InstrumentId,
    add_new: spec_fn(Seq<InstrumentId>, int) -> Seq<InstrumentId>,
    n: int,
)
    requires
        batch.len() == outcomes.len(),
        0 <= n <= batch.len(),
        is_applied == (|i: int| outcomes[i] is Applied),
        number == (|e: (InstrumentId, Seq<i128>)| e.0),
        add_new == (|ids: Seq<InstrumentId>, i: int|
            if ids.contains(batch[i].instrument_id) {
                ids
            } else {
                ids.push(batch[i].instrument_id)
            }),
    ensures
        acknowledged_ledger(ledger, batch.take(n), outcomes.take(n)).instruments.map_values(number)
            == Seq::new(batch.len(), |i: int| i).take(n).filter(is_applied).fold_left(
            ledger.instruments.map_values(number),
            add_new,
        ),
    decreases n,
{
    let all = Seq::new(batch.len(), |i: int| i);
    if n == 0 {
        lemma_filter_none(all, is_applied);
    } else {
        lemma_first_charges(ledger, batch, outcomes, is_applied, number, add_new, n - 1);
        lemma_filter_take(all, is_applied, n);
        assert(batch.take(n).drop_last() =~= batch.take(n - 1));
        assert(outcomes.take(n).drop_last() =~= outcomes.take(n - 1));
        let before = acknowledged_ledger(ledger, batch.take(n - 1), outcomes.take(n - 1));
        law_acknowledged_keeps_order(
            before,
            batch[n - 1].instrument_id,
            (-batch[n - 1].amount.raw) as i128,
            outcomes[n - 1],
        );
        let applied = all.take(n - 1).filter(is_applied);
        assert(applied.push(all[n - 1]).drop_last() =~= applied);
    }
}

/// The number of pending settlements is that of all schedules, less what is drained of each.
pub proof fn law_pending_is_the_sum_of_what_is_left(model: FundingModel)
    requires
        model.next_idx.len() == model.series.len(),
    ensures
        model.pending() == Seq::new(
            model.series.len(),
            |i: int| model.series[i].ts_ns.len() - model.next_idx[i],
        ).fold_left(0, |sum: int, left: int| sum + left),
{
    let n = model.series.len() as int;
    let left = Seq::new(
        model.series.len(),
        |i: int| model.series[i].ts_ns.len() - model.next_idx[i],
    );
    let add_up = |sum: int, left: int| sum + left;
    lemma_left_adds_up(model.series, model.next_idx, left, add_up, n);
    assert(model.series.take(n) =~= model.series);
    assert(model.next_idx.take(n) =~= model.next_idx);
    assert(left.take(n) =~= left);
}

proof fn lemma_left_adds_up(
    series: Seq<SeriesModel>,
    next_idx: Seq<usize>,
    left: Seq<int>,
    add_up: spec_fn(int, int) -> int,
    n: int,
)
    requires
        next_idx.len() == series.len(),
        left.len() == series.len(),
        forall|i: int|
            0 <= i < left.len() ==> #[trigger] left[i] == series[i].ts_ns.len() - next_idx[i],
        add_up == (|sum: int, left: int| sum + left),
        0 <= n <= series.len(),
    ensures
        remaining(series.take(n), next_idx.take(n)) == left.take(n).fold_left(0, add_up),
    decreases n,
{
    if n > 0 {
        lemma_left_adds_up(series, next_idx, left, add_up, n - 1);
        assert(series.take(n).drop_last() =~= series.take(n - 1));
        assert(next_idx.take(n).drop_last() =~= next_idx.take(n - 1));
        assert(left.take(n).drop_last() =~= left.take(n - 1));
        assert(left.take(n).last() == left[n - 1]);
    }
}

/// A schedule entry is accepted exactly where its name could be parsed, it has a rate for each
/// timestamp, no timestamp is after a later one, no rate has all its exponent bits set, and no
/// earlier entry has its instrument; each fault is reported where it is the first one.
pub proof fn law_schedule_faults(schedule: Seq<EntryModel>, i: int)
    requires
        0 <= i < schedule.len(),
    ensures
        ({
            let entry = schedule[i];
            let named = entry.instrument_id is Some;
            let paired = entry.ts_ns.len() == entry.rates.len();
            let ordered = forall|a: int, b: int|
                0 <= a < b < entry.ts_ns.len() ==> entry.ts_ns[a] <= entry.ts_ns[b];
            let finite = forall|a: int|
                0 <= a < entry.rates.len() ==> (#[trigger] entry.rates[a]).bits
                    % 0x8000_0000_0000_0000 < 0x7ff0_0000_0000_0000;
            let repeated = exists|j: int|
                0 <= j < i && (#[trigger] schedule[j]).instrument_id == entry.instrument_id;
            let fault = entry_fault(schedule, i);
            &&& fault is None <==> named && paired && ordered && finite && !repeated
            &&& fault == Some(ScheduleFault::InvalidInstrumentId) <==> !named
            &&& fault is Some && fault->0 is LengthMismatch <==> named && !paired
            &&& fault == Some(ScheduleFault::NotAscending) <==> named && paired && !ordered
            &&& fault is Some && fault->0 is NotFinite <==> named && paired && ordered && !finite
            &&& fault == Some(ScheduleFault::Duplicate) <==> named && paired && ordered && finite
                && repeated
            &&& fault matches Some(ScheduleFault::LengthMismatch { timestamps, rates })
                ==> timestamps == entry.ts_ns.len() as usize && rates == entry.rates.len() as usize
            &&& fault matches Some(ScheduleFault::NotFinite { rate }) ==> exists|a: int|
                {
                    &&& 0 <= a < entry.rates.len()
                    &&& #[trigger] entry.rates[a] == rate
                    &&& rate.bits % 0x8000_0000_0000_0000 >= 0x7ff0_0000_0000_0000
                    &&& forall|b: int|
                        0 <= b < a ==> (#[trigger] entry.rates[b]).bits % 0x8000_0000_0000_0000
                            < 0x7ff0_0000_0000_0000
                }
        }),
{
    let entry = schedule[i];
    lemma_first_not_finite(entry.rates);
    let ordered = forall|a: int, b: int|
        0 <= a < b < entry.ts_ns.len() ==> entry.ts_ns[a] <= entry.ts_ns[b];
    assert(ascending(entry.ts_ns) <==> ordered);
}

proof fn lemma_first_not_finite(rates: Seq<Real>)
    ensures
        first_not_finite(rates) is None <==> forall|a: int|
            0 <= a < rates.len() ==> (#[trigger] rates[a]).bits % 0x8000_0000_0000_0000
                < 0x7ff0_0000_0000_0000,
        first_not_finite(rates) is Some ==> exists|a: int|
            {
                &&& 0 <= a < rates.len()
                &&& #[trigger] rates[a] == first_not_finite(rates)->0
                &&& rates[a].bits % 0x8000_0000_0000_0000 >= 0x7ff0_0000_0000_0000
                &&& forall|b: int|
                    0 <= b < a ==> (#[trigger] rates[b]).bits % 0x8000_0000_0000_0000
                        < 0x7ff0_0000_0000_0000
            },
    decreases rates.len(),
{
    if rates.len() > 0 {
        law_numbers_by_their_bits(rates[0]);
        if rates[0].finite() {
            let rest = rates.skip(1);
            lemma_first_not_finite(rest);
            if first_not_finite(rest) is None {
                assert forall|a: int| 0 <= a < rates.len() implies (#[trigger] rates[a]).bits
                    % 0x8000_0000_0000_0000 < 0x7ff0_0000_0000_0000 by {
                    if a > 0 {
                        assert(rest[a - 1] == rates[a]);
                    }
                }
            } else {
                let at = choose|a: int|
                    {
                        &&& 0 <= a < rest.len()
                        &&& #[trigger] rest[a] == first_not_finite(rest)->0
                        &&& rest[a].bits % 0x8000_0000_0000_0000 >= 0x7ff0_0000_0000_0000
                        &&& forall|b: int|
                            0 <= b < a ==> (#[trigger] rest[b]).bits % 0x8000_0000_0000_0000
                                < 0x7ff0_0000_0000_0000
                    };
                assert(rates[at + 1] == first_not_finite(rates)->0);
                assert forall|b: int| 0 <= b < at + 1 implies (#[trigger] rates[b]).bits
                    % 0x8000_0000_0000_0000 < 0x7ff0_0000_0000_0000 by {
                    if b > 0 {
                        assert(rest[b - 1] == rates[b]);
                    }
                }
            }
        } else {
            assert(rates[0] == first_not_finite(rates)->0);
        }
    }
}

/// A new or reset module holds the schedules as they were given, with nothing drained, captured,
/// awaited or recorded.
pub proof fn law_fresh_module(schedule: Seq<ScheduleEntry>)
    ensures
        ({
            let fresh = FundingModel::fresh(series_list(entries(schedule)));
            &&& fresh.series.len() == schedule.len()
            &&& forall|i: int| #![trigger fresh.series[i]]
                0 <= i < schedule.len() ==> {
                    &&& fresh.series[i].instrument_id == schedule[i].instrument_id->0
                    &&& fresh.series[i].ts_ns == schedule[i].ts_ns@
                    &&& fresh.series[i].rates == schedule[i].rates@
                }
            &&& fresh.next_idx.len() == schedule.len()
            &&& forall|i: int| 0 <= i < schedule.len() ==> #[trigger] fresh.next_idx[i] == 0
            &&& fresh.prev_snapshot is None
            &&& fresh.awaiting is None
            &&& fresh.ledger.instruments.len() == 0
            &&& fresh.ledger.total.len() == 0
            &&& fresh.ledger.unapplied.len() == 0
            &&& fresh.settlements.len() == 0
        }),
{
}

}
