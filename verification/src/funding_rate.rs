//! Perpetual swap funding simulation module.

use ahash::AHashMap;
use indexmap::IndexMap;
use vstd::prelude::*;

use crate::carry::{
    answers, based, exposure_notional_abs, group_exposures, grouped, groups_get, groups_keys,
    index_get, index_insert, index_with_capacity, indexed, kept_in, mark_price, marked,
    marks_insert, marks_new, notional_of, resolve_mark, resolved_mark, snapshot_exposures,
    snapshot_of, to_base, ContextModel, ExchangeContext, Exposure, Instrument, InstrumentId,
    ProcessInputs, Snapshot, SnapshotModel,
};
use crate::ledger::{
    entries_sum, law_acknowledged_balanced, law_acknowledged_counts_cost, recorded_costs, term_sum,
    AccountAdjustmentOutcome, Ledger, LedgerModel, Money,
};
use crate::number::{lemma_zero_value, Currency, Formula, Real};

verus! {

/// The cash flow of one funding settlement: the negated rate times the signed notional.
pub open spec fn funding_flow(rate: Real, notional_abs: Formula, is_long: bool) -> Formula {
    let signed_notional = if is_long {
        notional_abs
    } else {
        Formula::Negated(Box::new(notional_abs))
    };
    Formula::Product(
        Box::new(Formula::Negated(Box::new(Formula::Number(rate)))),
        Box::new(signed_notional),
    )
}

/// Returns the signed cash flow for one funding settlement in the quote currency.
///
/// A long position pays a positive rate. `notional_abs` is the unsigned position notional.
pub fn funding_cash_flow(rate: Real, notional_abs: Formula, is_long: bool) -> (cash_flow: Formula)
    ensures
        cash_flow == funding_flow(rate, notional_abs, is_long),
{
    let signed_notional = if is_long {
        notional_abs
    } else {
        Formula::Negated(Box::new(notional_abs))
    };
    Formula::Product(
        Box::new(Formula::Negated(Box::new(Formula::Number(rate)))),
        Box::new(signed_notional),
    )
}

/// A long position pays the rate on its notional, and a short position receives as much.
pub proof fn law_funding_long_pays_short_receives(
    rate: Real,
    notional_abs: Formula,
    round: spec_fn(real, Currency) -> real,
)
    ensures
        funding_flow(rate, notional_abs, true).value(round) == -(rate.value()
            * notional_abs.value(round)),
        funding_flow(rate, notional_abs, false).value(round) == rate.value() * notional_abs.value(
            round,
        ),
{
    let r = rate.value();
    let n = notional_abs.value(round);
    reveal_with_fuel(Formula::value, 4);
    assert((-r) * n == -(r * n)) by (nonlinear_arith);
    assert((-r) * (-n) == r * n) by (nonlinear_arith);
}

/// A positive rate costs a long position and pays a short one, a negative rate does the reverse,
/// and a zero rate moves nothing.
pub proof fn law_funding_sign(
    rate: Real,
    notional_abs: Formula,
    round: spec_fn(real, Currency) -> real,
)
    requires
        rate.finite(),
        notional_abs.value(round) >= 0real,
    ensures
        ({
            let long = funding_flow(rate, notional_abs, true).value(round);
            let short = funding_flow(rate, notional_abs, false).value(round);
            &&& !rate.negative() ==> long <= 0real && short >= 0real
            &&& rate.negative() ==> long >= 0real && short <= 0real
            &&& rate.zero() ==> long == 0real && short == 0real
            &&& !rate.zero() && notional_abs.value(round) > 0real ==> long != 0real && short
                != 0real
        }),
{
    let r = rate.value();
    let n = notional_abs.value(round);
    lemma_zero_value(rate);
    law_funding_long_pays_short_receives(rate, notional_abs, round);
    assert(r >= 0real && n >= 0real ==> r * n >= 0real) by (nonlinear_arith);
    assert(r <= 0real && n >= 0real ==> r * n <= 0real) by (nonlinear_arith);
    assert(r == 0real ==> r * n == 0real) by (nonlinear_arith);
    assert(r != 0real && n > 0real ==> r * n != 0real) by (nonlinear_arith);
}

/// One instrument's funding settlement schedule, as the host read it.
#[derive(Debug)]
pub struct ScheduleEntry {
    /// The instrument, where its name could be parsed.
    pub instrument_id: Option<InstrumentId>,
    /// The settlement timestamps.
    pub ts_ns: Vec<u64>,
    /// The rate applied at each settlement.
    pub rates: Vec<Real>,
}

/// The settlement timestamps and rates of one entry.
#[verifier::ext_equal]
pub struct EntryModel {
    pub instrument_id: Option<InstrumentId>,
    pub ts_ns: Seq<u64>,
    pub rates: Seq<Real>,
}

impl View for ScheduleEntry {
    type V = EntryModel;

    open spec fn view(&self) -> EntryModel {
        EntryModel {
            instrument_id: self.instrument_id,
            ts_ns: self.ts_ns@,
            rates: self.rates@,
        }
    }
}

/// What is wrong with a schedule entry.
#[derive(Debug, Clone, Copy, PartialEq, Eq, Structural)]
pub enum ScheduleFault {
    /// The instrument name cannot be parsed.
    InvalidInstrumentId,
    /// There are not as many rates as timestamps.
    LengthMismatch { timestamps: usize, rates: usize },
    /// The timestamps are not ascending.
    NotAscending,
    /// A rate is infinite or not a number.
    NotFinite { rate: Real },
    /// An earlier entry has the same instrument.
    Duplicate,
}

/// A schedule entry that cannot be used, by its position in the schedule.
#[derive(Debug, Clone, Copy, PartialEq, Eq, Structural)]
pub struct ScheduleError {
    pub entry: usize,
    pub fault: ScheduleFault,
}

/// Whether timestamps never go back.
pub open spec fn ascending(ts_ns: Seq<u64>) -> bool {
    forall|i: int, j: int| 0 <= i <= j < ts_ns.len() ==> ts_ns[i] <= ts_ns[j]
}

/// The first rate that is not finite.
pub open spec fn first_not_finite(rates: Seq<Real>) -> Option<Real>
    decreases rates.len(),
{
    if rates.len() == 0 {
        None
    } else if !rates[0].finite() {
        Some(rates[0])
    } else {
        first_not_finite(rates.skip(1))
    }
}

/// The first thing wrong with an entry of a schedule.
pub open spec fn entry_fault(schedule: Seq<EntryModel>, i: int) -> Option<ScheduleFault> {
    let entry = schedule[i];
    if entry.instrument_id is None {
        Some(ScheduleFault::InvalidInstrumentId)
    } else if entry.ts_ns.len() != entry.rates.len() {
        Some(
            ScheduleFault::LengthMismatch {
                timestamps: entry.ts_ns.len() as usize,
                rates: entry.rates.len() as usize,
            },
        )
    } else if !ascending(entry.ts_ns) {
        Some(ScheduleFault::NotAscending)
    } else if first_not_finite(entry.rates) is Some {
        Some(ScheduleFault::NotFinite { rate: first_not_finite(entry.rates)->0 })
    } else if exists|j: int| 0 <= j < i && (#[trigger] schedule[j]).instrument_id == entry.instrument_id {
        Some(ScheduleFault::Duplicate)
    } else {
        None
    }
}

/// Returns whether timestamps never go back.
fn is_ascending(ts_ns: &Vec<u64>) -> (yes: bool)
    ensures
        yes == ascending(ts_ns@),
{
    let mut i: usize = 1;
    while i < ts_ns.len()
        invariant
            1 <= i,
            forall|a: int, b: int| 0 <= a <= b < i && b < ts_ns.len() ==> ts_ns[a] <= ts_ns[b],
        decreases ts_ns.len() - i,
    {
        if ts_ns[i - 1] > ts_ns[i] {
            return false;
        }
        i += 1;
    }
    true
}

/// Returns the first rate that is not finite.
fn find_not_finite(rates: &Vec<Real>) -> (found: Option<Real>)
    ensures
        found == first_not_finite(rates@),
{
    assert(rates@.skip(0) =~= rates@);
    for i in 0..rates.len()
        invariant
            first_not_finite(rates@) == first_not_finite(rates@.skip(i as int)),
    {
        assert(rates@.skip(i as int)[0] == rates@[i as int]);
        if !rates[i].is_finite() {
            return Some(rates[i]);
        }
        assert(rates@.skip(i as int).skip(1) =~= rates@.skip(i + 1));
    }
    None
}

/// One instrument's funding settlement schedule.
#[derive(Debug)]
struct FundingSeries {
    instrument_id: InstrumentId,
    ts_ns: Vec<u64>,
    rates: Vec<Real>,
}

/// One instrument's funding settlement schedule.
#[verifier::ext_equal]
pub struct SeriesModel {
    pub instrument_id: InstrumentId,
    pub ts_ns: Seq<u64>,
    pub rates: Seq<Real>,
}

impl View for FundingSeries {
    type V = SeriesModel;

    closed spec fn view(&self) -> SeriesModel {
        SeriesModel {
            instrument_id: self.instrument_id,
            ts_ns: self.ts_ns@,
            rates: self.rates@,
        }
    }
}

/// The schedule of a usable entry.
pub open spec fn series_of(entry: EntryModel) -> SeriesModel {
    SeriesModel {
        instrument_id: entry.instrument_id->0,
        ts_ns: entry.ts_ns,
        rates: entry.rates,
    }
}

/// The number of settlements in a list of series.
pub open spec fn settlement_count(series: Seq<SeriesModel>) -> int
    decreases series.len(),
{
    if series.len() == 0 {
        0
    } else {
        settlement_count(series.drop_last()) + series.last().ts_ns.len()
    }
}

/// The number of settlements in a list of series that are not drained yet.
pub open spec fn remaining(series: Seq<SeriesModel>, next_idx: Seq<usize>) -> int
    decreases series.len(),
{
    if series.len() == 0 {
        0
    } else {
        remaining(series.drop_last(), next_idx.drop_last()) + series.last().ts_ns.len()
            - next_idx.last()
    }
}

proof fn lemma_settlement_count_take(series: Seq<SeriesModel>, n: int)
    requires
        0 <= n <= series.len(),
    ensures
        0 <= settlement_count(series.take(n)) <= settlement_count(series),
    decreases series.len(),
{
    if n == series.len() {
        assert(series.take(n) =~= series);
        if n > 0 {
            lemma_settlement_count_take(series.drop_last(), n - 1);
            assert(series.drop_last().take(n - 1) =~= series.drop_last());
        }
    } else {
        lemma_settlement_count_take(series.drop_last(), n);
        assert(series.drop_last().take(n) =~= series.take(n));
    }
}

proof fn lemma_remaining_fresh(series: Seq<SeriesModel>, next_idx: Seq<usize>)
    requires
        next_idx.len() == series.len(),
        forall|i: int| 0 <= i < next_idx.len() ==> next_idx[i] == 0,
    ensures
        remaining(series, next_idx) == settlement_count(series),
    decreases series.len(),
{
    if series.len() > 0 {
        lemma_remaining_fresh(series.drop_last(), next_idx.drop_last());
    }
}

/// One computed funding charge, for the host to evaluate.
#[derive(Debug)]
pub struct FundingCharge {
    pub instrument_id: InstrumentId,
    pub ts_settle: u64,
    /// The signed cash flow.
    pub amount: Formula,
    /// The currency of the cash flow.
    pub currency: Currency,
}

/// One computed funding charge awaiting acknowledgement.
#[derive(Debug, Clone, Copy, PartialEq, Eq, Structural)]
pub struct FundingAdjustment {
    pub instrument_id: InstrumentId,
    pub ts_settle: u64,
    pub amount: Money,
}

/// The state of a funding module.
#[verifier::ext_equal]
pub struct FundingModel {
    /// The settlement schedules.
    pub series: Seq<SeriesModel>,
    /// The position in each schedule of the first settlement that is not drained yet.
    pub next_idx: Seq<usize>,
    /// The inputs of the last process call.
    pub prev_snapshot: Option<SnapshotModel>,
    /// The completed batch that awaits acknowledgement.
    pub awaiting: Option<Seq<FundingAdjustment>>,
    /// The recorded costs.
    pub ledger: LedgerModel,
    /// Every applied settlement timestamp and cost, in charge order.
    pub settlements: Seq<(u64, i128)>,
}

impl FundingModel {
    /// The state before the first process call.
    pub open spec fn fresh(series: Seq<SeriesModel>) -> FundingModel {
        FundingModel {
            series,
            next_idx: Seq::new(series.len(), |i: int| 0usize),
            prev_snapshot: None,
            awaiting: None,
            ledger: LedgerModel::empty(),
            settlements: Seq::empty(),
        }
    }

    /// The number of settlements that are not drained yet.
    pub open spec fn pending(self) -> int {
        remaining(self.series, self.next_idx)
    }

    /// The instruments that have a schedule.
    pub open spec fn funded(self) -> Set<InstrumentId> {
        Set::new(|id: InstrumentId| exists|i: int|
            0 <= i < self.series.len() && (#[trigger] self.series[i]).instrument_id == id)
    }

    /// What holds of every state of a module.
    pub open spec fn valid(self) -> bool {
        &&& valid_series(self.series)
        &&& self.next_idx.len() == self.series.len()
        &&& forall|i: int|
            0 <= i < self.series.len() ==> (#[trigger] self.next_idx[i])
                <= self.series[i].ts_ns.len()
        &&& self.ledger.balanced()
        &&& self.ledger.total == self.settlements.map_values(|s: (u64, i128)| s.1)
        &&& self.awaiting is Some ==> forall|i: int|
            0 <= i < self.awaiting->0.len() ==> (#[trigger] self.awaiting->0[i]).amount.raw != 0
                && self.awaiting->0[i].amount.raw > i128::MIN
    }
}

/// Whether series can make up a module.
pub open spec fn valid_series(series: Seq<SeriesModel>) -> bool {
    &&& settlement_count(series) <= usize::MAX
    &&& forall|i: int| 0 <= i < series.len() ==> {
        &&& (#[trigger] series[i]).ts_ns.len() == series[i].rates.len()
        &&& ascending(series[i].ts_ns)
        &&& first_not_finite(series[i].rates) is None
    }
    &&& forall|i: int, j: int|
        0 <= i < j < series.len() ==> (#[trigger] series[i]).instrument_id != (
        #[trigger] series[j]).instrument_id
}

/// The entries of a schedule.
pub open spec fn entries(schedule: Seq<ScheduleEntry>) -> Seq<EntryModel> {
    schedule.map_values(|entry: ScheduleEntry| entry@)
}

/// The series of a schedule.
pub open spec fn series_list(schedule: Seq<EntryModel>) -> Seq<SeriesModel> {
    schedule.map_values(|entry: EntryModel| series_of(entry))
}

/// Whether a map leads from each instrument to its series.
spec fn index_matches(index: Map<InstrumentId, usize>, series: Seq<SeriesModel>) -> bool {
    &&& forall|i: int|
        0 <= i < series.len() ==> index.contains_key((#[trigger] series[i]).instrument_id)
    &&& forall|id: InstrumentId| #[trigger]
        index.contains_key(id) ==> index[id] < series.len()
            && series[index[id] as int].instrument_id == id
}

/// Applies perpetual swap funding at each scheduled settlement.
///
/// Every settlement at or before the current timestamp that has not yet been applied is charged
/// against each open position in that instrument, valued at the mark. A settlement instant
/// carrying no data item of its own is drained on the following call and charged against the
/// exposure and mark captured before the gap, since no fill can occur while the market is gapped.
#[derive(Debug)]
pub struct FundingRateModule {
    series: Vec<FundingSeries>,
    index_of: AHashMap<InstrumentId, usize>,
    next_idx: Vec<usize>,
    pending: usize,
    prev_snapshot: Option<Snapshot>,
    pending_adjustments: Option<Vec<FundingAdjustment>>,
    ledger: Ledger,
    settlements: Vec<(u64, i128)>,
}

impl View for FundingRateModule {
    type V = FundingModel;

    closed spec fn view(&self) -> FundingModel {
        FundingModel {
            series: self.series@.map_values(|series: FundingSeries| series@),
            next_idx: self.next_idx@,
            prev_snapshot: match self.prev_snapshot {
                Some(snapshot) => Some(snapshot@),
                None => None,
            },
            awaiting: match self.pending_adjustments {
                Some(adjustments) => Some(adjustments@),
                None => None,
            },
            ledger: self.ledger@,
            settlements: self.settlements@,
        }
    }
}

impl FundingRateModule {
    /// Whether this module is in a state that its methods can reach.
    pub closed spec fn wf(self) -> bool {
        &&& self@.valid()
        &&& self.pending == self@.pending()
        &&& index_matches(indexed(self.index_of), self@.series)
    }

    /// Creates a new funding module from a per-instrument settlement schedule.
    ///
    /// Each entry of `schedule` holds an instrument and parallel ascending lists of settlement
    /// timestamps and the rate applied at each.
    ///
    /// # Errors
    ///
    /// Returns an error if an instrument ID could not be parsed, a schedule has mismatched
    /// lengths or non-ascending timestamps, a rate is not finite, or an instrument occurs twice.
    pub fn new(schedule: Vec<ScheduleEntry>) -> (module: Result<FundingRateModule, ScheduleError>)
        requires
            settlement_count(series_list(entries(schedule@))) <= usize::MAX,
        ensures
            module is Ok <==> forall|i: int|
                0 <= i < schedule.len() ==> #[trigger] entry_fault(entries(schedule@), i) is None,
            module matches Ok(m) ==> m.wf() && m@ == FundingModel::fresh(
                series_list(entries(schedule@)),
            ),
            module matches Err(e) ==> {
                &&& e.entry < schedule.len()
                &&& entry_fault(entries(schedule@), e.entry as int) == Some(e.fault)
                &&& forall|i: int|
                    0 <= i < e.entry ==> #[trigger] entry_fault(entries(schedule@), i) is None
            },
    {
        let ghost all = entries(schedule@);
        let mut series: Vec<FundingSeries> = Vec::with_capacity(schedule.len());
        let mut index_of = index_with_capacity(schedule.len());
        let mut next_idx: Vec<usize> = Vec::with_capacity(schedule.len());
        let mut pending: usize = 0;
        for entry in it: schedule.into_iter()
            invariant
                all == entries(schedule@),
                it.seq() == schedule@,
                settlement_count(series_list(all)) <= usize::MAX,
                series.len() == it.index(),
                next_idx.len() == it.index(),
                forall|i: int| 0 <= i < series.len() ==> (#[trigger] series[i])@ == series_of(all[i]),
                forall|i: int| 0 <= i < next_idx.len() ==> next_idx[i] == 0,
                forall|i: int| 0 <= i < it.index() ==> #[trigger] entry_fault(all, i) is None,
                index_matches(indexed(index_of), series_list(all).take(it.index())),
                pending == settlement_count(series_list(all).take(it.index())),
        {
            let at = series.len();
            let ghost n = it.index();
            assert(entry@ == all[n]);
            let instrument_id = match entry.instrument_id {
                Some(instrument_id) => instrument_id,
                None => {
                    return Err(
                        ScheduleError { entry: at, fault: ScheduleFault::InvalidInstrumentId },
                    );
                },
            };
            if entry.ts_ns.len() != entry.rates.len() {
                let fault = ScheduleFault::LengthMismatch {
                    timestamps: entry.ts_ns.len(),
                    rates: entry.rates.len(),
                };
                return Err(ScheduleError { entry: at, fault });
            }
            if !is_ascending(&entry.ts_ns) {
                return Err(ScheduleError { entry: at, fault: ScheduleFault::NotAscending });
            }
            if let Some(rate) = find_not_finite(&entry.rates) {
                return Err(ScheduleError { entry: at, fault: ScheduleFault::NotFinite { rate } });
            }
            let ghost seen = indexed(index_of);
            proof {
                let listed = series_list(all).take(n);
                assert forall|j: int| 0 <= j < n implies (#[trigger] all[j]).instrument_id == Some(
                    listed[j].instrument_id,
                ) by {
                    assert(entry_fault(all, j) is None);
                }
                if seen.contains_key(instrument_id) {
                    let j = seen[instrument_id] as int;
                    assert(listed[j].instrument_id == instrument_id);
                    assert(all[j].instrument_id == all[n].instrument_id);
                } else {
                    assert forall|j: int| 0 <= j < n implies (#[trigger] all[j]).instrument_id
                        != all[n].instrument_id by {
                        assert(seen.contains_key(listed[j].instrument_id));
                    }
                }
                lemma_settlement_count_take(series_list(all), n + 1);
                assert(series_list(all).take(n + 1).drop_last() =~= listed);
            }
            if index_insert(&mut index_of, instrument_id, at).is_some() {
                return Err(ScheduleError { entry: at, fault: ScheduleFault::Duplicate });
            }
            pending = pending + entry.ts_ns.len();
            series.push(
                FundingSeries { instrument_id, ts_ns: entry.ts_ns, rates: entry.rates },
            );
            next_idx.push(0);
            proof {
                let listed = series_list(all).take(n);
                let extended = series_list(all).take(n + 1);
                assert forall|id: InstrumentId| #[trigger]
                    indexed(index_of).contains_key(id) implies indexed(index_of)[id]
                    < extended.len() && extended[indexed(index_of)[id] as int].instrument_id
                    == id by {
                    if id != instrument_id {
                        assert(listed[seen[id] as int] == extended[seen[id] as int]);
                    }
                }
                assert forall|i: int| 0 <= i < extended.len() implies indexed(
                    index_of,
                ).contains_key((#[trigger] extended[i]).instrument_id) by {
                    if i < n {
                        assert(extended[i] == listed[i]);
                    }
                }
            }
        }
        let module = FundingRateModule {
            series,
            index_of,
            next_idx,
            pending,
            prev_snapshot: None,
            pending_adjustments: None,
            ledger: Ledger::new(),
            settlements: Vec::new(),
        };
        proof {
            let model = FundingModel::fresh(series_list(all));
            assert(series_list(all).take(all.len() as int) =~= series_list(all));
            assert(module@.series =~= series_list(all));
            assert(module@ =~= model);
            lemma_remaining_fresh(model.series, model.next_idx);
            assert(model.ledger.total =~= model.settlements.map_values(|s: (u64, i128)| s.1));
            assert forall|i: int| 0 <= i < model.series.len() implies {
                &&& (#[trigger] model.series[i]).ts_ns.len() == model.series[i].rates.len()
                &&& ascending(model.series[i].ts_ns)
                &&& first_not_finite(model.series[i].rates) is None
            } by {
                assert(entry_fault(all, i) is None);
            }
            assert forall|i: int, j: int| 0 <= i < j < model.series.len() implies (
            #[trigger] model.series[i]).instrument_id != (
            #[trigger] model.series[j]).instrument_id by {
                assert(entry_fault(all, i) is None);
                assert(entry_fault(all, j) is None);
                assert(all[i].instrument_id != all[j].instrument_id);
            }
        }
        Ok(module)
    }
}

/// The known instruments whose notional is in their quote currency.
pub open spec fn not_inverse(ctx: ContextModel) -> Set<InstrumentId> {
    Set::new(|id: InstrumentId| ctx.instruments.contains_key(id) && !ctx.instruments[id].is_inverse)
}

impl FundingModel {
    /// The snapshot of every open position, and its mark, on a funded instrument; inverse
    /// instruments are left unpriced.
    pub open spec fn snapshot(self, ctx: ContextModel) -> SnapshotModel {
        snapshot_of(ctx, self.funded(), not_inverse(ctx))
    }
}

impl FundingRateModule {
    /// Returns whether an instrument has a schedule.
    fn is_funded(&self, id: &InstrumentId) -> (funded: bool)
        requires
            self.wf(),
        ensures
            funded == self@.funded().contains(*id),
    {
        index_get(&self.index_of, *id).is_some()
    }

    /// Snapshots every open position, and its mark, on a funded instrument.
    ///
    /// Inverse instruments are left unpriced, so a settlement on one falls back to a live read
    /// rather than a notional this module does not model.
    pub fn exposure_snapshot(&self, ctx: &ExchangeContext) -> (snapshot: Snapshot)
        requires
            self.wf(),
        ensures
            snapshot@ == self@.snapshot(ctx@),
    {
        let keep = |id: &InstrumentId| -> (keep: bool)
            ensures
                keep == self@.funded().contains(*id),
        { self.is_funded(id) };
        let exposures = snapshot_exposures(ctx, keep);
        let ghost expected = self@.snapshot(ctx@);
        proof {
            let kept = choose|kept: Seq<bool>| #[trigger]
                answers(keep, ctx@.positions, kept) && grouped(exposures) == group_exposures(
                    ctx@.positions,
                    kept,
                );
            assert(kept =~= kept_in(ctx@.positions, self@.funded()));
        }
        let ids = groups_keys(&exposures);
        if ids.len() == 0 {
            assert(grouped(exposures).dom() =~= Set::empty());
            assert(expected =~= (SnapshotModel { exposures: Map::empty(), marks: Map::empty() }));
            return Snapshot::default();
        }
        let mut marks = marks_new();
        for i in 0..ids.len()
            invariant
                grouped(exposures) == expected.exposures,
                expected == self@.snapshot(ctx@),
                ids@.to_set() == grouped(exposures).dom(),
                marked(marks).submap_of(expected.marks),
                forall|j: int|
                    0 <= j < i && expected.marks.contains_key(ids[j]) ==> marked(
                        marks,
                    ).contains_key(#[trigger] ids[j]),
        {
            let id = ids[i];
            assert(ids@.to_set().contains(id));
            if let Some(instrument) = ctx.instrument(id) {
                if !instrument.is_inverse {
                    if let Some(mark) = mark_price(&instrument) {
                        marks_insert(&mut marks, id, mark);
                    }
                }
            }
        }
        assert(marked(marks) =~= expected.marks) by {
            assert forall|id: InstrumentId| #[trigger]
                expected.marks.contains_key(id) implies marked(marks).contains_key(id) by {
                assert(ids@.to_set().contains(id));
                let j = choose|j: int| 0 <= j < ids.len() && ids[j] == id;
                assert(marked(marks).contains_key(ids[j]));
            }
            assert(marked(marks).dom() =~= expected.marks.dom());
        }
        Snapshot { exposures, marks }
    }
}

/// The charge of one settlement against one exposure.
pub open spec fn exposure_charge(
    id: InstrumentId,
    rate: Real,
    ts_settle: u64,
    exposure: Exposure,
    mark_px: Real,
    instrument: Instrument,
    base_currency: Option<Currency>,
) -> FundingCharge {
    let quote = instrument.quote_currency;
    let flow = funding_flow(rate, notional_of(exposure, mark_px, quote), exposure.is_long);
    let (amount, currency) = based(base_currency, instrument.xrate, flow, quote);
    FundingCharge { instrument_id: id, ts_settle, amount, currency }
}

/// The charges of one settlement: one for each exposure in the snapshot, unless the rate is
/// zero, the instrument is unknown, or there is no mark.
pub open spec fn settlement_charges(
    id: InstrumentId,
    rate: Real,
    ts_settle: u64,
    snapshot: SnapshotModel,
    use_snapshot_mark: bool,
    ctx: ContextModel,
) -> Seq<FundingCharge> {
    if rate.zero() || !ctx.instruments.contains_key(id) || !snapshot.exposures.contains_key(id) {
        Seq::empty()
    } else {
        let instrument = ctx.instruments[id];
        match resolved_mark(id, instrument, snapshot, use_snapshot_mark) {
            None => Seq::empty(),
            Some(mark_px) => snapshot.exposures[id].map_values(
                |exposure: Exposure|
                    exposure_charge(
                        id,
                        rate,
                        ts_settle,
                        exposure,
                        mark_px,
                        instrument,
                        ctx.base_currency,
                    ),
            ),
        }
    }
}

/// The position of the first settlement from `from` on that is after `ts_now`.
pub open spec fn due_end(ts_ns: Seq<u64>, from: int, ts_now: u64) -> int
    decreases ts_ns.len() - from,
{
    if from < ts_ns.len() && ts_ns[from] <= ts_now {
        due_end(ts_ns, from + 1, ts_now)
    } else {
        from
    }
}

/// The charges of one settlement of a series. A settlement before the call falls in a gap, and
/// is charged against what was captured before the gap.
pub open spec fn drained_charges(series: SeriesModel, idx: int, inputs: ProcessInputs) -> Seq<
    FundingCharge,
> {
    let ts_settle = series.ts_ns[idx];
    if inputs.prev is Some && ts_settle < inputs.ts_now {
        settlement_charges(
            series.instrument_id,
            series.rates[idx],
            ts_settle,
            inputs.prev->0,
            true,
            inputs.ctx,
        )
    } else {
        settlement_charges(
            series.instrument_id,
            series.rates[idx],
            ts_settle,
            inputs.current,
            false,
            inputs.ctx,
        )
    }
}

/// The charges of the settlements of a series from `from` up to, and without, `to`.
pub open spec fn series_charges(
    series: SeriesModel,
    from: int,
    to: int,
    inputs: ProcessInputs,
) -> Seq<FundingCharge>
    decreases to - from,
{
    if to <= from {
        Seq::empty()
    } else {
        series_charges(series, from, to - 1, inputs) + drained_charges(series, to - 1, inputs)
    }
}

/// The charges of every due settlement, by series.
pub open spec fn all_charges(
    series: Seq<SeriesModel>,
    next_idx: Seq<usize>,
    inputs: ProcessInputs,
) -> Seq<FundingCharge>
    decreases series.len(),
{
    if series.len() == 0 {
        Seq::empty()
    } else {
        let from = next_idx.last() as int;
        let to = due_end(series.last().ts_ns, from, inputs.ts_now);
        all_charges(series.drop_last(), next_idx.drop_last(), inputs) + series_charges(
            series.last(),
            from,
            to,
            inputs,
        )
    }
}

impl FundingModel {
    /// The inputs of a process call in this state.
    pub open spec fn inputs(self, ts_now: u64, ctx: ContextModel) -> ProcessInputs {
        ProcessInputs { ts_now, prev: self.prev_snapshot, current: self.snapshot(ctx), ctx }
    }

    /// The charges that a process call makes in this state.
    pub open spec fn charges(self, ts_now: u64, ctx: ContextModel) -> Seq<FundingCharge> {
        if self.pending() == 0 {
            Seq::empty()
        } else {
            all_charges(self.series, self.next_idx, self.inputs(ts_now, ctx))
        }
    }

    /// The position in each schedule after a process call.
    pub open spec fn drained(self, ts_now: u64) -> Seq<usize> {
        Seq::new(
            self.series.len(),
            |i: int| due_end(self.series[i].ts_ns, self.next_idx[i] as int, ts_now) as usize,
        )
    }

    /// The state after a process call in this state.
    pub open spec fn processed(self, ts_now: u64, ctx: ContextModel) -> FundingModel {
        if self.pending() == 0 {
            FundingModel { prev_snapshot: None, awaiting: Some(Seq::empty()), ..self }
        } else {
            FundingModel {
                next_idx: self.drained(ts_now),
                prev_snapshot: Some(self.snapshot(ctx)),
                ..self
            }
        }
    }
}

pub proof fn lemma_due_end(ts_ns: Seq<u64>, from: int, ts_now: u64)
    requires
        0 <= from <= ts_ns.len(),
    ensures
        from <= due_end(ts_ns, from, ts_now) <= ts_ns.len(),
    decreases ts_ns.len() - from,
{
    if from < ts_ns.len() && ts_ns[from] <= ts_now {
        lemma_due_end(ts_ns, from + 1, ts_now);
    }
}

proof fn lemma_remaining_update(series: Seq<SeriesModel>, next_idx: Seq<usize>, i: int, idx: usize)
    requires
        next_idx.len() == series.len(),
        0 <= i < series.len(),
    ensures
        remaining(series, next_idx.update(i, idx)) == remaining(series, next_idx) + next_idx[i]
            - idx,
    decreases series.len(),
{
    let updated = next_idx.update(i, idx);
    if i == series.len() - 1 {
        assert(updated.drop_last() =~= next_idx.drop_last());
    } else {
        lemma_remaining_update(series.drop_last(), next_idx.drop_last(), i, idx);
        assert(updated.drop_last() =~= next_idx.drop_last().update(i, idx));
    }
}

proof fn lemma_remaining_bounds(series: Seq<SeriesModel>, next_idx: Seq<usize>)
    requires
        next_idx.len() == series.len(),
        forall|i: int|
            0 <= i < series.len() ==> (#[trigger] next_idx[i]) <= series[i].ts_ns.len(),
    ensures
        0 <= remaining(series, next_idx) <= settlement_count(series),
    decreases series.len(),
{
    if series.len() > 0 {
        let series_rest = series.drop_last();
        let next_rest = next_idx.drop_last();
        assert forall|i: int| 0 <= i < series_rest.len() implies (#[trigger] next_rest[i])
            <= series_rest[i].ts_ns.len() by {
            assert(next_idx[i] <= series[i].ts_ns.len());
        }
        lemma_remaining_bounds(series_rest, next_rest);
        assert(next_idx[series.len() - 1] <= series[series.len() - 1].ts_ns.len());
    }
}

impl FundingRateModule {
    /// Charges one settlement against the snapshot exposure for `instrument_id`.
    fn settle(
        instrument_id: InstrumentId,
        rate: Real,
        ts_settle: u64,
        snapshot: &Snapshot,
        use_snapshot_mark: bool,
        ctx: &ExchangeContext,
        batch: &mut Vec<FundingCharge>,
    )
        ensures
            final(batch)@ == old(batch)@ + settlement_charges(
                instrument_id,
                rate,
                ts_settle,
                snapshot@,
                use_snapshot_mark,
                ctx@,
            ),
    {
        let ghost before = batch@;
        let ghost expected = settlement_charges(
            instrument_id,
            rate,
            ts_settle,
            snapshot@,
            use_snapshot_mark,
            ctx@,
        );
        assert(before + Seq::<FundingCharge>::empty() =~= before);
        if rate.is_zero() {
            return ;
        }
        let instrument = match ctx.instrument(instrument_id) {
            Some(instrument) => instrument,
            None => {
                return ;
            },
        };
        let exposures = match groups_get(&snapshot.exposures, instrument_id) {
            Some(exposures) => exposures,
            None => {
                return ;
            },
        };
        let quote_currency = instrument.quote_currency;
        for i in 0..exposures.len()
            invariant
                instrument == ctx@.instruments[instrument_id],
                quote_currency == instrument.quote_currency,
                exposures@ == snapshot@.exposures[instrument_id],
                !rate.zero(),
                ctx@.instruments.contains_key(instrument_id),
                snapshot@.exposures.contains_key(instrument_id),
                expected == settlement_charges(
                    instrument_id,
                    rate,
                    ts_settle,
                    snapshot@,
                    use_snapshot_mark,
                    ctx@,
                ),
                resolved_mark(instrument_id, instrument, snapshot@, use_snapshot_mark) is Some
                    ==> batch@ == before + expected.take(i as int),
                resolved_mark(instrument_id, instrument, snapshot@, use_snapshot_mark) is None
                    ==> batch@ == before,
        {
            let mark = resolve_mark(instrument_id, &instrument, snapshot, use_snapshot_mark);
            if let Some(mark_px) = mark {
                let exposure = exposures[i];
                let notional_abs = exposure_notional_abs(&exposure, mark_px, quote_currency);
                let cash_flow = funding_cash_flow(rate, notional_abs, exposure.is_long);
                let (amount, currency) = to_base(
                    ctx.base_currency(),
                    instrument.xrate,
                    cash_flow,
                    quote_currency,
                );
                batch.push(FundingCharge { instrument_id, ts_settle, amount, currency });
                assert(expected.take(i + 1) =~= expected.take(i as int).push(expected[i as int]));
            }
        }
        assert(resolved_mark(instrument_id, instrument, snapshot@, use_snapshot_mark) is Some
            ==> expected.take(exposures.len() as int) =~= expected);
    }

    /// Drains every settlement at or before `ts_now`, and returns the charges for them.
    ///
    /// The host evaluates each charge and hands the amounts to `complete`.
    pub fn process(&mut self, ts_now: u64, ctx: &ExchangeContext) -> (charges: Vec<FundingCharge>)
        requires
            old(self).wf(),
        ensures
            final(self).wf(),
            final(self)@ == old(self)@.processed(ts_now, ctx@),
            charges@ == old(self)@.charges(ts_now, ctx@),
    {
        let ghost model = self@;
        if self.pending == 0 {
            self.prev_snapshot = None;
            self.pending_adjustments = Some(Vec::new());
            assert(self@ =~= model.processed(ts_now, ctx@));
            return Vec::new();
        }
        let current = self.exposure_snapshot(ctx);
        let mut batch: Vec<FundingCharge> = Vec::new();
        let ghost inputs = model.inputs(ts_now, ctx@);
        let ghost before = *self;
        proof {
            assert(model.series.take(0) =~= Seq::empty());
        }
        let count = self.series.len();
        for i in 0..count
            invariant
                before.wf(),
                model == before@,
                count == model.series.len(),
                self.series == before.series,
                self.index_of == before.index_of,
                self.prev_snapshot == before.prev_snapshot,
                self.pending_adjustments == before.pending_adjustments,
                self.ledger == before.ledger,
                self.settlements == before.settlements,
                current@ == model.snapshot(ctx@),
                inputs == model.inputs(ts_now, ctx@),
                self.next_idx.len() == model.series.len(),
                forall|j: int|
                    0 <= j < self.next_idx.len() ==> (#[trigger] self.next_idx[j]) == (if j < i {
                        model.drained(ts_now)[j]
                    } else {
                        model.next_idx[j]
                    }),
                forall|j: int|
                    0 <= j < self.next_idx.len() ==> (#[trigger] self.next_idx[j])
                        <= model.series[j].ts_ns.len(),
                self.pending == remaining(model.series, self.next_idx@),
                batch@ == all_charges(
                    model.series.take(i as int),
                    model.next_idx.take(i as int),
                    inputs,
                ),
        {
            let start = self.next_idx[i];
            let mut idx = start;
            let ghost series = model.series[i as int];
            let ghost drained_before = batch@;
            assert(series == self.series[i as int]@);
            assert(drained_before + Seq::<FundingCharge>::empty() =~= drained_before);
            while idx < self.series[i].ts_ns.len() && self.series[i].ts_ns[idx] <= ts_now
                invariant
                    0 <= i < self.series.len(),
                    model == before@,
                    self.prev_snapshot == before.prev_snapshot,
                    series == self.series[i as int]@,
                    series.ts_ns.len() == series.rates.len(),
                    current@ == model.snapshot(ctx@),
                    inputs == model.inputs(ts_now, ctx@),
                    start <= idx <= series.ts_ns.len(),
                    due_end(series.ts_ns, start as int, ts_now) == due_end(
                        series.ts_ns,
                        idx as int,
                        ts_now,
                    ),
                    batch@ == drained_before + series_charges(
                        series,
                        start as int,
                        idx as int,
                        inputs,
                    ),
                decreases series.ts_ns.len() - idx,
            {
                let ts_settle = self.series[i].ts_ns[idx];
                let rate = self.series[i].rates[idx];
                let instrument_id = self.series[i].instrument_id;
                let ghost charged = batch@;
                match &self.prev_snapshot {
                    Some(prev) if ts_settle < ts_now => {
                        Self::settle(instrument_id, rate, ts_settle, prev, true, ctx, &mut batch);
                    },
                    _ => {
                        Self::settle(
                            instrument_id,
                            rate,
                            ts_settle,
                            &current,
                            false,
                            ctx,
                            &mut batch,
                        );
                    },
                }
                assert(batch@ == charged + drained_charges(series, idx as int, inputs));
                assert(batch@ =~= drained_before + (series_charges(
                    series,
                    start as int,
                    idx as int,
                    inputs,
                ) + drained_charges(series, idx as int, inputs)));
                idx = idx + 1;
            }
            let ghost partly = self.next_idx@;
            proof {
                lemma_remaining_update(model.series, partly, i as int, idx);
                lemma_remaining_bounds(model.series, partly.update(i as int, idx));
                assert(model.series.take(i + 1).drop_last() =~= model.series.take(i as int));
                assert(model.next_idx.take(i + 1).drop_last() =~= model.next_idx.take(i as int));
            }
            self.pending = self.pending - (idx - start);
            self.next_idx.set(i, idx);
        }
        proof {
            assert(model.series.take(model.series.len() as int) =~= model.series);
            assert(model.next_idx.take(model.series.len() as int) =~= model.next_idx);
            assert(self.next_idx@ =~= model.drained(ts_now));
        }
        self.prev_snapshot = Some(current);
        assert(self@ =~= model.processed(ts_now, ctx@));
        batch
    }
}

/// The adjustments that come of evaluated charges: those whose amount is valid and not zero.
pub open spec fn adjustments_of(charges: Seq<FundingCharge>, amounts: Seq<Option<i128>>) -> Seq<
    FundingAdjustment,
>
    decreases charges.len(),
{
    if charges.len() == 0 {
        Seq::empty()
    } else {
        let before = adjustments_of(charges.drop_last(), amounts.drop_last());
        match amounts.last() {
            Some(raw) => if raw == 0 {
                before
            } else {
                before.push(
                    FundingAdjustment {
                        instrument_id: charges.last().instrument_id,
                        ts_settle: charges.last().ts_settle,
                        amount: Money { raw, currency: charges.last().currency },
                    },
                )
            },
            None => before,
        }
    }
}

/// The cost of an adjustment, positive when paid.
pub open spec fn cost_of(adjustment: FundingAdjustment) -> i128 {
    (-adjustment.amount.raw) as i128
}

/// A ledger after a batch is acknowledged.
pub open spec fn acknowledged_ledger(
    ledger: LedgerModel,
    adjustments: Seq<FundingAdjustment>,
    outcomes: Seq<AccountAdjustmentOutcome>,
) -> LedgerModel
    decreases adjustments.len(),
{
    if adjustments.len() == 0 {
        ledger
    } else {
        acknowledged_ledger(
            ledger,
            adjustments.drop_last(),
            outcomes.drop_last(),
        ).acknowledged(
            adjustments.last().instrument_id,
            cost_of(adjustments.last()),
            outcomes.last(),
        )
    }
}

/// The timestamps and costs of the applied adjustments of a batch.
pub open spec fn applied_settlements(
    adjustments: Seq<FundingAdjustment>,
    outcomes: Seq<AccountAdjustmentOutcome>,
) -> Seq<(u64, i128)>
    decreases adjustments.len(),
{
    if adjustments.len() == 0 {
        Seq::empty()
    } else {
        let before = applied_settlements(adjustments.drop_last(), outcomes.drop_last());
        match outcomes.last() {
            AccountAdjustmentOutcome::Applied => before.push(
                (adjustments.last().ts_settle, cost_of(adjustments.last())),
            ),
            AccountAdjustmentOutcome::Failed => before,
        }
    }
}

impl FundingModel {
    /// The state after the charges of a process call are evaluated.
    pub open spec fn completed(
        self,
        charges: Seq<FundingCharge>,
        amounts: Seq<Option<i128>>,
    ) -> FundingModel {
        FundingModel { awaiting: Some(adjustments_of(charges, amounts)), ..self }
    }

    /// The state after the completed batch is acknowledged.
    pub open spec fn acknowledged(self, outcomes: Seq<AccountAdjustmentOutcome>) -> FundingModel {
        FundingModel {
            awaiting: None,
            ledger: acknowledged_ledger(self.ledger, self.awaiting->0, outcomes),
            settlements: self.settlements + applied_settlements(self.awaiting->0, outcomes),
            ..self
        }
    }
}

impl FundingRateModule {
    /// Takes the evaluated charges of a process call, and returns the account adjustments.
    ///
    /// `amounts` holds the raw amount of each charge, or `None` where a notional or an amount
    /// was not valid money; those charges and the zero amounts are dropped.
    pub fn complete(&mut self, charges: Vec<FundingCharge>, amounts: Vec<Option<i128>>) -> (adjustments:
        Vec<Money>)
        requires
            old(self).wf(),
            charges.len() == amounts.len(),
            forall|i: int|
                0 <= i < amounts.len() && (#[trigger] amounts[i]) is Some ==> amounts[i]->0
                    > i128::MIN,
        ensures
            final(self).wf(),
            final(self)@ == old(self)@.completed(charges@, amounts@),
            adjustments@ == adjustments_of(charges@, amounts@).map_values(
                |a: FundingAdjustment| a.amount,
            ),
    {
        let ghost model = self@;
        let mut batch: Vec<FundingAdjustment> = Vec::new();
        let mut adjustments: Vec<Money> = Vec::new();
        assert(charges@.take(0) =~= Seq::empty());
        for i in 0..charges.len()
            invariant
                charges.len() == amounts.len(),
                forall|j: int|
                    0 <= j < amounts.len() && (#[trigger] amounts[j]) is Some ==> amounts[j]->0
                        > i128::MIN,
                batch@ == adjustments_of(charges@.take(i as int), amounts@.take(i as int)),
                adjustments@ == batch@.map_values(|a: FundingAdjustment| a.amount),
                forall|j: int|
                    0 <= j < batch.len() ==> (#[trigger] batch[j]).amount.raw != 0
                        && batch[j].amount.raw > i128::MIN,
        {
            assert(charges@.take(i + 1).drop_last() =~= charges@.take(i as int));
            assert(amounts@.take(i + 1).drop_last() =~= amounts@.take(i as int));
            if let Some(raw) = amounts[i] {
                if raw != 0 {
                    let amount = Money { raw, currency: charges[i].currency };
                    batch.push(
                        FundingAdjustment {
                            instrument_id: charges[i].instrument_id,
                            ts_settle: charges[i].ts_settle,
                            amount,
                        },
                    );
                    adjustments.push(amount);
                }
            }
            assert(adjustments@ =~= batch@.map_values(|a: FundingAdjustment| a.amount));
        }
        assert(charges@.take(charges.len() as int) =~= charges@);
        assert(amounts@.take(amounts.len() as int) =~= amounts@);
        self.pending_adjustments = Some(batch);
        assert(self@ =~= model.completed(charges@, amounts@));
        adjustments
    }

    /// Records what became of the adjustments of the completed batch.
    pub fn acknowledge(&mut self, outcomes: &Vec<AccountAdjustmentOutcome>)
        requires
            old(self).wf(),
            old(self)@.awaiting is Some,
            old(self)@.awaiting->0.len() == outcomes.len(),
        ensures
            final(self).wf(),
            final(self)@ == old(self)@.acknowledged(outcomes@),
    {
        let ghost model = self@;
        let ghost before = *self;
        let adjustments = self.pending_adjustments.take().unwrap();
        assert(adjustments@.take(0) =~= Seq::empty());
        for i in 0..adjustments.len()
            invariant
                model == before@,
                before.wf(),
                adjustments@ == model.awaiting->0,
                model.awaiting is Some,
                adjustments.len() == outcomes.len(),
                self.series == before.series,
                self.index_of == before.index_of,
                self.next_idx == before.next_idx,
                self.pending == before.pending,
                self.prev_snapshot == before.prev_snapshot,
                self.pending_adjustments is None,
                self.ledger@ == acknowledged_ledger(
                    model.ledger,
                    adjustments@.take(i as int),
                    outcomes@.take(i as int),
                ),
                self.settlements@ == model.settlements + applied_settlements(
                    adjustments@.take(i as int),
                    outcomes@.take(i as int),
                ),
                self.ledger@.balanced(),
                self.ledger@.total == self.settlements@.map_values(|s: (u64, i128)| s.1),
        {
            assert(adjustments@.take(i + 1).drop_last() =~= adjustments@.take(i as int));
            assert(outcomes@.take(i + 1).drop_last() =~= outcomes@.take(i as int));
            let adjustment = adjustments[i];
            let outcome = outcomes[i];
            let cost = -adjustment.amount.raw;
            proof {
                law_acknowledged_balanced(
                    self.ledger@,
                    adjustment.instrument_id,
                    cost,
                    outcome,
                );
            }
            self.ledger.acknowledge(adjustment.instrument_id, cost, outcome);
            match outcome {
                AccountAdjustmentOutcome::Applied => {
                    self.settlements.push((adjustment.ts_settle, cost));
                },
                AccountAdjustmentOutcome::Failed => {},
            }
            assert(self.ledger@.total =~= self.settlements@.map_values(|s: (u64, i128)| s.1));
        }
        proof {
            assert(adjustments@.take(adjustments.len() as int) =~= adjustments@);
            assert(outcomes@.take(outcomes.len() as int) =~= outcomes@);
            assert(self@ =~= model.acknowledged(outcomes@));
        }
    }

    /// Returns this module to the state before the first process call.
    pub fn reset(&mut self)
        requires
            old(self).wf(),
        ensures
            final(self).wf(),
            final(self)@ == FundingModel::fresh(old(self)@.series),
    {
        let ghost model = self@;
        let ghost before = *self;
        let mut next_idx: Vec<usize> = Vec::with_capacity(self.series.len());
        let mut pending: usize = 0;
        assert(model.series.take(0) =~= Seq::empty());
        for i in 0..self.series.len()
            invariant
                before.wf(),
                model == before@,
                *self == before,
                next_idx.len() == i,
                forall|j: int| 0 <= j < i ==> next_idx[j] == 0,
                pending == settlement_count(model.series.take(i as int)),
        {
            proof {
                lemma_settlement_count_take(model.series, i + 1);
                assert(model.series.take(i + 1).drop_last() =~= model.series.take(i as int));
                assert(model.series[i as int] == self.series[i as int]@);
            }
            pending = pending + self.series[i].ts_ns.len();
            next_idx.push(0);
        }
        self.next_idx = next_idx;
        self.pending = pending;
        self.prev_snapshot = None;
        self.pending_adjustments = None;
        self.ledger.clear();
        self.settlements.clear();
        proof {
            let fresh = FundingModel::fresh(model.series);
            assert(model.series.take(model.series.len() as int) =~= model.series);
            assert(self@ =~= fresh);
            lemma_remaining_fresh(fresh.series, fresh.next_idx);
            assert(fresh.ledger.total =~= fresh.settlements.map_values(|s: (u64, i128)| s.1));
        }
    }

    /// Returns the number of settlements that are not drained yet.
    pub fn pending(&self) -> (pending: usize)
        requires
            self.wf(),
        ensures
            pending == self@.pending(),
    {
        self.pending
    }

    /// Returns the terms of the applied funding cost across all instruments, positive when paid,
    /// in the order of their addition.
    pub fn total_cost(&self) -> (terms: &Vec<i128>)
        ensures
            terms@ == self@.ledger.total,
    {
        self.ledger.total_cost()
    }

    /// Returns the terms of the funding cost the exchange could not apply, in the order of their
    /// addition.
    pub fn unapplied_cost(&self) -> (terms: &Vec<i128>)
        ensures
            terms@ == self@.ledger.unapplied,
    {
        self.ledger.unapplied_cost()
    }

    /// Returns the terms of the applied funding cost per instrument.
    pub fn instrument_costs(&self) -> (costs: IndexMap<InstrumentId, Vec<i128>>)
        ensures
            recorded_costs(costs) == self@.ledger.instruments,
    {
        self.ledger.instrument_costs()
    }

    /// Returns every applied settlement timestamp and cost, in charge order.
    pub fn settlements(&self) -> (settlements: &Vec<(u64, i128)>)
        ensures
            settlements@ == self@.settlements,
    {
        &self.settlements
    }
}

/// Draining up to one timestamp and then up to a later one ends where draining up to the later
/// one at once does.
pub proof fn law_drain_composes(ts_ns: Seq<u64>, from: int, first: u64, second: u64)
    requires
        0 <= from <= ts_ns.len(),
        first <= second,
    ensures
        due_end(ts_ns, due_end(ts_ns, from, first), second) == due_end(ts_ns, from, second),
    decreases ts_ns.len() - from,
{
    if from < ts_ns.len() && ts_ns[from] <= first {
        law_drain_composes(ts_ns, from + 1, first, second);
    }
}

/// What two process calls drain one after the other is what the later one would have drained:
/// no settlement is dropped between them, and none is drained by both.
pub proof fn law_process_drains_once(
    model: FundingModel,
    first: u64,
    second: u64,
    ctx: ContextModel,
)
    requires
        model.valid(),
        first <= second,
    ensures
        model.processed(first, ctx).drained(second) == model.drained(second),
{
    let between = model.processed(first, ctx);
    assert forall|i: int| 0 <= i < model.series.len() implies between.drained(second)[i]
        == model.drained(second)[i] by {
        assert(model.next_idx[i] <= model.series[i].ts_ns.len());
        lemma_due_end(model.series[i].ts_ns, model.next_idx[i] as int, first);
        lemma_settlement_fits(model.series, i);
        law_drain_composes(
            model.series[i].ts_ns,
            model.next_idx[i] as int,
            first,
            second,
        );
    }
    assert(between.drained(second) =~= model.drained(second));
}

/// A second process call at the timestamp of the first one charges nothing, whatever the venue
/// has come to.
pub proof fn law_process_again_charges_nothing(
    model: FundingModel,
    ts_now: u64,
    ctx: ContextModel,
    later: ContextModel,
)
    requires
        model.valid(),
    ensures
        model.processed(ts_now, ctx).charges(ts_now, later).len() == 0,
{
    let after = model.processed(ts_now, ctx);
    law_process_drains_once(model, ts_now, ts_now, ctx);
    if after.pending() != 0 {
        assert forall|i: int| 0 <= i < after.series.len() implies due_end(
            (#[trigger] after.series[i]).ts_ns,
            after.next_idx[i] as int,
            ts_now,
        ) == after.next_idx[i] by {
            assert(model.next_idx[i] <= model.series[i].ts_ns.len());
            lemma_due_end(model.series[i].ts_ns, model.next_idx[i] as int, ts_now);
            lemma_settlement_fits(model.series, i);
            law_drain_composes(model.series[i].ts_ns, model.next_idx[i] as int, ts_now, ts_now);
        }
        lemma_nothing_due(after.series, after.next_idx, after.inputs(ts_now, later));
    }
}

proof fn lemma_nothing_due(
    series: Seq<SeriesModel>,
    next_idx: Seq<usize>,
    inputs: ProcessInputs,
)
    requires
        next_idx.len() == series.len(),
        forall|i: int|
            0 <= i < series.len() ==> due_end(
                (#[trigger] series[i]).ts_ns,
                next_idx[i] as int,
                inputs.ts_now,
            ) == next_idx[i],
    ensures
        all_charges(series, next_idx, inputs).len() == 0,
    decreases series.len(),
{
    if series.len() > 0 {
        let rest = series.drop_last();
        assert forall|i: int| 0 <= i < rest.len() implies due_end(
            (#[trigger] rest[i]).ts_ns,
            next_idx.drop_last()[i] as int,
            inputs.ts_now,
        ) == next_idx.drop_last()[i] by {
            assert(rest[i] == series[i]);
        }
        lemma_nothing_due(rest, next_idx.drop_last(), inputs);
        assert(series[series.len() - 1] == series.last());
    }
}

pub proof fn lemma_settlement_fits(series: Seq<SeriesModel>, i: int)
    requires
        0 <= i < series.len(),
    ensures
        series[i].ts_ns.len() <= settlement_count(series),
{
    lemma_settlement_count_take(series, i + 1);
    lemma_settlement_count_take(series, i);
    assert(series.take(i + 1).drop_last() =~= series.take(i));
}

/// After a process call every settlement at or before its timestamp is drained, and every later
/// one is still to come.
pub proof fn law_process_drains_all_due(
    model: FundingModel,
    ts_now: u64,
    ctx: ContextModel,
    i: int,
    idx: int,
)
    requires
        model.valid(),
        0 <= i < model.series.len(),
        model.next_idx[i] <= idx < model.series[i].ts_ns.len(),
    ensures
        idx < model.processed(ts_now, ctx).next_idx[i] <==> model.series[i].ts_ns[idx] <= ts_now,
{
    let ts_ns = model.series[i].ts_ns;
    law_pending_counts_undrained(model);
    lemma_due_end(ts_ns, model.next_idx[i] as int, ts_now);
    lemma_settlement_fits(model.series, i);
    lemma_due_end_splits(ts_ns, model.next_idx[i] as int, ts_now, idx);
}

proof fn lemma_due_end_splits(ts_ns: Seq<u64>, from: int, ts_now: u64, idx: int)
    requires
        ascending(ts_ns),
        0 <= from <= idx < ts_ns.len(),
    ensures
        idx < due_end(ts_ns, from, ts_now) <==> ts_ns[idx] <= ts_now,
    decreases ts_ns.len() - from,
{
    if ts_ns[from] <= ts_now {
        if from < idx {
            lemma_due_end_splits(ts_ns, from + 1, ts_now, idx);
        } else {
            lemma_due_end(ts_ns, from + 1, ts_now);
        }
    } else {
        assert(ts_ns[from] <= ts_ns[idx]);
    }
}

/// No settlement is left exactly where every schedule is drained to its end.
pub proof fn law_pending_counts_undrained(model: FundingModel)
    requires
        model.valid(),
    ensures
        model.pending() >= 0,
        model.pending() == 0 <==> forall|i: int|
            0 <= i < model.series.len() ==> (#[trigger] model.next_idx[i])
                == model.series[i].ts_ns.len(),
{
    lemma_remaining_bounds(model.series, model.next_idx);
    lemma_remaining_zero(model.series, model.next_idx);
}

proof fn lemma_remaining_zero(series: Seq<SeriesModel>, next_idx: Seq<usize>)
    requires
        next_idx.len() == series.len(),
        forall|i: int|
            0 <= i < series.len() ==> (#[trigger] next_idx[i]) <= series[i].ts_ns.len(),
    ensures
        remaining(series, next_idx) == 0 <==> forall|i: int|
            0 <= i < series.len() ==> (#[trigger] next_idx[i]) == series[i].ts_ns.len(),
    decreases series.len(),
{
    if series.len() > 0 {
        let s = series.drop_last();
        let n = next_idx.drop_last();
        let last = series.len() - 1;
        assert forall|i: int| 0 <= i < s.len() implies (#[trigger] n[i])
            <= s[i].ts_ns.len() by {
            assert(next_idx[i] <= series[i].ts_ns.len());
        }
        lemma_remaining_zero(s, n);
        lemma_remaining_bounds(s, n);
        assert(next_idx[last] <= series[last].ts_ns.len());
        if remaining(series, next_idx) == 0 {
            assert forall|i: int| 0 <= i < series.len() implies (#[trigger] next_idx[i])
                == series[i].ts_ns.len() by {
                if i < last {
                    assert(n[i] == s[i].ts_ns.len());
                }
            }
        }
        if forall|i: int|
            0 <= i < series.len() ==> (#[trigger] next_idx[i]) == series[i].ts_ns.len() {
            assert forall|i: int| 0 <= i < s.len() implies (#[trigger] n[i])
                == s[i].ts_ns.len() by {
                assert(next_idx[i] == series[i].ts_ns.len());
            }
            assert(next_idx[last] == series[last].ts_ns.len());
        }
    }
}

/// The instruments and settlement timestamps of charges.
pub open spec fn charge_stamps(charges: Seq<FundingCharge>) -> Seq<(InstrumentId, u64)> {
    charges.map_values(|charge: FundingCharge| (charge.instrument_id, charge.ts_settle))
}

/// The instruments and settlement timestamps of adjustments.
pub open spec fn adjustment_stamps(adjustments: Seq<FundingAdjustment>) -> Seq<
    (InstrumentId, u64),
> {
    adjustments.map_values(
        |adjustment: FundingAdjustment| (adjustment.instrument_id, adjustment.ts_settle),
    )
}

/// Whether the timestamps of each instrument never go back.
pub open spec fn never_back(stamps: Seq<(InstrumentId, u64)>) -> bool {
    forall|i: int, j: int|
        0 <= i <= j < stamps.len() && (#[trigger] stamps[i]).0 == (#[trigger] stamps[j]).0
            ==> stamps[i].1 <= stamps[j].1
}

/// Whether every settlement that is not drained yet comes at or after the stamps of its
/// instrument.
spec fn passed(
    stamps: Seq<(InstrumentId, u64)>,
    series: Seq<SeriesModel>,
    next_idx: Seq<usize>,
) -> bool {
    forall|k: int, i: int, idx: int|
        0 <= k < stamps.len() && 0 <= i < series.len() && next_idx[i] <= idx
            < series[i].ts_ns.len() && (#[trigger] stamps[k]).0 == series[i].instrument_id
            ==> stamps[k].1 <= (#[trigger] series[i].ts_ns[idx])
}

/// Whether a stamp is that of a settlement of one of the series, at a position from the next one
/// on that is due.
spec fn is_due(
    stamp: (InstrumentId, u64),
    series: Seq<SeriesModel>,
    next_idx: Seq<usize>,
    ts_now: u64,
) -> bool {
    exists|i: int, idx: int|
        0 <= i < series.len() && next_idx[i] <= idx < due_end(
            series[i].ts_ns,
            next_idx[i] as int,
            ts_now,
        ) && idx < series[i].ts_ns.len() && series[i].instrument_id == stamp.0
            && #[trigger] series[i].ts_ns[idx] == stamp.1
}

/// Whether positions are within their schedules, and the schedules can make up a module.
spec fn scheduled(series: Seq<SeriesModel>, next_idx: Seq<usize>) -> bool {
    &&& valid_series(series)
    &&& next_idx.len() == series.len()
    &&& forall|i: int|
        0 <= i < series.len() ==> (#[trigger] next_idx[i]) <= series[i].ts_ns.len()
}

proof fn lemma_series_stamps(series: SeriesModel, from: int, to: int, inputs: ProcessInputs)
    requires
        ascending(series.ts_ns),
        0 <= from <= to <= series.ts_ns.len(),
    ensures
        ({
            let stamps = charge_stamps(series_charges(series, from, to, inputs));
            &&& never_back(stamps)
            &&& forall|k: int|
                0 <= k < stamps.len() ==> (#[trigger] stamps[k]).0 == series.instrument_id
                    && exists|idx: int|
                    from <= idx < to && #[trigger] series.ts_ns[idx] == stamps[k].1
        }),
    decreases to - from,
{
    if from < to {
        lemma_series_stamps(series, from, to - 1, inputs);
        let before = charge_stamps(series_charges(series, from, to - 1, inputs));
        let last = charge_stamps(drained_charges(series, to - 1, inputs));
        let all = charge_stamps(series_charges(series, from, to, inputs));
        assert(all =~= before + last);
        assert forall|k: int| 0 <= k < last.len() implies #[trigger] last[k] == (
            series.instrument_id,
            series.ts_ns[to - 1],
        ) by {}
        assert forall|k: int| 0 <= k < all.len() implies (#[trigger] all[k]).0
            == series.instrument_id && exists|idx: int|
            from <= idx < to && #[trigger] series.ts_ns[idx] == all[k].1 by {
            if k < before.len() {
                assert(all[k] == before[k]);
                let idx = choose|idx: int|
                    from <= idx < to - 1 && #[trigger] series.ts_ns[idx] == before[k].1;
                assert(series.ts_ns[idx] == all[k].1);
            } else {
                assert(all[k] == last[k - before.len()]);
                assert(series.ts_ns[to - 1] == all[k].1);
            }
        }
        assert forall|i: int, j: int|
            0 <= i <= j < all.len() && (#[trigger] all[i]).0 == (#[trigger] all[j]).0 implies
            all[i].1 <= all[j].1 by {
            if j < before.len() {
                assert(all[i] == before[i] && all[j] == before[j]);
            } else {
                assert(all[j] == last[j - before.len()]);
                let idx = choose|idx: int|
                    from <= idx < to && #[trigger] series.ts_ns[idx] == all[i].1;
                assert(series.ts_ns[idx] <= series.ts_ns[to - 1]);
            }
        }
    }
}

proof fn lemma_all_stamps(
    series: Seq<SeriesModel>,
    next_idx: Seq<usize>,
    inputs: ProcessInputs,
)
    requires
        scheduled(series, next_idx),
    ensures
        ({
            let stamps = charge_stamps(all_charges(series, next_idx, inputs));
            &&& never_back(stamps)
            &&& forall|k: int|
                0 <= k < stamps.len() ==> is_due(
                    #[trigger] stamps[k],
                    series,
                    next_idx,
                    inputs.ts_now,
                )
        }),
    decreases series.len(),
{
    if series.len() > 0 {
        let rest = series.drop_last();
        let next_rest = next_idx.drop_last();
        let end = series.len() - 1;
        let from = next_idx[end] as int;
        let to = due_end(series[end].ts_ns, from, inputs.ts_now);
        lemma_settlement_count_take(series, end);
        assert(series.take(end) =~= rest);
        assert(next_idx[end] <= series[end].ts_ns.len());
        assert forall|i: int| 0 <= i < rest.len() implies (#[trigger] next_rest[i])
            <= rest[i].ts_ns.len() by {
            assert(next_idx[i] <= series[i].ts_ns.len());
        }
        assert(scheduled(rest, next_rest)) by {
            assert forall|i: int| 0 <= i < rest.len() implies {
                &&& (#[trigger] rest[i]).ts_ns.len() == rest[i].rates.len()
                &&& ascending(rest[i].ts_ns)
                &&& first_not_finite(rest[i].rates) is None
            } by {
                assert(rest[i] == series[i]);
            }
            assert forall|i: int, j: int| 0 <= i < j < rest.len() implies (
            #[trigger] rest[i]).instrument_id != (#[trigger] rest[j]).instrument_id by {
                assert(rest[i] == series[i] && rest[j] == series[j]);
            }
        }
        lemma_all_stamps(rest, next_rest, inputs);
        lemma_due_end(series[end].ts_ns, from, inputs.ts_now);
        lemma_series_stamps(series[end], from, to, inputs);
        let before = charge_stamps(all_charges(rest, next_rest, inputs));
        let last = charge_stamps(series_charges(series[end], from, to, inputs));
        let all = charge_stamps(all_charges(series, next_idx, inputs));
        assert(all =~= before + last);
        assert forall|k: int| 0 <= k < before.len() implies is_due(
            #[trigger] before[k],
            series,
            next_idx,
            inputs.ts_now,
        ) && before[k].0 != series[end].instrument_id by {
            let (i, idx) = choose|i: int, idx: int|
                0 <= i < rest.len() && next_rest[i] <= idx < due_end(
                    rest[i].ts_ns,
                    next_rest[i] as int,
                    inputs.ts_now,
                ) && idx < rest[i].ts_ns.len() && rest[i].instrument_id == before[k].0
                    && #[trigger] rest[i].ts_ns[idx] == before[k].1;
            assert(rest[i] == series[i] && next_rest[i] == next_idx[i]);
            assert(series[i].ts_ns[idx] == before[k].1);
        }
        assert forall|k: int| 0 <= k < all.len() implies is_due(
            #[trigger] all[k],
            series,
            next_idx,
            inputs.ts_now,
        ) by {
            if k < before.len() {
                assert(all[k] == before[k]);
            } else {
                assert(all[k] == last[k - before.len()]);
                let idx = choose|idx: int|
                    from <= idx < to && #[trigger] series[end].ts_ns[idx] == all[k].1;
                assert(series[end].ts_ns[idx] == all[k].1);
            }
        }
        assert forall|i: int, j: int|
            0 <= i <= j < all.len() && (#[trigger] all[i]).0 == (#[trigger] all[j]).0 implies
            all[i].1 <= all[j].1 by {
            if j < before.len() {
                assert(all[i] == before[i] && all[j] == before[j]);
            } else {
                assert(all[j] == last[j - before.len()]);
                if i < before.len() {
                    assert(all[i] == before[i]);
                } else {
                    assert(all[i] == last[i - before.len()]);
                }
            }
        }
    }
}

proof fn lemma_processed_scheduled(model: FundingModel, ts_now: u64, ctx: ContextModel)
    requires
        scheduled(model.series, model.next_idx),
    ensures
        scheduled(model.series, model.processed(ts_now, ctx).next_idx),
        forall|i: int|
            0 <= i < model.series.len() ==> model.next_idx[i]
                <= #[trigger] model.processed(ts_now, ctx).next_idx[i],
{
    let after = model.processed(ts_now, ctx).next_idx;
    assert forall|i: int| 0 <= i < model.series.len() implies model.next_idx[i]
        <= #[trigger] after[i] <= model.series[i].ts_ns.len() by {
        assert(model.next_idx[i] <= model.series[i].ts_ns.len());
        lemma_due_end(model.series[i].ts_ns, model.next_idx[i] as int, ts_now);
        lemma_settlement_fits(model.series, i);
    }
}

/// The stamps of a process call follow those of the settlements that were drained before it, and
/// the settlements that are left follow them.
proof fn lemma_call_follows(
    model: FundingModel,
    ts_now: u64,
    ctx: ContextModel,
    earlier: Seq<(InstrumentId, u64)>,
)
    requires
        scheduled(model.series, model.next_idx),
        passed(earlier, model.series, model.next_idx),
        never_back(earlier),
    ensures
        ({
            let stamps = earlier + charge_stamps(model.charges(ts_now, ctx));
            &&& never_back(stamps)
            &&& passed(stamps, model.series, model.processed(ts_now, ctx).next_idx)
        }),
{
    let series = model.series;
    let next_idx = model.next_idx;
    let after = model.processed(ts_now, ctx).next_idx;
    let new = charge_stamps(model.charges(ts_now, ctx));
    let stamps = earlier + new;
    lemma_processed_scheduled(model, ts_now, ctx);
    if model.pending() != 0 {
        lemma_all_stamps(series, next_idx, model.inputs(ts_now, ctx));
    }
    assert forall|k: int| 0 <= k < new.len() implies is_due(
        #[trigger] new[k],
        series,
        next_idx,
        ts_now,
    ) by {}
    assert forall|i: int, j: int|
        0 <= i <= j < stamps.len() && (#[trigger] stamps[i]).0 == (#[trigger] stamps[j]).0 implies
        stamps[i].1 <= stamps[j].1 by {
        let n = earlier.len();
        if j < n {
            assert(stamps[i] == earlier[i] && stamps[j] == earlier[j]);
        } else {
            assert(stamps[j] == new[j - n]);
            if i < n {
                assert(stamps[i] == earlier[i]);
                assert(is_due(new[j - n], series, next_idx, ts_now));
                let (s, idx) = choose|s: int, idx: int|
                    0 <= s < series.len() && next_idx[s] <= idx < due_end(
                        series[s].ts_ns,
                        next_idx[s] as int,
                        ts_now,
                    ) && idx < series[s].ts_ns.len() && series[s].instrument_id == stamps[j].0
                        && #[trigger] series[s].ts_ns[idx] == stamps[j].1;
                assert(earlier[i].1 <= series[s].ts_ns[idx]);
            } else {
                assert(stamps[i] == new[i - n]);
            }
        }
    }
    assert forall|k: int, i: int, idx: int|
        0 <= k < stamps.len() && 0 <= i < series.len() && after[i] <= idx < series[i].ts_ns.len()
            && (#[trigger] stamps[k]).0 == series[i].instrument_id implies stamps[k].1 <= (
    #[trigger] series[i].ts_ns[idx]) by {
        let n = earlier.len();
        assert(next_idx[i] <= after[i]);
        if k < n {
            assert(stamps[k] == earlier[k]);
            assert(earlier[k].1 <= series[i].ts_ns[idx]);
        } else {
            assert(stamps[k] == new[k - n]);
            assert(is_due(new[k - n], series, next_idx, ts_now));
            let (s, at) = choose|s: int, at: int|
                0 <= s < series.len() && next_idx[s] <= at < due_end(
                    series[s].ts_ns,
                    next_idx[s] as int,
                    ts_now,
                ) && at < series[s].ts_ns.len() && series[s].instrument_id == stamps[k].0
                    && #[trigger] series[s].ts_ns[at] == stamps[k].1;
            assert(s == i) by {
                if s < i {
                    assert(series[s].instrument_id != series[i].instrument_id);
                } else if i < s {
                    assert(series[i].instrument_id != series[s].instrument_id);
                }
            }
            lemma_due_end(series[i].ts_ns, next_idx[i] as int, ts_now);
            lemma_settlement_fits(series, i);
            assert(model.pending() != 0);
            assert(after[i] == due_end(series[i].ts_ns, next_idx[i] as int, ts_now));
            assert(ascending(series[i].ts_ns));
            assert(series[i].ts_ns[at] <= series[i].ts_ns[idx]);
        }
    }
}

/// Within a process call, the charges of one instrument come in the order of their settlements.
pub proof fn law_process_charges_ascend(model: FundingModel, ts_now: u64, ctx: ContextModel)
    requires
        model.valid(),
    ensures
        never_back(charge_stamps(model.charges(ts_now, ctx))),
{
    let none = Seq::<(InstrumentId, u64)>::empty();
    lemma_call_follows(model, ts_now, ctx, none);
    let stamps = charge_stamps(model.charges(ts_now, ctx));
    assert(none + stamps =~= stamps);
}

/// A charge of a later process call is for a settlement no earlier than those that an earlier
/// call charged to the same instrument.
pub proof fn law_later_calls_charge_later(
    model: FundingModel,
    first: u64,
    ctx: ContextModel,
    second: u64,
    later: ContextModel,
)
    requires
        model.valid(),
    ensures
        never_back(
            charge_stamps(model.charges(first, ctx)) + charge_stamps(
                model.processed(first, ctx).charges(second, later),
            ),
        ),
{
    let none = Seq::<(InstrumentId, u64)>::empty();
    let stamps = charge_stamps(model.charges(first, ctx));
    lemma_call_follows(model, first, ctx, none);
    assert(none + stamps =~= stamps);
    lemma_processed_scheduled(model, first, ctx);
    lemma_call_follows(model.processed(first, ctx), second, later, stamps);
}

/// One step of a run.
pub enum FundingStep {
    /// A process call, with what the host made of the amounts of its charges.
    Call { ts_now: u64, ctx: ContextModel, amounts: Seq<Option<i128>> },
    /// An acknowledgement of the batch.
    Acknowledge { outcomes: Seq<AccountAdjustmentOutcome> },
    /// A reset.
    Reset,
}

impl FundingModel {
    /// Whether a step can be taken in this state.
    pub open spec fn permits(self, step: FundingStep) -> bool {
        match step {
            FundingStep::Call { ts_now, ctx, amounts } => {
                &&& amounts.len() == self.charges(ts_now, ctx).len()
                &&& forall|i: int|
                    0 <= i < amounts.len() && (#[trigger] amounts[i]) is Some ==> amounts[i]->0
                        > i128::MIN
            },
            FundingStep::Acknowledge { outcomes } => self.awaiting is Some
                && self.awaiting->0.len() == outcomes.len(),
            FundingStep::Reset => true,
        }
    }

    /// The state after a step.
    pub open spec fn stepped(self, step: FundingStep) -> FundingModel {
        match step {
            FundingStep::Call { ts_now, ctx, amounts } => self.processed(ts_now, ctx).completed(
                self.charges(ts_now, ctx),
                amounts,
            ),
            FundingStep::Acknowledge { outcomes } => self.acknowledged(outcomes),
            FundingStep::Reset => FundingModel::fresh(self.series),
        }
    }

    /// The state after steps, one after the other.
    pub open spec fn run(self, steps: Seq<FundingStep>) -> FundingModel
        decreases steps.len(),
    {
        if steps.len() == 0 {
            self
        } else {
            self.run(steps.drop_last()).stepped(steps.last())
        }
    }

    /// Whether each of some steps can be taken after those before it.
    pub open spec fn permits_all(self, steps: Seq<FundingStep>) -> bool
        decreases steps.len(),
    {
        steps.len() > 0 ==> {
            &&& self.permits_all(steps.drop_last())
            &&& self.run(steps.drop_last()).permits(steps.last())
        }
    }

    /// The adjustments that were applied in the course of steps, since the last reset.
    pub open spec fn history(self, steps: Seq<FundingStep>) -> Seq<FundingAdjustment>
        decreases steps.len(),
    {
        if steps.len() == 0 {
            Seq::empty()
        } else {
            let before = self.history(steps.drop_last());
            match steps.last() {
                FundingStep::Call { .. } => before,
                FundingStep::Acknowledge { outcomes } => before + applied_adjustments(
                    self.run(steps.drop_last()).awaiting->0,
                    outcomes,
                ),
                FundingStep::Reset => Seq::empty(),
            }
        }
    }
}

/// The adjustments of a batch that were applied.
pub open spec fn applied_adjustments(
    adjustments: Seq<FundingAdjustment>,
    outcomes: Seq<AccountAdjustmentOutcome>,
) -> Seq<FundingAdjustment>
    decreases adjustments.len(),
{
    if adjustments.len() == 0 {
        Seq::empty()
    } else {
        let before = applied_adjustments(adjustments.drop_last(), outcomes.drop_last());
        match outcomes.last() {
            AccountAdjustmentOutcome::Applied => before.push(adjustments.last()),
            AccountAdjustmentOutcome::Failed => before,
        }
    }
}

/// The timestamp and cost of an adjustment.
pub open spec fn settlement_of(adjustment: FundingAdjustment) -> (u64, i128) {
    (adjustment.ts_settle, cost_of(adjustment))
}

proof fn lemma_adjustments_follow_charges(charges: Seq<FundingCharge>, amounts: Seq<Option<i128>>)
    requires
        charges.len() == amounts.len(),
        never_back(charge_stamps(charges)),
    ensures
        never_back(adjustment_stamps(adjustments_of(charges, amounts))),
        forall|k: int|
            0 <= k < adjustments_of(charges, amounts).len() ==> charge_stamps(charges).contains(
                #[trigger] adjustment_stamps(adjustments_of(charges, amounts))[k],
            ),
    decreases charges.len(),
{
    if charges.len() > 0 {
        let stamps = charge_stamps(charges);
        let rest = charge_stamps(charges.drop_last());
        let end = charges.len() - 1;
        assert(rest =~= stamps.drop_last());
        assert(never_back(rest)) by {
            assert forall|i: int, j: int|
                0 <= i <= j < rest.len() && (#[trigger] rest[i]).0 == (#[trigger] rest[j]).0 implies
                rest[i].1 <= rest[j].1 by {
                assert(rest[i] == stamps[i] && rest[j] == stamps[j]);
            }
        }
        lemma_adjustments_follow_charges(charges.drop_last(), amounts.drop_last());
        let before = adjustment_stamps(adjustments_of(charges.drop_last(), amounts.drop_last()));
        let all = adjustment_stamps(adjustments_of(charges, amounts));
        assert(all =~= before || all =~= before.push(stamps[end]));
        assert forall|k: int| #![trigger before[k]] 0 <= k < before.len() implies exists|m: int|
            0 <= m < end && #[trigger] stamps[m] == before[k] by {
            assert(rest.contains(before[k]));
            let m = choose|m: int| 0 <= m < rest.len() && rest[m] == before[k];
            assert(stamps[m] == before[k]);
        }
        assert forall|k: int| 0 <= k < all.len() implies stamps.contains(#[trigger] all[k]) by {
            if k < before.len() {
                assert(all[k] == before[k]);
            } else {
                assert(stamps[end] == all[k]);
            }
        }
        assert forall|i: int, j: int|
            0 <= i <= j < all.len() && (#[trigger] all[i]).0 == (#[trigger] all[j]).0 implies
            all[i].1 <= all[j].1 by {
            if i < before.len() {
                assert(all[i] == before[i]);
                if j < before.len() {
                    assert(all[j] == before[j]);
                } else {
                    let m = choose|m: int| 0 <= m < end && #[trigger] stamps[m] == before[i];
                    assert(stamps[m].1 <= stamps[end].1);
                }
            }
        }
    }
}

proof fn lemma_applied_follow_batch(
    adjustments: Seq<FundingAdjustment>,
    outcomes: Seq<AccountAdjustmentOutcome>,
)
    requires
        adjustments.len() == outcomes.len(),
        never_back(adjustment_stamps(adjustments)),
    ensures
        never_back(adjustment_stamps(applied_adjustments(adjustments, outcomes))),
        forall|k: int|
            0 <= k < applied_adjustments(adjustments, outcomes).len() ==> adjustment_stamps(
                adjustments,
            ).contains(#[trigger] adjustment_stamps(applied_adjustments(adjustments, outcomes))[k]),
        applied_settlements(adjustments, outcomes) == applied_adjustments(
            adjustments,
            outcomes,
        ).map_values(|a: FundingAdjustment| settlement_of(a)),
    decreases adjustments.len(),
{
    if adjustments.len() > 0 {
        let stamps = adjustment_stamps(adjustments);
        let rest = adjustment_stamps(adjustments.drop_last());
        let end = adjustments.len() - 1;
        assert(rest =~= stamps.drop_last());
        assert(never_back(rest)) by {
            assert forall|i: int, j: int|
                0 <= i <= j < rest.len() && (#[trigger] rest[i]).0 == (#[trigger] rest[j]).0 implies
                rest[i].1 <= rest[j].1 by {
                assert(rest[i] == stamps[i] && rest[j] == stamps[j]);
            }
        }
        lemma_applied_follow_batch(adjustments.drop_last(), outcomes.drop_last());
        let before = adjustment_stamps(
            applied_adjustments(adjustments.drop_last(), outcomes.drop_last()),
        );
        let all = adjustment_stamps(applied_adjustments(adjustments, outcomes));
        assert(all =~= before || all =~= before.push(stamps[end]));
        assert forall|k: int| #![trigger before[k]] 0 <= k < before.len() implies exists|m: int|
            0 <= m < end && #[trigger] stamps[m] == before[k] by {
            assert(rest.contains(before[k]));
            let m = choose|m: int| 0 <= m < rest.len() && rest[m] == before[k];
            assert(stamps[m] == before[k]);
        }
        assert forall|k: int| 0 <= k < all.len() implies stamps.contains(#[trigger] all[k]) by {
            if k < before.len() {
                assert(all[k] == before[k]);
            } else {
                assert(stamps[end] == all[k]);
            }
        }
        assert forall|i: int, j: int|
            0 <= i <= j < all.len() && (#[trigger] all[i]).0 == (#[trigger] all[j]).0 implies
            all[i].1 <= all[j].1 by {
            if i < before.len() {
                assert(all[i] == before[i]);
                if j < before.len() {
                    assert(all[j] == before[j]);
                } else {
                    let m = choose|m: int| 0 <= m < end && #[trigger] stamps[m] == before[i];
                    assert(stamps[m].1 <= stamps[end].1);
                }
            }
        }
    }
    assert(applied_settlements(adjustments, outcomes) =~= applied_adjustments(
        adjustments,
        outcomes,
    ).map_values(|a: FundingAdjustment| settlement_of(a)));
}

proof fn lemma_acknowledged_total(
    ledger: LedgerModel,
    adjustments: Seq<FundingAdjustment>,
    outcomes: Seq<AccountAdjustmentOutcome>,
)
    requires
        adjustments.len() == outcomes.len(),
    ensures
        acknowledged_ledger(ledger, adjustments, outcomes).total == ledger.total
            + applied_settlements(adjustments, outcomes).map_values(|s: (u64, i128)| s.1),
    decreases adjustments.len(),
{
    if adjustments.len() > 0 {
        lemma_acknowledged_total(ledger, adjustments.drop_last(), outcomes.drop_last());
    }
    assert(acknowledged_ledger(ledger, adjustments, outcomes).total =~= ledger.total
        + applied_settlements(adjustments, outcomes).map_values(|s: (u64, i128)| s.1));
}

/// The stamps of what awaits acknowledgement.
spec fn awaiting_stamps(model: FundingModel) -> Seq<(InstrumentId, u64)> {
    match model.awaiting {
        Some(adjustments) => adjustment_stamps(adjustments),
        None => Seq::empty(),
    }
}

/// What holds of a state and the adjustments that were applied on the way to it.
spec fn in_order(model: FundingModel, history: Seq<FundingAdjustment>) -> bool {
    let stamps = adjustment_stamps(history) + awaiting_stamps(model);
    &&& scheduled(model.series, model.next_idx)
    &&& model.settlements == history.map_values(|a: FundingAdjustment| settlement_of(a))
    &&& model.ledger.total == model.settlements.map_values(|s: (u64, i128)| s.1)
    &&& passed(stamps, model.series, model.next_idx)
    &&& never_back(stamps)
}

proof fn lemma_prefix_in_order(
    head: Seq<(InstrumentId, u64)>,
    tail: Seq<(InstrumentId, u64)>,
    kept: Seq<(InstrumentId, u64)>,
    series: Seq<SeriesModel>,
    next_idx: Seq<usize>,
)
    requires
        never_back(head + tail),
        passed(head + tail, series, next_idx),
        never_back(kept),
        forall|k: int| 0 <= k < kept.len() ==> tail.contains(#[trigger] kept[k]),
    ensures
        never_back(head + kept),
        passed(head + kept, series, next_idx),
        never_back(tail),
{
    let whole = head + tail;
    let stamps = head + kept;
    let n = head.len() as int;
    assert forall|i: int, j: int|
        0 <= i <= j < tail.len() && (#[trigger] tail[i]).0 == (#[trigger] tail[j]).0 implies
        tail[i].1 <= tail[j].1 by {
        assert(whole[n + i] == tail[i] && whole[n + j] == tail[j]);
    }
    assert forall|k: int| #![trigger stamps[k]] 0 <= k < stamps.len() implies exists|m: int|
        0 <= m < whole.len() && #[trigger] whole[m] == stamps[k] && (k < n ==> m == k) && (k >= n
            ==> m >= n) by {
        if k < n {
            assert(whole[k] == stamps[k]);
        } else {
            assert(tail.contains(kept[k - n]));
            let m = choose|m: int| 0 <= m < tail.len() && tail[m] == kept[k - n];
            assert(whole[n + m] == stamps[k]);
        }
    }
    assert forall|i: int, j: int|
        0 <= i <= j < stamps.len() && (#[trigger] stamps[i]).0 == (#[trigger] stamps[j]).0 implies
        stamps[i].1 <= stamps[j].1 by {
        if i >= n {
            assert(stamps[i] == kept[i - n] && stamps[j] == kept[j - n]);
        } else {
            let m = choose|m: int|
                0 <= m < whole.len() && #[trigger] whole[m] == stamps[j] && (j < n ==> m == j) && (j
                    >= n ==> m >= n);
            assert(whole[i] == stamps[i]);
            assert(whole[i].1 <= whole[m].1);
        }
    }
    assert forall|k: int, i: int, idx: int|
        0 <= k < stamps.len() && 0 <= i < series.len() && next_idx[i] <= idx
            < series[i].ts_ns.len() && (#[trigger] stamps[k]).0 == series[i].instrument_id implies
        stamps[k].1 <= (#[trigger] series[i].ts_ns[idx]) by {
        let m = choose|m: int|
            0 <= m < whole.len() && #[trigger] whole[m] == stamps[k] && (k < n ==> m == k) && (k
                >= n ==> m >= n);
        assert(whole[m].1 <= series[i].ts_ns[idx]);
    }
}

proof fn lemma_step_in_order(
    model: FundingModel,
    history: Seq<FundingAdjustment>,
    step: FundingStep,
)
    requires
        in_order(model, history),
        model.permits(step),
    ensures
        match step {
            FundingStep::Call { .. } => in_order(model.stepped(step), history),
            FundingStep::Acknowledge { outcomes } => in_order(
                model.stepped(step),
                history + applied_adjustments(model.awaiting->0, outcomes),
            ),
            FundingStep::Reset => in_order(model.stepped(step), Seq::empty()),
        },
        model.stepped(step).series == model.series,
{
    let none = Seq::<(InstrumentId, u64)>::empty();
    let head = adjustment_stamps(history);
    let after = model.stepped(step);
    match step {
        FundingStep::Call { ts_now, ctx, amounts } => {
            let charges = model.charges(ts_now, ctx);
            let next_idx = model.processed(ts_now, ctx).next_idx;
            lemma_prefix_in_order(
                head,
                awaiting_stamps(model),
                none,
                model.series,
                model.next_idx,
            );
            assert(head + none =~= head);
            lemma_call_follows(model, ts_now, ctx, head);
            lemma_processed_scheduled(model, ts_now, ctx);
            lemma_prefix_in_order(head, charge_stamps(charges), none, model.series, next_idx);
            lemma_adjustments_follow_charges(charges, amounts);
            lemma_prefix_in_order(
                head,
                charge_stamps(charges),
                adjustment_stamps(adjustments_of(charges, amounts)),
                model.series,
                next_idx,
            );
        },
        FundingStep::Acknowledge { outcomes } => {
            let batch = model.awaiting->0;
            let applied = applied_adjustments(batch, outcomes);
            lemma_prefix_in_order(
                head,
                adjustment_stamps(batch),
                none,
                model.series,
                model.next_idx,
            );
            lemma_applied_follow_batch(batch, outcomes);
            lemma_acknowledged_total(model.ledger, batch, outcomes);
            lemma_prefix_in_order(
                head,
                adjustment_stamps(batch),
                adjustment_stamps(applied),
                model.series,
                model.next_idx,
            );
            assert(adjustment_stamps(history + applied) + none =~= head + adjustment_stamps(
                applied,
            ));
            assert(after.settlements =~= (history + applied).map_values(
                |a: FundingAdjustment| settlement_of(a),
            ));
            assert(after.ledger.total =~= after.settlements.map_values(|s: (u64, i128)| s.1));
        },
        FundingStep::Reset => {
            lemma_fresh_in_order(model.series);
        },
    }
}

proof fn lemma_fresh_in_order(series: Seq<SeriesModel>)
    requires
        valid_series(series),
    ensures
        in_order(FundingModel::fresh(series), Seq::empty()),
{
    let fresh = FundingModel::fresh(series);
    let none = Seq::<FundingAdjustment>::empty();
    assert(fresh.settlements =~= none.map_values(|a: FundingAdjustment| settlement_of(a)));
    assert(fresh.ledger.total =~= fresh.settlements.map_values(|s: (u64, i128)| s.1));
}

proof fn lemma_run_in_order(series: Seq<SeriesModel>, steps: Seq<FundingStep>)
    requires
        valid_series(series),
        FundingModel::fresh(series).permits_all(steps),
    ensures
        in_order(
            FundingModel::fresh(series).run(steps),
            FundingModel::fresh(series).history(steps),
        ),
    decreases steps.len(),
{
    let fresh = FundingModel::fresh(series);
    if steps.len() == 0 {
        lemma_fresh_in_order(series);
    } else {
        lemma_run_in_order(series, steps.drop_last());
        lemma_step_in_order(
            fresh.run(steps.drop_last()),
            fresh.history(steps.drop_last()),
            steps.last(),
        );
    }
}

/// In every state that a module reaches, the settlements are those that were applied since the
/// last reset, in charge order; their costs are the terms of the total; and for each instrument
/// their timestamps never decrease.
pub proof fn law_settlements_never_go_back(series: Seq<SeriesModel>, steps: Seq<FundingStep>)
    requires
        valid_series(series),
        FundingModel::fresh(series).permits_all(steps),
    ensures
        ({
            let reached = FundingModel::fresh(series).run(steps);
            let history = FundingModel::fresh(series).history(steps);
            &&& reached.settlements == history.map_values(|a: FundingAdjustment| settlement_of(a))
            &&& reached.ledger.total == reached.settlements.map_values(|s: (u64, i128)| s.1)
            &&& never_back(adjustment_stamps(history))
        }),
{
    let reached = FundingModel::fresh(series).run(steps);
    let history = FundingModel::fresh(series).history(steps);
    let head = adjustment_stamps(history);
    let none = Seq::<(InstrumentId, u64)>::empty();
    lemma_run_in_order(series, steps);
    lemma_prefix_in_order(head, awaiting_stamps(reached), none, reached.series, reached.next_idx);
    assert(head + none =~= head);
}

/// A settlement that fell in a gap is charged against the exposure and mark captured before the
/// gap, whatever the exposure is now.
pub proof fn law_gap_charged_against_prior_snapshot(
    series: SeriesModel,
    idx: int,
    inputs: ProcessInputs,
    other: SnapshotModel,
)
    requires
        inputs.prev is Some,
        series.ts_ns[idx] < inputs.ts_now,
    ensures
        drained_charges(series, idx, inputs) == drained_charges(
            series,
            idx,
            ProcessInputs { current: other, ..inputs },
        ),
        drained_charges(series, idx, inputs) == settlement_charges(
            series.instrument_id,
            series.rates[idx],
            series.ts_ns[idx],
            inputs.prev->0,
            true,
            inputs.ctx,
        ),
{
}

/// A settlement charges each open position of its instrument once, in cache order.
pub proof fn law_settlement_charges_each_exposure(
    id: InstrumentId,
    rate: Real,
    ts_settle: u64,
    snapshot: SnapshotModel,
    use_snapshot_mark: bool,
    ctx: ContextModel,
)
    requires
        !rate.zero(),
        ctx.instruments.contains_key(id),
        snapshot.exposures.contains_key(id),
        resolved_mark(id, ctx.instruments[id], snapshot, use_snapshot_mark) is Some,
    ensures
        ({
            let charges = settlement_charges(id, rate, ts_settle, snapshot, use_snapshot_mark, ctx);
            &&& charges.len() == snapshot.exposures[id].len()
            &&& forall|i: int|
                0 <= i < charges.len() ==> (#[trigger] charges[i]) == exposure_charge(
                    id,
                    rate,
                    ts_settle,
                    snapshot.exposures[id][i],
                    resolved_mark(id, ctx.instruments[id], snapshot, use_snapshot_mark)->0,
                    ctx.instruments[id],
                    ctx.base_currency,
                )
        }),
{
}

/// The exact sum of the costs of a batch.
pub open spec fn batch_cost(adjustments: Seq<FundingAdjustment>) -> int
    decreases adjustments.len(),
{
    if adjustments.len() == 0 {
        0
    } else {
        batch_cost(adjustments.drop_last()) + cost_of(adjustments.last())
    }
}

/// An acknowledgement records the cost of every adjustment of the batch once, as applied or as
/// unapplied.
pub proof fn law_acknowledge_counts_batch(
    ledger: LedgerModel,
    adjustments: Seq<FundingAdjustment>,
    outcomes: Seq<AccountAdjustmentOutcome>,
)
    requires
        adjustments.len() == outcomes.len(),
    ensures
        ({
            let after = acknowledged_ledger(ledger, adjustments, outcomes);
            term_sum(after.total) + term_sum(after.unapplied) == term_sum(ledger.total) + term_sum(
                ledger.unapplied,
            ) + batch_cost(adjustments)
        }),
    decreases adjustments.len(),
{
    if adjustments.len() > 0 {
        law_acknowledge_counts_batch(ledger, adjustments.drop_last(), outcomes.drop_last());
        law_acknowledged_counts_cost(
            acknowledged_ledger(ledger, adjustments.drop_last(), outcomes.drop_last()),
            adjustments.last().instrument_id,
            cost_of(adjustments.last()),
            outcomes.last(),
        );
    }
}

/// The applied cost is the sum over the instruments, and over the settlements.
pub proof fn law_costs_balance(module: FundingRateModule)
    requires
        module.wf(),
    ensures
        term_sum(module@.ledger.total) == entries_sum(module@.ledger.instruments),
        module@.ledger.total == module@.settlements.map_values(|s: (u64, i128)| s.1),
        module@.valid(),
{
}

}
