//! CFD overnight swap simulation module.

use core::str::FromStr;

use ahash::AHashMap;
use indexmap::IndexMap;
use vstd::prelude::*;

use crate::calendar::{
    eastern_date, eastern_day_contains, iso_weekday, lemma_calendar_ends, lemma_next_day, tomorrow,
    weekday_of, zone_day, CivilDate, EASTERN,
};
use crate::carry::{
    answers, based, exposure_notional_abs, group_exposures, grouped, groups_get, groups_keys,
    index_get, index_insert, index_with_capacity, indexed, kept_in, mark_price, marked,
    marks_insert, marks_new, notional_of, resolve_mark, resolved_mark, snapshot_exposures,
    snapshot_of, to_base, ContextModel, ExchangeContext, Exposure, Instrument, InstrumentId,
    ProcessInputs, Snapshot, SnapshotModel,
};
use crate::ledger::{
    entries_sum, law_acknowledged_balanced, law_acknowledged_counts_cost, recorded_costs, term_sum,
    AccountAdjustmentOutcome, Ledger, LedgerModel, Money,
};
use crate::number::{Currency, Formula, Real};
use crate::rollover::{
    charged_from, charged_rolls, first_roll_from, is_weekend, law_charged_rolls_split,
    lemma_first_roll_passes, lemma_rolls_before_are_earlier, listed_rolls, opening_day,
    regular_roll, regular_window, roll_ns, roll_time_ns, window_first, window_stop, LAST_ROLL_DAY,
    LAST_ROLL_NS, SATURDAY, SUNDAY,
};

pub use crate::rollover::{cfd_roll_instants_ns, FRIDAY};

verus! {

/// How a symbol's overnight swap is quoted.
#[derive(Debug, Clone, Copy, PartialEq, Eq, Structural)]
pub enum SwapMode {
    /// No swap is charged.
    Disabled,
    /// A fixed quote-currency amount per lot per night (index CFDs).
    CcyMargin,
    /// An annual percentage of the position notional, accrued on a 360-day basis (US-stock
    /// CFDs).
    Interest,
}

/// A text that names no swap mode.
#[derive(Debug, Clone, Copy, PartialEq, Eq, Structural)]
pub struct InvalidSwapMode;

/// Calls `str::eq`, which tells whether two texts are made of the same characters.
#[verifier::external_body]
fn same_text(left: &str, right: &str) -> (same: bool)
    ensures
        same == (left@ == right@),
{
    left == right
}

/// The mode that a text names.
pub open spec fn mode_named(text: Seq<char>) -> Option<SwapMode> {
    if text == "disabled"@ {
        Some(SwapMode::Disabled)
    } else if text == "ccy_margin"@ {
        Some(SwapMode::CcyMargin)
    } else if text == "interest"@ {
        Some(SwapMode::Interest)
    } else {
        None
    }
}

impl SwapMode {
    /// The wire string of this mode.
    pub open spec fn text(self) -> Seq<char> {
        match self {
            SwapMode::Disabled => "disabled"@,
            SwapMode::CcyMargin => "ccy_margin"@,
            SwapMode::Interest => "interest"@,
        }
    }

    /// Returns the wire string for this mode.
    pub fn as_str(self) -> (text: &'static str)
        ensures
            text@ == self.text(),
    {
        match self {
            SwapMode::Disabled => "disabled",
            SwapMode::CcyMargin => "ccy_margin",
            SwapMode::Interest => "interest",
        }
    }
}

impl FromStr for SwapMode {
    type Err = InvalidSwapMode;

    /// Returns the mode that a wire string names.
    fn from_str(value: &str) -> (mode: Result<Self, Self::Err>)
        ensures
            mode is Ok <==> mode_named(value@) is Some,
            mode is Ok ==> mode_named(value@) == Some(mode->Ok_0),
    {
        if same_text(value, "disabled") {
            Ok(SwapMode::Disabled)
        } else if same_text(value, "ccy_margin") {
            Ok(SwapMode::CcyMargin)
        } else if same_text(value, "interest") {
            Ok(SwapMode::Interest)
        } else {
            Err(InvalidSwapMode)
        }
    }
}

proof fn lemma_texts_differ()
    ensures
        "disabled"@ != "ccy_margin"@,
        "disabled"@ != "interest"@,
        "ccy_margin"@ != "interest"@,
{
    reveal_strlit("disabled");
    reveal_strlit("ccy_margin");
    reveal_strlit("interest");
    assert("disabled"@[0] == 'd');
    assert("ccy_margin"@[0] == 'c');
    assert("interest"@[0] == 'i');
}

/// The wire string of a mode names that mode.
pub proof fn law_mode_text_round_trip(mode: SwapMode)
    ensures
        mode_named(mode.text()) == Some(mode),
{
    lemma_texts_differ();
}

/// The cash flow of one rollover night.
pub open spec fn swap_flow(
    swap_mode: Seq<char>,
    swap_long: Real,
    swap_short: Real,
    is_long: bool,
    iso_weekday: u8,
    notional_abs: Formula,
    lots: Formula,
    swap_3day_dow: u8,
) -> Formula {
    if is_weekend(iso_weekday as int) {
        Formula::Integer(0)
    } else {
        let rate = Formula::Number(if is_long { swap_long } else { swap_short });
        let nights = Formula::Integer(if iso_weekday == swap_3day_dow { 3 } else { 1 });
        match mode_named(swap_mode) {
            Some(SwapMode::CcyMargin) => {
                let per_night = Formula::Product(Box::new(lots), Box::new(rate));
                Formula::Product(Box::new(per_night), Box::new(nights))
            },
            Some(SwapMode::Interest) => {
                let fraction = Formula::Quotient(
                    Box::new(rate),
                    Box::new(Formula::Integer(100)),
                );
                let per_year = Formula::Product(Box::new(fraction), Box::new(notional_abs));
                let per_night = Formula::Quotient(
                    Box::new(per_year),
                    Box::new(Formula::Integer(360)),
                );
                Formula::Product(Box::new(per_night), Box::new(nights))
            },
            _ => Formula::Integer(0),
        }
    }
}

/// Returns the signed cash flow for one rollover night in the quote currency.
///
/// `iso_weekday` is the ISO weekday of the rollover instant; weekend nights do not roll and
/// `swap_3day_dow` is charged triple. The swap points carry their own sign, and an unrecognised
/// mode charges nothing.
pub fn swap_cash_flow(
    swap_mode: &str,
    swap_long: Real,
    swap_short: Real,
    is_long: bool,
    iso_weekday: u8,
    notional_abs: Formula,
    lots: Formula,
    swap_3day_dow: u8,
) -> (cash_flow: Formula)
    ensures
        cash_flow == swap_flow(
            swap_mode@,
            swap_long,
            swap_short,
            is_long,
            iso_weekday,
            notional_abs,
            lots,
            swap_3day_dow,
        ),
{
    proof {
        lemma_texts_differ();
    }
    if same_text(swap_mode, "disabled") {
        return Formula::Integer(0);
    }
    if iso_weekday == SATURDAY || iso_weekday == SUNDAY {
        return Formula::Integer(0);
    }
    let mult = Formula::Integer(
        if iso_weekday == swap_3day_dow {
            3
        } else {
            1
        },
    );
    let rate = Formula::Number(
        if is_long {
            swap_long
        } else {
            swap_short
        },
    );
    let per_night = if same_text(swap_mode, "ccy_margin") {
        Formula::Product(Box::new(lots), Box::new(rate))
    } else if same_text(swap_mode, "interest") {
        let fraction = Formula::Quotient(Box::new(rate), Box::new(Formula::Integer(100)));
        let per_year = Formula::Product(Box::new(fraction), Box::new(notional_abs));
        Formula::Quotient(Box::new(per_year), Box::new(Formula::Integer(360)))
    } else {
        return Formula::Integer(0);
    };
    Formula::Product(Box::new(per_night), Box::new(mult))
}

/// A night that rolls is charged three times on the triple night and once on the others: by the
/// lot for `ccy_margin`, and a 360th of a percentage of the notional for `interest`.
pub proof fn law_swap_cash_flow_value(
    swap_mode: SwapMode,
    swap_long: Real,
    swap_short: Real,
    is_long: bool,
    iso_weekday: u8,
    notional_abs: Formula,
    lots: Formula,
    swap_3day_dow: u8,
    round: spec_fn(real, Currency) -> real,
)
    ensures
        ({
            let value = swap_flow(
                swap_mode.text(),
                swap_long,
                swap_short,
                is_long,
                iso_weekday,
                notional_abs,
                lots,
                swap_3day_dow,
            ).value(round);
            let rate = if is_long { swap_long.value() } else { swap_short.value() };
            let nights = if is_weekend(iso_weekday as int) {
                0real
            } else if iso_weekday == swap_3day_dow {
                3real
            } else {
                1real
            };
            &&& swap_mode is Disabled ==> value == 0real
            &&& swap_mode is CcyMargin ==> value == lots.value(round) * rate * nights
            &&& swap_mode is Interest ==> value == rate / 100real * notional_abs.value(round)
                / 360real * nights
        }),
{
    law_mode_text_round_trip(swap_mode);
    reveal_with_fuel(Formula::value, 6);
    let rate = if is_long { swap_long.value() } else { swap_short.value() };
    let l = lots.value(round) * rate;
    let i = rate / 100real * notional_abs.value(round) / 360real;
    assert(l * 0real == 0real) by (nonlinear_arith);
    assert(i * 0real == 0real) by (nonlinear_arith);
}

/// An unrecognised mode charges nothing.
pub proof fn law_unrecognised_mode_charges_nothing(
    swap_mode: Seq<char>,
    swap_long: Real,
    swap_short: Real,
    is_long: bool,
    iso_weekday: u8,
    notional_abs: Formula,
    lots: Formula,
    swap_3day_dow: u8,
)
    requires
        mode_named(swap_mode) is None,
    ensures
        swap_flow(
            swap_mode,
            swap_long,
            swap_short,
            is_long,
            iso_weekday,
            notional_abs,
            lots,
            swap_3day_dow,
        ) == Formula::Integer(0),
{
}

/// One instrument's swap terms, as the host read them.
#[derive(Debug)]
pub struct SwapTerms {
    /// The instrument, where its name could be parsed.
    pub instrument_id: Option<InstrumentId>,
    /// The wire string of the swap mode.
    pub swap_mode: String,
    /// The swap points of a long position.
    pub swap_long: Real,
    /// The swap points of a short position.
    pub swap_short: Real,
    /// The size of one lot.
    pub contract_size: Real,
    /// The ISO weekday of the triple-charge night.
    pub swap_3day_dow: u8,
}

/// One instrument's swap terms.
#[derive(Debug, Clone, Copy, PartialEq, Eq, Structural)]
pub struct SwapSpec {
    pub instrument_id: InstrumentId,
    pub mode: SwapMode,
    pub swap_long: Real,
    pub swap_short: Real,
    pub contract_size: Real,
    pub swap_3day_dow: u8,
}

/// What is wrong with swap terms.
#[derive(Debug, Clone, Copy, PartialEq, Eq, Structural)]
pub enum SwapFault {
    /// The instrument name cannot be parsed.
    InvalidInstrumentId,
    /// The swap mode is not recognised.
    InvalidMode,
    /// A swap point is infinite or not a number.
    PointsNotFinite,
    /// The contract size is infinite, not a number or negative.
    InvalidContractSize,
    /// The weekday of the triple-charge night is no ISO weekday.
    InvalidWeekday,
    /// Earlier terms have the same instrument.
    Duplicate,
}

/// Swap terms that cannot be used, by their position in the list.
#[derive(Debug, Clone, Copy, PartialEq, Eq, Structural)]
pub struct SwapError {
    pub entry: usize,
    pub fault: SwapFault,
}

/// Whether a number is finite and not below zero.
pub open spec fn finite_non_negative(number: Real) -> bool {
    number.finite() && (number.zero() || !number.negative())
}

/// The first thing wrong with swap terms in a list.
pub open spec fn terms_fault(terms: Seq<SwapTerms>, i: int) -> Option<SwapFault> {
    let entry = terms[i];
    if entry.instrument_id is None {
        Some(SwapFault::InvalidInstrumentId)
    } else if mode_named(entry.swap_mode@) is None {
        Some(SwapFault::InvalidMode)
    } else if !(entry.swap_long.finite() && entry.swap_short.finite()) {
        Some(SwapFault::PointsNotFinite)
    } else if !finite_non_negative(entry.contract_size) {
        Some(SwapFault::InvalidContractSize)
    } else if !(1 <= entry.swap_3day_dow <= 7) {
        Some(SwapFault::InvalidWeekday)
    } else if exists|j: int|
        0 <= j < i && (#[trigger] terms[j]).instrument_id == entry.instrument_id {
        Some(SwapFault::Duplicate)
    } else {
        None
    }
}

/// The specification that usable swap terms make.
pub open spec fn spec_of(entry: SwapTerms) -> SwapSpec {
    SwapSpec {
        instrument_id: entry.instrument_id->0,
        mode: mode_named(entry.swap_mode@)->0,
        swap_long: entry.swap_long,
        swap_short: entry.swap_short,
        contract_size: entry.contract_size,
        swap_3day_dow: entry.swap_3day_dow,
    }
}

/// The specifications that usable swap terms make.
pub open spec fn spec_list(terms: Seq<SwapTerms>) -> Seq<SwapSpec> {
    terms.map_values(|entry: SwapTerms| spec_of(entry))
}

/// One computed swap charge, for the host to evaluate.
#[derive(Debug)]
pub struct SwapCharge {
    pub instrument_id: InstrumentId,
    /// The signed cash flow.
    pub amount: Formula,
    /// The currency of the cash flow.
    pub currency: Currency,
}

/// One computed swap charge awaiting acknowledgement.
#[derive(Debug, Clone, Copy, PartialEq, Eq, Structural)]
pub struct SwapAdjustment {
    pub instrument_id: InstrumentId,
    pub amount: Money,
}

/// The state of a swap module.
#[verifier::ext_equal]
pub struct SwapModel {
    /// The swap terms.
    pub specs: Seq<SwapSpec>,
    /// The day of the next rollover, once a process call has fixed it.
    pub next_roll: Option<int>,
    /// The inputs of the last process call.
    pub prev_snapshot: Option<SnapshotModel>,
    /// The completed batch that awaits acknowledgement.
    pub awaiting: Option<Seq<SwapAdjustment>>,
    /// The recorded costs.
    pub ledger: LedgerModel,
}

/// Whether specifications can make up a module.
pub open spec fn valid_specs(specs: Seq<SwapSpec>) -> bool {
    &&& forall|i: int| 0 <= i < specs.len() ==> {
        &&& (#[trigger] specs[i]).swap_long.finite()
        &&& specs[i].swap_short.finite()
        &&& finite_non_negative(specs[i].contract_size)
        &&& 1 <= specs[i].swap_3day_dow <= 7
    }
    &&& forall|i: int, j: int|
        0 <= i < j < specs.len() ==> (#[trigger] specs[i]).instrument_id != (
        #[trigger] specs[j]).instrument_id
}

impl SwapModel {
    /// The state before the first process call.
    pub open spec fn fresh(specs: Seq<SwapSpec>) -> SwapModel {
        SwapModel {
            specs,
            next_roll: None,
            prev_snapshot: None,
            awaiting: None,
            ledger: LedgerModel::empty(),
        }
    }

    /// The instruments that have swap terms.
    pub open spec fn configured(self) -> Set<InstrumentId> {
        Set::new(|id: InstrumentId| exists|i: int|
            0 <= i < self.specs.len() && (#[trigger] self.specs[i]).instrument_id == id)
    }

    /// The instruments whose swap is interest on their notional.
    pub open spec fn priced(self) -> Set<InstrumentId> {
        Set::new(|id: InstrumentId| exists|i: int|
            0 <= i < self.specs.len() && (#[trigger] self.specs[i]).instrument_id == id
                && self.specs[i].mode is Interest)
    }

    /// What holds of every state of a module.
    pub open spec fn valid(self) -> bool {
        &&& valid_specs(self.specs)
        &&& self.next_roll is Some ==> {
            &&& 0 <= self.next_roll->0 <= LAST_ROLL_DAY
            &&& roll_ns(self.next_roll->0) is Some
            &&& regular_roll(self.next_roll->0)
        }
        &&& self.ledger.balanced()
        &&& self.awaiting is Some ==> forall|i: int|
            0 <= i < self.awaiting->0.len() ==> (#[trigger] self.awaiting->0[i]).amount.raw != 0
                && self.awaiting->0[i].amount.raw > i128::MIN
    }
}

/// Whether a map leads from each instrument to its specification.
spec fn index_matches(index: Map<InstrumentId, usize>, specs: Seq<SwapSpec>) -> bool {
    &&& forall|i: int|
        0 <= i < specs.len() ==> index.contains_key((#[trigger] specs[i]).instrument_id)
    &&& forall|id: InstrumentId| #[trigger]
        index.contains_key(id) ==> index[id] < specs.len()
            && specs[index[id] as int].instrument_id == id
}

/// Applies CFD overnight swap at the broker rollover, 17:00 `America/New_York`.
///
/// Every rollover at or before the current timestamp that has not yet been applied is charged,
/// so a rollover landing in a data gap is not dropped. A run that starts after the day's
/// rollover is not retro-charged. A rollover that fell inside a gap is charged against the
/// exposure and mark captured before the gap, since no fill can occur while the market is gapped.
#[derive(Debug)]
pub struct CfdSwapModule {
    specs: Vec<SwapSpec>,
    index_of: AHashMap<InstrumentId, usize>,
    next_roll_date: Option<CivilDate>,
    next_roll_ns: u64,
    prev_snapshot: Option<Snapshot>,
    pending_adjustments: Option<Vec<SwapAdjustment>>,
    ledger: Ledger,
}

impl View for CfdSwapModule {
    type V = SwapModel;

    closed spec fn view(&self) -> SwapModel {
        SwapModel {
            specs: self.specs@,
            next_roll: match self.next_roll_date {
                Some(date) => Some(date@),
                None => None,
            },
            prev_snapshot: match self.prev_snapshot {
                Some(snapshot) => Some(snapshot@),
                None => None,
            },
            awaiting: match self.pending_adjustments {
                Some(adjustments) => Some(adjustments@),
                None => None,
            },
            ledger: self.ledger@,
        }
    }
}

impl CfdSwapModule {
    /// Whether this module is in a state that its methods can reach.
    pub closed spec fn wf(self) -> bool {
        &&& self@.valid()
        &&& self.next_roll_date is Some ==> {
            &&& self.next_roll_date->0.valid()
            &&& roll_ns(self.next_roll_date->0@) == Some(self.next_roll_ns as int)
        }
        &&& index_matches(indexed(self.index_of), self@.specs)
    }

    /// Creates a new swap module from per-instrument swap terms.
    ///
    /// # Errors
    ///
    /// Returns an error if an instrument ID could not be parsed, a swap mode is not recognised, a
    /// swap point is not finite, the contract size is not finite or negative, the 3-day weekday
    /// is outside 1..=7, or an instrument occurs twice.
    pub fn new(terms: Vec<SwapTerms>) -> (module: Result<CfdSwapModule, SwapError>)
        ensures
            module is Ok <==> forall|i: int|
                0 <= i < terms.len() ==> #[trigger] terms_fault(terms@, i) is None,
            module matches Ok(m) ==> m.wf() && m@ == SwapModel::fresh(spec_list(terms@)),
            module matches Err(e) ==> {
                &&& e.entry < terms.len()
                &&& terms_fault(terms@, e.entry as int) == Some(e.fault)
                &&& forall|i: int|
                    0 <= i < e.entry ==> #[trigger] terms_fault(terms@, i) is None
            },
    {
        let mut specs: Vec<SwapSpec> = Vec::with_capacity(terms.len());
        let mut index_of = index_with_capacity(terms.len());
        for i in 0..terms.len()
            invariant
                specs.len() == i,
                forall|j: int| 0 <= j < i ==> (#[trigger] specs[j]) == spec_of(terms[j]),
                forall|j: int| 0 <= j < i ==> #[trigger] terms_fault(terms@, j) is None,
                index_matches(indexed(index_of), specs@),
        {
            let entry = &terms[i];
            let instrument_id = match entry.instrument_id {
                Some(instrument_id) => instrument_id,
                None => {
                    return Err(SwapError { entry: i, fault: SwapFault::InvalidInstrumentId });
                },
            };
            let mode = match SwapMode::from_str(entry.swap_mode.as_str()) {
                Ok(mode) => mode,
                Err(_) => {
                    return Err(SwapError { entry: i, fault: SwapFault::InvalidMode });
                },
            };
            if !entry.swap_long.is_finite() || !entry.swap_short.is_finite() {
                return Err(SwapError { entry: i, fault: SwapFault::PointsNotFinite });
            }
            let size = entry.contract_size;
            if !size.is_finite() || (size.is_sign_negative() && !size.is_zero()) {
                return Err(SwapError { entry: i, fault: SwapFault::InvalidContractSize });
            }
            if entry.swap_3day_dow < 1 || entry.swap_3day_dow > 7 {
                return Err(SwapError { entry: i, fault: SwapFault::InvalidWeekday });
            }
            let ghost seen = indexed(index_of);
            let ghost listed = specs@;
            proof {
                assert forall|j: int| 0 <= j < i implies (#[trigger] terms[j]).instrument_id
                    == Some(specs[j].instrument_id) by {
                    assert(terms_fault(terms@, j) is None);
                }
                if seen.contains_key(instrument_id) {
                    let j = seen[instrument_id] as int;
                    assert(specs[j].instrument_id == instrument_id);
                    assert(terms@[j].instrument_id == terms@[i as int].instrument_id);
                } else {
                    assert forall|j: int| 0 <= j < i implies (#[trigger] terms@[j]).instrument_id
                        != terms@[i as int].instrument_id by {
                        assert(seen.contains_key(specs[j].instrument_id));
                        assert(terms[j].instrument_id == Some(specs[j].instrument_id));
                    }
                }
            }
            if index_insert(&mut index_of, instrument_id, i).is_some() {
                return Err(SwapError { entry: i, fault: SwapFault::Duplicate });
            }
            specs.push(
                SwapSpec {
                    instrument_id,
                    mode,
                    swap_long: entry.swap_long,
                    swap_short: entry.swap_short,
                    contract_size: entry.contract_size,
                    swap_3day_dow: entry.swap_3day_dow,
                },
            );
            proof {
                assert forall|id: InstrumentId| #[trigger]
                    indexed(index_of).contains_key(id) implies indexed(index_of)[id] < specs.len()
                    && specs[indexed(index_of)[id] as int].instrument_id == id by {
                    if id != instrument_id {
                        assert(listed[seen[id] as int] == specs[seen[id] as int]);
                    }
                }
                assert forall|j: int| 0 <= j < specs.len() implies indexed(index_of).contains_key(
                    (#[trigger] specs[j]).instrument_id,
                ) by {
                    if j < i {
                        assert(specs[j] == listed[j]);
                    }
                }
            }
        }
        let module = CfdSwapModule {
            specs,
            index_of,
            next_roll_date: None,
            next_roll_ns: 0,
            prev_snapshot: None,
            pending_adjustments: None,
            ledger: Ledger::new(),
        };
        proof {
            let model = SwapModel::fresh(spec_list(terms@));
            assert(module@ =~= model);
            assert forall|i: int| 0 <= i < model.specs.len() implies {
                &&& (#[trigger] model.specs[i]).swap_long.finite()
                &&& model.specs[i].swap_short.finite()
                &&& finite_non_negative(model.specs[i].contract_size)
                &&& 1 <= model.specs[i].swap_3day_dow <= 7
            } by {
                assert(terms_fault(terms@, i) is None);
            }
            assert forall|i: int, j: int| 0 <= i < j < model.specs.len() implies (
            #[trigger] model.specs[i]).instrument_id != (
            #[trigger] model.specs[j]).instrument_id by {
                assert(terms_fault(terms@, i) is None);
                assert(terms_fault(terms@, j) is None);
                assert(terms@[i].instrument_id != terms@[j].instrument_id);
            }
        }
        Ok(module)
    }
}

impl SwapModel {
    /// The snapshot of every open position on a configured instrument, with the marks of the
    /// `interest` instruments.
    pub open spec fn snapshot(self, ctx: ContextModel) -> SnapshotModel {
        snapshot_of(ctx, self.configured(), self.priced())
    }
}

impl CfdSwapModule {
    /// Returns whether an instrument has swap terms.
    fn is_configured(&self, id: &InstrumentId) -> (configured: bool)
        requires
            self.wf(),
        ensures
            configured == self@.configured().contains(*id),
    {
        index_get(&self.index_of, *id).is_some()
    }

    /// Returns whether the swap of an instrument is interest on its notional.
    fn is_priced(&self, id: InstrumentId) -> (priced: bool)
        requires
            self.wf(),
        ensures
            priced == self@.priced().contains(id),
    {
        match index_get(&self.index_of, id) {
            Some(i) => {
                let priced = self.specs[i].mode == SwapMode::Interest;
                proof {
                    if self@.priced().contains(id) {
                        let j = choose|j: int|
                            0 <= j < self@.specs.len() && (
                            #[trigger] self@.specs[j]).instrument_id == id
                                && self@.specs[j].mode is Interest;
                        assert(self@.specs[j].instrument_id == self@.specs[i as int].instrument_id);
                        assert(i as int == j) by {
                            if (i as int) < j {
                                assert(self@.specs[i as int].instrument_id
                                    != self@.specs[j].instrument_id);
                            } else if j < i as int {
                                assert(self@.specs[j].instrument_id
                                    != self@.specs[i as int].instrument_id);
                            }
                        }
                    }
                    assert(self@.specs[i as int].instrument_id == id);
                }
                priced
            },
            None => {
                proof {
                    assert(!self@.configured().contains(id));
                }
                false
            },
        }
    }

    /// Snapshots every open position, and its mark, on a configured instrument.
    ///
    /// Only `interest` instruments read a mark.
    pub fn exposure_snapshot(&self, ctx: &ExchangeContext) -> (snapshot: Snapshot)
        requires
            self.wf(),
        ensures
            snapshot@ == self@.snapshot(ctx@),
    {
        let keep = |id: &InstrumentId| -> (keep: bool)
            ensures
                keep == self@.configured().contains(*id),
        { self.is_configured(id) };
        let exposures = snapshot_exposures(ctx, keep);
        let ghost expected = self@.snapshot(ctx@);
        proof {
            let kept = choose|kept: Seq<bool>| #[trigger]
                answers(keep, ctx@.positions, kept) && grouped(exposures) == group_exposures(
                    ctx@.positions,
                    kept,
                );
            assert(kept =~= kept_in(ctx@.positions, self@.configured()));
        }
        let ids = groups_keys(&exposures);
        if ids.len() == 0 {
            assert(grouped(exposures).dom() =~= Set::empty());
            assert(expected =~= (SnapshotModel { exposures: Map::empty(), marks: Map::empty() }));
            return Snapshot::default();
        }
        let mut marks = marks_new();
        for i in 0..ids.len()
            invariant
                self.wf(),
                grouped(exposures) == expected.exposures,
                expected == self@.snapshot(ctx@),
                ids@.to_set() == grouped(exposures).dom(),
                marked(marks).submap_of(expected.marks),
                forall|j: int|
                    0 <= j < i && expected.marks.contains_key(ids[j]) ==> marked(
                        marks,
                    ).contains_key(#[trigger] ids[j]),
        {
            let id = ids[i];
            assert(ids@.to_set().contains(id));
            if self.is_priced(id) {
                if let Some(instrument) = ctx.instrument(id) {
                    if let Some(mark) = mark_price(&instrument) {
                        marks_insert(&mut marks, id, mark);
                    }
                }
            }
        }
        assert(marked(marks) =~= expected.marks) by {
            assert forall|id: InstrumentId| #[trigger]
                expected.marks.contains_key(id) implies marked(marks).contains_key(id) by {
                assert(ids@.to_set().contains(id));
                let j = choose|j: int| 0 <= j < ids.len() && ids[j] == id;
                assert(marked(marks).contains_key(ids[j]));
            }
            assert(marked(marks).dom() =~= expected.marks.dom());
        }
        Snapshot { exposures, marks }
    }
}

/// The lots of a position: its size over the contract size, none for a contract size of zero.
pub open spec fn lots_of(exposure: Exposure, contract_size: Real) -> Formula {
    if contract_size.zero() {
        Formula::Integer(0)
    } else {
        Formula::Quotient(
            Box::new(Formula::Number(exposure.signed_qty.magnitude())),
            Box::new(Formula::Number(contract_size)),
        )
    }
}

/// Returns the lots of a position.
pub fn exposure_lots(exposure: &Exposure, contract_size: Real) -> (lots: Formula)
    ensures
        lots == lots_of(*exposure, contract_size),
{
    if contract_size.is_zero() {
        Formula::Integer(0)
    } else {
        Formula::Quotient(
            Box::new(Formula::Number(exposure.signed_qty.abs())),
            Box::new(Formula::Number(contract_size)),
        )
    }
}

/// The cash flow of one night on one exposure, which an `interest` exposure without a mark lacks.
pub open spec fn exposure_flow(
    spec: SwapSpec,
    exposure: Exposure,
    iso_weekday: u8,
    mark: Option<Real>,
    quote_currency: Currency,
) -> Option<Formula> {
    if spec.mode is Interest && mark is None {
        None
    } else {
        let notional_abs = if spec.mode is Interest {
            notional_of(exposure, mark->0, quote_currency)
        } else {
            Formula::Integer(0)
        };
        Some(
            swap_flow(
                spec.mode.text(),
                spec.swap_long,
                spec.swap_short,
                exposure.is_long,
                iso_weekday,
                notional_abs,
                lots_of(exposure, spec.contract_size),
                spec.swap_3day_dow,
            ),
        )
    }
}

/// The charges of one night on the exposures of an instrument: one for each that has a cash flow
/// other than nought.
pub open spec fn exposure_charges(
    spec: SwapSpec,
    exposures: Seq<Exposure>,
    iso_weekday: u8,
    mark: Option<Real>,
    instrument: Instrument,
    base_currency: Option<Currency>,
) -> Seq<SwapCharge>
    decreases exposures.len(),
{
    if exposures.len() == 0 {
        Seq::empty()
    } else {
        let before = exposure_charges(
            spec,
            exposures.drop_last(),
            iso_weekday,
            mark,
            instrument,
            base_currency,
        );
        let quote = instrument.quote_currency;
        match exposure_flow(spec, exposures.last(), iso_weekday, mark, quote) {
            Some(flow) => if flow == Formula::Integer(0) {
                before
            } else {
                let (amount, currency) = based(base_currency, instrument.xrate, flow, quote);
                before.push(SwapCharge { instrument_id: spec.instrument_id, amount, currency })
            },
            None => before,
        }
    }
}

/// The charges of one night on an instrument.
pub open spec fn spec_charges(
    spec: SwapSpec,
    iso_weekday: u8,
    snapshot: SnapshotModel,
    use_snapshot_mark: bool,
    ctx: ContextModel,
) -> Seq<SwapCharge> {
    let id = spec.instrument_id;
    if !ctx.instruments.contains_key(id) || !snapshot.exposures.contains_key(id) {
        Seq::empty()
    } else {
        exposure_charges(
            spec,
            snapshot.exposures[id],
            iso_weekday,
            resolved_mark(id, ctx.instruments[id], snapshot, use_snapshot_mark),
            ctx.instruments[id],
            ctx.base_currency,
        )
    }
}

/// The charges of one night, by instrument. Weekend nights do not roll.
pub open spec fn night_charges(
    specs: Seq<SwapSpec>,
    iso_weekday: u8,
    snapshot: SnapshotModel,
    use_snapshot_mark: bool,
    ctx: ContextModel,
) -> Seq<SwapCharge>
    decreases specs.len(),
{
    if specs.len() == 0 || is_weekend(iso_weekday as int) {
        Seq::empty()
    } else {
        night_charges(specs.drop_last(), iso_weekday, snapshot, use_snapshot_mark, ctx)
            + spec_charges(specs.last(), iso_weekday, snapshot, use_snapshot_mark, ctx)
    }
}

impl CfdSwapModule {
    /// Charges one night against the snapshot exposure of one instrument.
    fn apply_spec(
        spec: &SwapSpec,
        iso_weekday: u8,
        snapshot: &Snapshot,
        use_snapshot_mark: bool,
        ctx: &ExchangeContext,
        batch: &mut Vec<SwapCharge>,
    )
        ensures
            final(batch)@ == old(batch)@ + spec_charges(
                *spec,
                iso_weekday,
                snapshot@,
                use_snapshot_mark,
                ctx@,
            ),
    {
        let ghost before = batch@;
        assert(before + Seq::<SwapCharge>::empty() =~= before);
        let id = spec.instrument_id;
        let instrument = match ctx.instrument(id) {
            Some(instrument) => instrument,
            None => {
                return ;
            },
        };
        let exposures = match groups_get(&snapshot.exposures, id) {
            Some(exposures) => exposures,
            None => {
                return ;
            },
        };
        let quote_currency = instrument.quote_currency;
        let ghost mark = resolved_mark(id, instrument, snapshot@, use_snapshot_mark);
        assert(exposures@.take(0) =~= Seq::empty());
        for i in 0..exposures.len()
            invariant
                id == spec.instrument_id,
                quote_currency == instrument.quote_currency,
                mark == resolved_mark(id, instrument, snapshot@, use_snapshot_mark),
                batch@ == before + exposure_charges(
                    *spec,
                    exposures@.take(i as int),
                    iso_weekday,
                    mark,
                    instrument,
                    ctx@.base_currency,
                ),
        {
            assert(exposures@.take(i + 1).drop_last() =~= exposures@.take(i as int));
            let exposure = exposures[i];
            let lots = exposure_lots(&exposure, spec.contract_size);
            let notional_abs = if spec.mode == SwapMode::Interest {
                match resolve_mark(id, &instrument, snapshot, use_snapshot_mark) {
                    Some(mark_px) => Some(
                        exposure_notional_abs(&exposure, mark_px, quote_currency),
                    ),
                    None => None,
                }
            } else {
                Some(Formula::Integer(0))
            };
            if let Some(notional_abs) = notional_abs {
                let cash_flow = swap_cash_flow(
                    spec.mode.as_str(),
                    spec.swap_long,
                    spec.swap_short,
                    exposure.is_long,
                    iso_weekday,
                    notional_abs,
                    lots,
                    spec.swap_3day_dow,
                );
                if !is_nought(&cash_flow) {
                    let (amount, currency) = to_base(
                        ctx.base_currency(),
                        instrument.xrate,
                        cash_flow,
                        quote_currency,
                    );
                    batch.push(SwapCharge { instrument_id: id, amount, currency });
                    assert(batch@ =~= before + exposure_charges(
                        *spec,
                        exposures@.take(i + 1),
                        iso_weekday,
                        mark,
                        instrument,
                        ctx@.base_currency,
                    ));
                }
            }
        }
        assert(exposures@.take(exposures.len() as int) =~= exposures@);
    }

    /// Charges one night against the snapshot exposure of every configured instrument.
    pub fn apply(
        &self,
        iso_weekday: u8,
        snapshot: &Snapshot,
        use_snapshot_mark: bool,
        ctx: &ExchangeContext,
        batch: &mut Vec<SwapCharge>,
    )
        ensures
            final(batch)@ == old(batch)@ + night_charges(
                self@.specs,
                iso_weekday,
                snapshot@,
                use_snapshot_mark,
                ctx@,
            ),
    {
        let ghost before = batch@;
        assert(before + Seq::<SwapCharge>::empty() =~= before);
        if iso_weekday == SATURDAY || iso_weekday == SUNDAY {
            return ;
        }
        let ghost specs = self.specs@;
        assert(specs.take(0) =~= Seq::empty());
        for i in 0..self.specs.len()
            invariant
                specs == self.specs@,
                !is_weekend(iso_weekday as int),
                batch@ == before + night_charges(
                    specs.take(i as int),
                    iso_weekday,
                    snapshot@,
                    use_snapshot_mark,
                    ctx@,
                ),
        {
            assert(specs.take(i + 1).drop_last() =~= specs.take(i as int));
            Self::apply_spec(
                &self.specs[i],
                iso_weekday,
                snapshot,
                use_snapshot_mark,
                ctx,
                batch,
            );
            assert(batch@ =~= before + night_charges(
                specs.take(i + 1),
                iso_weekday,
                snapshot@,
                use_snapshot_mark,
                ctx@,
            ));
        }
        assert(specs.take(specs.len() as int) =~= specs);
    }
}

/// Returns whether a formula is the constant nought.
fn is_nought(formula: &Formula) -> (nought: bool)
    ensures
        nought == (*formula == Formula::Integer(0)),
{
    match formula {
        Formula::Integer(integer) => *integer == 0,
        _ => false,
    }
}

/// The charges of the rollover of a day. A rollover before the call falls in a gap, and is
/// charged against what was captured before the gap.
pub open spec fn roll_charges(specs: Seq<SwapSpec>, day: int, inputs: ProcessInputs) -> Seq<
    SwapCharge,
> {
    let weekday = iso_weekday(day) as u8;
    if inputs.prev is Some && roll_ns(day)->0 < inputs.ts_now {
        night_charges(specs, weekday, inputs.prev->0, true, inputs.ctx)
    } else {
        night_charges(specs, weekday, inputs.current, false, inputs.ctx)
    }
}

/// The charges of the rollovers of the days from `first` up to, and without, `stop`.
pub open spec fn rolled_charges(
    specs: Seq<SwapSpec>,
    first: int,
    stop: int,
    inputs: ProcessInputs,
) -> Seq<SwapCharge>
    decreases stop - first,
{
    if stop <= first {
        Seq::empty()
    } else {
        rolled_charges(specs, first, stop - 1, inputs) + roll_charges(specs, stop - 1, inputs)
    }
}

impl SwapModel {
    /// The inputs of a process call in this state.
    pub open spec fn inputs(self, ts_now: u64, ctx: ContextModel) -> ProcessInputs {
        ProcessInputs { ts_now, prev: self.prev_snapshot, current: self.snapshot(ctx), ctx }
    }

    /// The day of the first rollover that a process call in this state considers.
    pub open spec fn first_day(self, ts_now: u64) -> int {
        match self.next_roll {
            Some(day) => day,
            None => opening_day(ts_now as int),
        }
    }

    /// The day of the first rollover that is after a process call in this state.
    pub open spec fn stop_day(self, ts_now: u64) -> int {
        first_roll_from(self.first_day(ts_now), ts_now + 1)
    }

    /// Whether the days that a process call in this state considers are those of New York time.
    pub open spec fn regular_call(self, ts_now: u64) -> bool {
        let stop = self.stop_day(ts_now);
        &&& self.next_roll is None ==> eastern_day_contains(
            zone_day(EASTERN@, ts_now as int)->0,
            ts_now as int,
        )
        &&& 0 <= self.first_day(ts_now) <= stop
        &&& roll_ns(stop) is Some
        &&& roll_ns(stop)->0 > ts_now
        &&& forall|day: int| self.first_day(ts_now) <= day <= stop ==> #[trigger] regular_roll(day)
    }

    /// Whether the next rollover is the first one after an instant: the rollovers of the days
    /// before it are at or before the instant, and the others after it.
    pub open spec fn caught_up(self, ts_ns: int) -> bool {
        &&& self.next_roll is Some
        &&& forall|day: int| #[trigger]
            regular_roll(day) && roll_ns(day) is Some ==> (day < self.next_roll->0 <==> roll_ns(
                day,
            )->0 <= ts_ns)
    }

    /// The charges that a process call makes in this state.
    pub open spec fn charges(self, ts_now: u64, ctx: ContextModel) -> Seq<SwapCharge> {
        if self.specs.len() == 0 {
            Seq::empty()
        } else {
            rolled_charges(
                self.specs,
                self.first_day(ts_now),
                self.stop_day(ts_now),
                self.inputs(ts_now, ctx),
            )
        }
    }

    /// The state after a process call in this state.
    pub open spec fn processed(self, ts_now: u64, ctx: ContextModel) -> SwapModel {
        if self.specs.len() == 0 {
            SwapModel { awaiting: Some(Seq::empty()), ..self }
        } else {
            SwapModel {
                next_roll: Some(self.stop_day(ts_now)),
                prev_snapshot: Some(self.snapshot(ctx)),
                ..self
            }
        }
    }
}

/// A process call catches up with its timestamp.
pub proof fn lemma_catches_up(model: SwapModel, ts_now: u64, ts_ns: int, ctx: ContextModel)
    requires
        model.specs.len() > 0,
        model.regular_call(ts_now),
        model.next_roll is None || model.caught_up(ts_ns),
        ts_ns <= ts_now,
    ensures
        model.processed(ts_now, ctx).caught_up(ts_now as int),
{
    let first = model.first_day(ts_now);
    let stop = model.stop_day(ts_now);
    assert(regular_roll(stop));
    assert forall|day: int| #[trigger] regular_roll(day) && roll_ns(day) is Some implies (day < stop
        <==> roll_ns(day)->0 <= ts_now) by {
        if first <= day < stop {
            lemma_rolls_before_are_earlier(first, ts_now + 1, day);
        }
    }
}

impl CfdSwapModule {
    /// Makes the first rollover from `date` on the next one.
    fn set_next_roll(&mut self, date: CivilDate)
        requires
            date.valid(),
            -1 <= date@ <= LAST_ROLL_DAY,
        ensures
            final(self).specs == old(self).specs,
            final(self).index_of == old(self).index_of,
            final(self).prev_snapshot == old(self).prev_snapshot,
            final(self).pending_adjustments == old(self).pending_adjustments,
            final(self).ledger == old(self).ledger,
            final(self).next_roll_date is Some,
            final(self).next_roll_date->0.valid(),
            final(self).next_roll_date->0@ == (if date@ < 0 { 0 } else { date@ }),
            roll_ns(final(self).next_roll_date->0@) == Some(final(self).next_roll_ns as int),
            regular_roll(final(self).next_roll_date->0@),
    {
        let mut roll_date = date;
        loop
            invariant
                *self == *old(self),
                roll_date.valid(),
                -1 <= date@ <= roll_date@ <= LAST_ROLL_DAY,
                roll_date@ == date@ || date@ < 0 && roll_date@ == 0,
            decreases LAST_ROLL_DAY - roll_date@,
        {
            proof {
                lemma_calendar_ends(roll_date);
                lemma_next_day(roll_date);
            }
            if let Some(roll) = roll_time_ns(roll_date) {
                self.next_roll_ns = roll;
                self.next_roll_date = Some(roll_date);
                return ;
            }
            roll_date = tomorrow(roll_date).unwrap();
        }
    }

    /// Drains every rollover at or before `ts_now`, and returns the charges for them.
    ///
    /// The host evaluates each charge and hands the amounts to `complete`.
    pub fn process(&mut self, ts_now: u64, ctx: &ExchangeContext) -> (charges: Vec<SwapCharge>)
        requires
            old(self).wf(),
            old(self)@.specs.len() > 0 ==> ts_now < LAST_ROLL_NS,
        ensures
            final(self).wf(),
            final(self)@ == old(self)@.processed(ts_now, ctx@),
            charges@ == old(self)@.charges(ts_now, ctx@),
            old(self)@.next_roll is None && roll_ns(opening_day(ts_now as int)) != Some(
                ts_now as int,
            ) ==> charges.len() == 0,
            old(self)@.specs.len() > 0 ==> old(self)@.regular_call(ts_now),
            old(self)@.specs.len() > 0 && old(self)@.next_roll is None ==> final(self)@.caught_up(
                ts_now as int,
            ),
            forall|ts_ns: int|
                old(self)@.specs.len() > 0 && ts_ns <= ts_now && #[trigger] old(self)@.caught_up(
                    ts_ns,
                ) ==> final(self)@.caught_up(ts_now as int),
    {
        let ghost model = self@;
        if self.specs.len() == 0 {
            self.pending_adjustments = Some(Vec::new());
            assert(self@ =~= model.processed(ts_now, ctx@));
            return Vec::new();
        }
        let current = self.exposure_snapshot(ctx);
        if self.next_roll_date.is_none() {
            let date = eastern_date(ts_now);
            proof {
                lemma_calendar_ends(date);
                lemma_next_day(date);
            }
            let open_today = match roll_time_ns(date) {
                Some(roll) => ts_now <= roll,
                None => false,
            };
            if open_today {
                self.set_next_roll(date);
            } else {
                self.set_next_roll(tomorrow(date).unwrap());
            }
        }
        let ghost first = model.first_day(ts_now);
        let ghost inputs = model.inputs(ts_now, ctx@);
        let ghost before = *self;
        let mut batch: Vec<SwapCharge> = Vec::new();
        while ts_now >= self.next_roll_ns
            invariant
                model.valid(),
                model.specs.len() > 0,
                ts_now < LAST_ROLL_NS,
                before.specs@ == model.specs,
                before@.prev_snapshot == model.prev_snapshot,
                self.specs == before.specs,
                self.index_of == before.index_of,
                self.prev_snapshot == before.prev_snapshot,
                self.pending_adjustments == before.pending_adjustments,
                self.ledger == before.ledger,
                current@ == model.snapshot(ctx@),
                inputs == model.inputs(ts_now, ctx@),
                self.next_roll_date is Some,
                self.next_roll_date->0.valid(),
                first == model.first_day(ts_now),
                model.next_roll is None ==> eastern_day_contains(
                    zone_day(EASTERN@, ts_now as int)->0,
                    ts_now as int,
                ),
                0 <= first <= self.next_roll_date->0@ <= LAST_ROLL_DAY,
                roll_ns(self.next_roll_date->0@) == Some(self.next_roll_ns as int),
                forall|day: int|
                    first <= day <= self.next_roll_date->0@ ==> #[trigger] regular_roll(day),
                first_roll_from(first, ts_now + 1) == first_roll_from(
                    self.next_roll_date->0@,
                    ts_now + 1,
                ),
                batch@ == rolled_charges(
                    model.specs,
                    first,
                    self.next_roll_date->0@,
                    inputs,
                ),
                model.next_roll is None && roll_ns(opening_day(ts_now as int)) != Some(
                    ts_now as int,
                ) ==> batch.len() == 0 && self.next_roll_ns > ts_now,
            decreases LAST_ROLL_DAY - self.next_roll_date->0@,
        {
            let date = self.next_roll_date.unwrap();
            let weekday = weekday_of(date);
            let ghost charged = batch@;
            assert(regular_roll(date@));
            match &self.prev_snapshot {
                Some(prev) if self.next_roll_ns < ts_now => {
                    self.apply(weekday, prev, true, ctx, &mut batch);
                },
                _ => {
                    self.apply(weekday, &current, false, ctx, &mut batch);
                },
            }
            assert(batch@ == charged + roll_charges(model.specs, date@, inputs));
            proof {
                lemma_calendar_ends(date);
                lemma_next_day(date);
            }
            self.set_next_roll(tomorrow(date).unwrap());
        }
        self.prev_snapshot = Some(current);
        assert(self@ =~= model.processed(ts_now, ctx@));
        proof {
            if model.next_roll is None {
                lemma_catches_up(model, ts_now, ts_now as int, ctx@);
            }
            assert forall|ts_ns: int| ts_ns <= ts_now && #[trigger] model.caught_up(
                ts_ns,
            ) implies self@.caught_up(ts_now as int) by {
                lemma_catches_up(model, ts_now, ts_ns, ctx@);
            }
        }
        batch
    }
}

/// The adjustments that come of evaluated charges: those whose amount is valid and not zero.
pub open spec fn adjustments_of(charges: Seq<SwapCharge>, amounts: Seq<Option<i128>>) -> Seq<
    SwapAdjustment,
>
    decreases charges.len(),
{
    if charges.len() == 0 {
        Seq::empty()
    } else {
        let before = adjustments_of(charges.drop_last(), amounts.drop_last());
        match amounts.last() {
            Some(raw) => if raw == 0 {
                before
            } else {
                before.push(
                    SwapAdjustment {
                        instrument_id: charges.last().instrument_id,
                        amount: Money { raw, currency: charges.last().currency },
                    },
                )
            },
            None => before,
        }
    }
}

/// The cost of an adjustment, positive when paid.
pub open spec fn cost_of(adjustment: SwapAdjustment) -> i128 {
    (-adjustment.amount.raw) as i128
}

/// A ledger after a batch is acknowledged.
pub open spec fn acknowledged_ledger(
    ledger: LedgerModel,
    adjustments: Seq<SwapAdjustment>,
    outcomes: Seq<AccountAdjustmentOutcome>,
) -> LedgerModel
    decreases adjustments.len(),
{
    if adjustments.len() == 0 {
        ledger
    } else {
        acknowledged_ledger(
            ledger,
            adjustments.drop_last(),
            outcomes.drop_last(),
        ).acknowledged(
            adjustments.last().instrument_id,
            cost_of(adjustments.last()),
            outcomes.last(),
        )
    }
}

impl SwapModel {
    /// The state after the charges of a process call are evaluated.
    pub open spec fn completed(
        self,
        charges: Seq<SwapCharge>,
        amounts: Seq<Option<i128>>,
    ) -> SwapModel {
        SwapModel { awaiting: Some(adjustments_of(charges, amounts)), ..self }
    }

    /// The state after the completed batch is acknowledged.
    pub open spec fn acknowledged(self, outcomes: Seq<AccountAdjustmentOutcome>) -> SwapModel {
        SwapModel {
            awaiting: None,
            ledger: acknowledged_ledger(self.ledger, self.awaiting->0, outcomes),
            ..self
        }
    }
}

impl CfdSwapModule {
    /// Takes the evaluated charges of a process call, and returns the account adjustments.
    ///
    /// `amounts` holds the raw amount of each charge, or `None` where a notional or an amount
    /// was not valid money; those charges and the zero amounts are dropped.
    pub fn complete(&mut self, charges: Vec<SwapCharge>, amounts: Vec<Option<i128>>) -> (adjustments:
        Vec<Money>)
        requires
            old(self).wf(),
            charges.len() == amounts.len(),
            forall|i: int|
                0 <= i < amounts.len() && (#[trigger] amounts[i]) is Some ==> amounts[i]->0
                    > i128::MIN,
        ensures
            final(self).wf(),
            final(self)@ == old(self)@.completed(charges@, amounts@),
            adjustments@ == adjustments_of(charges@, amounts@).map_values(
                |a: SwapAdjustment| a.amount,
            ),
    {
        let ghost model = self@;
        let mut batch: Vec<SwapAdjustment> = Vec::new();
        let mut adjustments: Vec<Money> = Vec::new();
        assert(charges@.take(0) =~= Seq::empty());
        for i in 0..charges.len()
            invariant
                charges.len() == amounts.len(),
                forall|j: int|
                    0 <= j < amounts.len() && (#[trigger] amounts[j]) is Some ==> amounts[j]->0
                        > i128::MIN,
                batch@ == adjustments_of(charges@.take(i as int), amounts@.take(i as int)),
                adjustments@ == batch@.map_values(|a: SwapAdjustment| a.amount),
                forall|j: int|
                    0 <= j < batch.len() ==> (#[trigger] batch[j]).amount.raw != 0
                        && batch[j].amount.raw > i128::MIN,
        {
            assert(charges@.take(i + 1).drop_last() =~= charges@.take(i as int));
            assert(amounts@.take(i + 1).drop_last() =~= amounts@.take(i as int));
            if let Some(raw) = amounts[i] {
                if raw != 0 {
                    let amount = Money { raw, currency: charges[i].currency };
                    batch.push(
                        SwapAdjustment {
                            instrument_id: charges[i].instrument_id,
                            amount,
                        },
                    );
                    adjustments.push(amount);
                }
            }
            assert(adjustments@ =~= batch@.map_values(|a: SwapAdjustment| a.amount));
        }
        assert(charges@.take(charges.len() as int) =~= charges@);
        assert(amounts@.take(amounts.len() as int) =~= amounts@);
        self.pending_adjustments = Some(batch);
        assert(self@ =~= model.completed(charges@, amounts@));
        adjustments
    }

    /// Records what became of the adjustments of the completed batch.
    pub fn acknowledge(&mut self, outcomes: &Vec<AccountAdjustmentOutcome>)
        requires
            old(self).wf(),
            old(self)@.awaiting is Some,
            old(self)@.awaiting->0.len() == outcomes.len(),
        ensures
            final(self).wf(),
            final(self)@ == old(self)@.acknowledged(outcomes@),
    {
        let ghost model = self@;
        let ghost before = *self;
        let adjustments = self.pending_adjustments.take().unwrap();
        assert(adjustments@.take(0) =~= Seq::empty());
        for i in 0..adjustments.len()
            invariant
                model == before@,
                before.wf(),
                adjustments@ == model.awaiting->0,
                model.awaiting is Some,
                adjustments.len() == outcomes.len(),
                self.specs == before.specs,
                self.index_of == before.index_of,
                self.next_roll_date == before.next_roll_date,
                self.next_roll_ns == before.next_roll_ns,
                self.prev_snapshot == before.prev_snapshot,
                self.pending_adjustments is None,
                self.ledger@ == acknowledged_ledger(
                    model.ledger,
                    adjustments@.take(i as int),
                    outcomes@.take(i as int),
                ),
                self.ledger@.balanced(),
        {
            assert(adjustments@.take(i + 1).drop_last() =~= adjustments@.take(i as int));
            assert(outcomes@.take(i + 1).drop_last() =~= outcomes@.take(i as int));
            let adjustment = adjustments[i];
            let outcome = outcomes[i];
            let cost = -adjustment.amount.raw;
            proof {
                law_acknowledged_balanced(
                    self.ledger@,
                    adjustment.instrument_id,
                    cost,
                    outcome,
                );
            }
            self.ledger.acknowledge(adjustment.instrument_id, cost, outcome);
        }
        proof {
            assert(adjustments@.take(adjustments.len() as int) =~= adjustments@);
            assert(outcomes@.take(outcomes.len() as int) =~= outcomes@);
            assert(self@ =~= model.acknowledged(outcomes@));
        }
    }

    /// Returns this module to the state before the first process call.
    pub fn reset(&mut self)
        requires
            old(self).wf(),
        ensures
            final(self).wf(),
            final(self)@ == SwapModel::fresh(old(self)@.specs),
    {
        let ghost model = self@;
        self.next_roll_date = None;
        self.next_roll_ns = 0;
        self.prev_snapshot = None;
        self.pending_adjustments = None;
        self.ledger.clear();
        assert(self@ =~= SwapModel::fresh(model.specs));
    }

    /// Returns the terms of the applied swap cost across all instruments, positive when paid, in
    /// the order of their addition.
    pub fn total_cost(&self) -> (terms: &Vec<i128>)
        ensures
            terms@ == self@.ledger.total,
    {
        self.ledger.total_cost()
    }

    /// Returns the terms of the swap cost the exchange could not apply, in the order of their
    /// addition.
    pub fn unapplied_cost(&self) -> (terms: &Vec<i128>)
        ensures
            terms@ == self@.ledger.unapplied,
    {
        self.ledger.unapplied_cost()
    }

    /// Returns the terms of the applied swap cost per instrument.
    pub fn instrument_costs(&self) -> (costs: IndexMap<InstrumentId, Vec<i128>>)
        ensures
            recorded_costs(costs) == self@.ledger.instruments,
    {
        self.ledger.instrument_costs()
    }
}

/// Rolling up to one timestamp and then up to a later one ends where rolling up to the later one
/// at once does.
pub proof fn law_rolls_compose(day: int, first: int, second: int)
    requires
        first <= second,
    ensures
        first_roll_from(first_roll_from(day, first), second) == first_roll_from(day, second),
    decreases LAST_ROLL_DAY - day,
{
    if !(day >= LAST_ROLL_DAY || (roll_ns(day) is Some && roll_ns(day)->0 >= first)) {
        law_rolls_compose(day + 1, first, second);
    }
}

/// What two process calls roll one after the other is what one call would have rolled up to the
/// later timestamp: no rollover is dropped between them, and the second call starts where the
/// first one stopped.
pub proof fn law_process_rolls_once(model: SwapModel, first: u64, second: u64, ctx: ContextModel)
    requires
        model.valid(),
        model.specs.len() > 0,
        first <= second,
    ensures
        model.processed(first, ctx).first_day(second) == model.stop_day(first),
        model.processed(first, ctx).stop_day(second) == first_roll_from(
            model.first_day(first),
            second + 1,
        ),
        model.next_roll is Some ==> model.processed(first, ctx).stop_day(second) == model.stop_day(
            second,
        ),
{
    law_rolls_compose(model.first_day(first), first + 1, second + 1);
}

/// A process call rolls exactly the days, from its first one on, whose rollover is at or before
/// its timestamp.
pub proof fn law_process_rolls_all_due(model: SwapModel, ts_now: u64, day: int)
    requires
        model.valid(),
        model.regular_call(ts_now),
        model.first_day(ts_now) <= day,
        roll_ns(day) is Some,
        regular_roll(day),
    ensures
        day < model.stop_day(ts_now) <==> roll_ns(day)->0 <= ts_now,
{
    assert(regular_roll(model.stop_day(ts_now)));
    if day < model.stop_day(ts_now) {
        lemma_rolls_before_are_earlier(model.first_day(ts_now), ts_now + 1, day);
    }
}

/// A run that starts at the very instant of a rollover is charged for it, and for no other.
pub proof fn law_opening_rollover_is_charged(model: SwapModel, ts_now: u64, ctx: ContextModel)
    requires
        model.valid(),
        model.specs.len() > 0,
        model.next_roll is None,
        model.regular_call(ts_now),
        roll_ns(opening_day(ts_now as int)) == Some(ts_now as int),
    ensures
        model.charges(ts_now, ctx) == roll_charges(
            model.specs,
            opening_day(ts_now as int),
            model.inputs(ts_now, ctx),
        ),
{
    let day = opening_day(ts_now as int);
    let stop = model.stop_day(ts_now);
    let inputs = model.inputs(ts_now, ctx);
    assert(regular_roll(day));
    assert(regular_roll(stop));
    assert(day < stop);
    if day + 1 < stop {
        assert(regular_roll(day + 1));
        lemma_rolls_before_are_earlier(day, ts_now + 1, day + 1);
    }
    assert(rolled_charges(model.specs, day, day, inputs) =~= Seq::empty());
    assert(rolled_charges(model.specs, day, day + 1, inputs) =~= roll_charges(
        model.specs,
        day,
        inputs,
    ));
}

/// A second process call at the timestamp of the first one charges nothing, whatever the venue
/// has come to.
pub proof fn law_process_again_charges_nothing(
    model: SwapModel,
    ts_now: u64,
    ctx: ContextModel,
    later: ContextModel,
)
    requires
        model.valid(),
    ensures
        model.processed(ts_now, ctx).charges(ts_now, later).len() == 0,
{
    if model.specs.len() > 0 {
        law_process_rolls_once(model, ts_now, ts_now, ctx);
    }
}

/// The rollovers of two spans of days are those of the whole span.
pub proof fn law_rolled_charges_split(
    specs: Seq<SwapSpec>,
    first: int,
    middle: int,
    stop: int,
    inputs: ProcessInputs,
)
    requires
        first <= middle <= stop,
    ensures
        rolled_charges(specs, first, stop, inputs) == rolled_charges(specs, first, middle, inputs)
            + rolled_charges(specs, middle, stop, inputs),
    decreases stop - middle,
{
    let head = rolled_charges(specs, first, middle, inputs);
    if middle == stop {
        assert(head + Seq::<SwapCharge>::empty() =~= head);
    } else {
        law_rolled_charges_split(specs, first, middle, stop - 1, inputs);
        assert(head + (rolled_charges(specs, middle, stop - 1, inputs) + roll_charges(
            specs,
            stop - 1,
            inputs,
        )) =~= (head + rolled_charges(specs, middle, stop - 1, inputs)) + roll_charges(
            specs,
            stop - 1,
            inputs,
        ));
    }
}

/// The weekday rollovers that a process call rolls, after a call at `ts_prev`, are exactly the
/// instants that `cfd_roll_instants_ns` lists from just after `ts_prev` up to and with `ts_now`.
pub proof fn law_rolled_nights_are_listed(model: SwapModel, ts_prev: u64, ts_now: u64)
    requires
        model.valid(),
        model.caught_up(ts_prev as int),
        ts_prev <= ts_now < LAST_ROLL_NS,
        regular_window(ts_prev + 1, ts_now + 1),
    ensures
        charged_rolls(model.first_day(ts_now), model.stop_day(ts_now), 0) == listed_rolls(
            ts_prev + 1,
            ts_now + 1,
        ),
{
    let day = model.next_roll->0;
    let first = window_first(ts_prev + 1);
    let stop = window_stop(ts_prev + 1, ts_now + 1);
    assert(regular_roll(day));
    assert(regular_roll(stop));
    assert(first <= day <= stop);
    lemma_first_roll_passes(first, ts_now + 1, day);
    law_charged_rolls_split(first, day, stop, ts_prev + 1);
    assert forall|d: int| first <= d < day implies !#[trigger] charged_from(d, ts_prev + 1) by {
        assert(regular_roll(d));
    }
    assert forall|d: int| day <= d < stop implies #[trigger] charged_from(d, ts_prev + 1)
        == charged_from(d, 0) by {
        assert(regular_roll(d));
    }
    lemma_none_charged(first, day, ts_prev + 1);
    lemma_same_charged(day, stop, ts_prev + 1, 0);
    let tail = charged_rolls(day, stop, 0);
    assert(charged_rolls(first, day, ts_prev + 1) + tail =~= tail);
}

proof fn lemma_none_charged(first: int, stop: int, start_ns: int)
    requires
        forall|d: int| first <= d < stop ==> !#[trigger] charged_from(d, start_ns),
    ensures
        charged_rolls(first, stop, start_ns).len() == 0,
    decreases stop - first,
{
    if first < stop {
        lemma_none_charged(first, stop - 1, start_ns);
        assert(!charged_from(stop - 1, start_ns));
    }
}

proof fn lemma_same_charged(first: int, stop: int, start_ns: int, other_ns: int)
    requires
        forall|d: int|
            first <= d < stop ==> #[trigger] charged_from(d, start_ns) == charged_from(d, other_ns),
    ensures
        charged_rolls(first, stop, start_ns) == charged_rolls(first, stop, other_ns),
    decreases stop - first,
{
    if first < stop {
        lemma_same_charged(first, stop - 1, start_ns, other_ns);
        assert(charged_from(stop - 1, start_ns) == charged_from(stop - 1, other_ns));
    }
}

/// The days from `first` up to, and without, `stop` that are not on a weekend.
pub open spec fn weekdays_between(first: int, stop: int) -> Seq<int>
    decreases stop - first,
{
    if stop <= first {
        Seq::empty()
    } else if is_weekend(iso_weekday(stop - 1)) {
        weekdays_between(first, stop - 1)
    } else {
        weekdays_between(first, stop - 1).push(stop - 1)
    }
}

/// Whether a snapshot holds exactly one position in an instrument.
pub open spec fn holds_one(snapshot: SnapshotModel, id: InstrumentId) -> bool {
    snapshot.exposures.contains_key(id) && snapshot.exposures[id].len() == 1
}

/// The charge of the rollover of a weekday on the one position in a `ccy_margin` instrument: the
/// lots times the swap points, tripled on the triple night, in the account base currency.
pub open spec fn margin_charge(spec: SwapSpec, day: int, inputs: ProcessInputs) -> SwapCharge {
    let snapshot = if inputs.prev is Some && roll_ns(day)->0 < inputs.ts_now {
        inputs.prev->0
    } else {
        inputs.current
    };
    let exposure = snapshot.exposures[spec.instrument_id][0];
    let instrument = inputs.ctx.instruments[spec.instrument_id];
    let points = if exposure.is_long { spec.swap_long } else { spec.swap_short };
    let per_night = Formula::Product(
        Box::new(lots_of(exposure, spec.contract_size)),
        Box::new(Formula::Number(points)),
    );
    let nights = Formula::Integer(if iso_weekday(day) == spec.swap_3day_dow { 3 } else { 1 });
    let (amount, currency) = based(
        inputs.ctx.base_currency,
        instrument.xrate,
        Formula::Product(Box::new(per_night), Box::new(nights)),
        instrument.quote_currency,
    );
    SwapCharge { instrument_id: spec.instrument_id, amount, currency }
}

/// While one position is held in one `ccy_margin` instrument, a process call after one at
/// `ts_prev` makes one charge, and from valid amounts one adjustment, for each instant that
/// `cfd_roll_instants_ns` lists from just after `ts_prev` up to and with `ts_now`, in the order
/// of time; the triple night is charged three times.
pub proof fn law_one_charge_per_listed_night(
    model: SwapModel,
    ts_prev: u64,
    ts_now: u64,
    ctx: ContextModel,
    amounts: Seq<Option<i128>>,
)
    requires
        model.valid(),
        model.caught_up(ts_prev as int),
        ts_prev <= ts_now < LAST_ROLL_NS,
        regular_window(ts_prev + 1, ts_now + 1),
        model.regular_call(ts_now),
        model.specs.len() == 1,
        model.specs[0].mode is CcyMargin,
        ctx.instruments.contains_key(model.specs[0].instrument_id),
        holds_one(model.snapshot(ctx), model.specs[0].instrument_id),
        model.prev_snapshot is Some ==> holds_one(
            model.prev_snapshot->0,
            model.specs[0].instrument_id,
        ),
        amounts.len() == model.charges(ts_now, ctx).len(),
        forall|i: int|
            0 <= i < amounts.len() ==> (#[trigger] amounts[i]) is Some && amounts[i]->0 != 0,
    ensures
        ({
            let charges = model.charges(ts_now, ctx);
            let listed = listed_rolls(ts_prev + 1, ts_now + 1);
            let days = weekdays_between(model.first_day(ts_now), model.stop_day(ts_now));
            let adjustments = adjustments_of(charges, amounts);
            &&& charges.len() == listed.len()
            &&& days.len() == listed.len()
            &&& adjustments.len() == listed.len()
            &&& forall|i: int| #![trigger listed[i]]
                0 <= i < listed.len() ==> {
                    &&& roll_ns(days[i]) == Some(listed[i] as int)
                    &&& charges[i] == margin_charge(
                        model.specs[0],
                        days[i],
                        model.inputs(ts_now, ctx),
                    )
                    &&& adjustments[i].amount == (Money {
                        raw: amounts[i]->0,
                        currency: charges[i].currency,
                    })
                }
        }),
{
    let first = model.first_day(ts_now);
    let stop = model.stop_day(ts_now);
    law_rolled_nights_are_listed(model, ts_prev, ts_now);
    assert(regular_roll(stop));
    lemma_weekday_rolls(first, stop);
    lemma_margin_charges(model.specs, first, stop, model.inputs(ts_now, ctx));
    law_valid_amounts_are_kept(model.charges(ts_now, ctx), amounts);
}

proof fn lemma_weekday_rolls(first: int, stop: int)
    requires
        0 <= first,
        stop <= LAST_ROLL_DAY,
        forall|day: int| first <= day < stop ==> #[trigger] regular_roll(day),
    ensures
        charged_rolls(first, stop, 0).len() == weekdays_between(first, stop).len(),
        forall|i: int| #![trigger charged_rolls(first, stop, 0)[i]]
            0 <= i < charged_rolls(first, stop, 0).len() ==> roll_ns(weekdays_between(first, stop)[i])
                == Some(charged_rolls(first, stop, 0)[i] as int),
    decreases stop - first,
{
    if first < stop {
        lemma_weekday_rolls(first, stop - 1);
        assert(regular_roll(stop - 1));
        let before = charged_rolls(first, stop - 1, 0);
        let all = charged_rolls(first, stop, 0);
        assert forall|i: int| #![trigger all[i]] 0 <= i < all.len() implies roll_ns(
            weekdays_between(first, stop)[i],
        ) == Some(all[i] as int) by {
            if i < before.len() {
                assert(all[i] == before[i]);
            }
        }
    }
}

proof fn lemma_margin_night(
    specs: Seq<SwapSpec>,
    day: int,
    inputs: ProcessInputs,
)
    requires
        specs.len() == 1,
        specs[0].mode is CcyMargin,
        inputs.ctx.instruments.contains_key(specs[0].instrument_id),
        holds_one(inputs.current, specs[0].instrument_id),
        inputs.prev is Some ==> holds_one(inputs.prev->0, specs[0].instrument_id),
    ensures
        roll_charges(specs, day, inputs) == if is_weekend(iso_weekday(day)) {
            Seq::empty()
        } else {
            seq![margin_charge(specs[0], day, inputs)]
        },
{
    let spec = specs[0];
    let id = spec.instrument_id;
    let gap = inputs.prev is Some && roll_ns(day)->0 < inputs.ts_now;
    let snapshot = if gap { inputs.prev->0 } else { inputs.current };
    let weekday = iso_weekday(day) as u8;
    let exposures = snapshot.exposures[id];
    let instrument = inputs.ctx.instruments[id];
    law_mode_text_round_trip(spec.mode);
    if !is_weekend(iso_weekday(day)) {
        let mark = resolved_mark(id, instrument, snapshot, gap);
        let charge = margin_charge(spec, day, inputs);
        let base = inputs.ctx.base_currency;
        assert(exposure_charges(spec, exposures.drop_last(), weekday, mark, instrument, base)
            =~= Seq::empty());
        assert(exposure_charges(spec, exposures, weekday, mark, instrument, base) =~= seq![charge]);
        assert(specs.drop_last() =~= Seq::empty());
        assert(night_charges(specs.drop_last(), weekday, snapshot, gap, inputs.ctx)
            =~= Seq::empty());
        assert(night_charges(specs, weekday, snapshot, gap, inputs.ctx) =~= seq![charge]);
    }
}

proof fn lemma_margin_charges(
    specs: Seq<SwapSpec>,
    first: int,
    stop: int,
    inputs: ProcessInputs,
)
    requires
        specs.len() == 1,
        specs[0].mode is CcyMargin,
        inputs.ctx.instruments.contains_key(specs[0].instrument_id),
        holds_one(inputs.current, specs[0].instrument_id),
        inputs.prev is Some ==> holds_one(inputs.prev->0, specs[0].instrument_id),
    ensures
        rolled_charges(specs, first, stop, inputs) == weekdays_between(first, stop).map_values(
            |day: int| margin_charge(specs[0], day, inputs),
        ),
    decreases stop - first,
{
    let charge = |day: int| margin_charge(specs[0], day, inputs);
    if first < stop {
        lemma_margin_charges(specs, first, stop - 1, inputs);
        lemma_margin_night(specs, stop - 1, inputs);
    }
    assert(rolled_charges(specs, first, stop, inputs) =~= weekdays_between(first, stop).map_values(
        charge,
    ));
}

/// Charges whose amounts are all valid and not zero become one adjustment each, in order.
pub proof fn law_valid_amounts_are_kept(charges: Seq<SwapCharge>, amounts: Seq<Option<i128>>)
    requires
        charges.len() == amounts.len(),
        forall|i: int|
            0 <= i < amounts.len() ==> (#[trigger] amounts[i]) is Some && amounts[i]->0 != 0,
    ensures
        adjustments_of(charges, amounts) == Seq::new(
            charges.len(),
            |i: int|
                SwapAdjustment {
                    instrument_id: charges[i].instrument_id,
                    amount: Money { raw: amounts[i]->0, currency: charges[i].currency },
                },
        ),
    decreases charges.len(),
{
    let adjustment = |i: int|
        SwapAdjustment {
            instrument_id: charges[i].instrument_id,
            amount: Money { raw: amounts[i]->0, currency: charges[i].currency },
        };
    if charges.len() > 0 {
        let rest = amounts.drop_last();
        assert forall|i: int| 0 <= i < rest.len() implies (#[trigger] rest[i]) is Some && rest[i]->0
            != 0 by {
            assert(rest[i] == amounts[i]);
        }
        law_valid_amounts_are_kept(charges.drop_last(), rest);
        assert(amounts[amounts.len() - 1] == amounts.last());
    }
    assert(adjustments_of(charges, amounts) =~= Seq::new(charges.len(), adjustment));
}

/// A weekend night is not charged.
pub proof fn law_weekend_not_charged(specs: Seq<SwapSpec>, day: int, inputs: ProcessInputs)
    requires
        is_weekend(iso_weekday(day)),
    ensures
        roll_charges(specs, day, inputs).len() == 0,
{
}

/// A rollover that fell in a gap is charged against the exposure and mark captured before the
/// gap, whatever the exposure is now.
pub proof fn law_gap_charged_against_prior_snapshot(
    specs: Seq<SwapSpec>,
    day: int,
    inputs: ProcessInputs,
    other: SnapshotModel,
)
    requires
        inputs.prev is Some,
        roll_ns(day) is Some,
        roll_ns(day)->0 < inputs.ts_now,
    ensures
        roll_charges(specs, day, inputs) == roll_charges(
            specs,
            day,
            ProcessInputs { current: other, ..inputs },
        ),
        roll_charges(specs, day, inputs) == night_charges(
            specs,
            iso_weekday(day) as u8,
            inputs.prev->0,
            true,
            inputs.ctx,
        ),
{
}

/// A disabled instrument is never charged.
pub proof fn law_disabled_never_charged(
    spec: SwapSpec,
    weekday: u8,
    snapshot: SnapshotModel,
    use_snapshot_mark: bool,
    ctx: ContextModel,
)
    requires
        spec.mode is Disabled,
    ensures
        spec_charges(spec, weekday, snapshot, use_snapshot_mark, ctx).len() == 0,
{
    let id = spec.instrument_id;
    if ctx.instruments.contains_key(id) && snapshot.exposures.contains_key(id) {
        lemma_disabled_no_charges(
            spec,
            snapshot.exposures[id],
            weekday,
            resolved_mark(id, ctx.instruments[id], snapshot, use_snapshot_mark),
            ctx.instruments[id],
            ctx.base_currency,
        );
    }
}

proof fn lemma_disabled_no_charges(
    spec: SwapSpec,
    exposures: Seq<Exposure>,
    weekday: u8,
    mark: Option<Real>,
    instrument: Instrument,
    base_currency: Option<Currency>,
)
    requires
        spec.mode is Disabled,
    ensures
        exposure_charges(spec, exposures, weekday, mark, instrument, base_currency).len() == 0,
    decreases exposures.len(),
{
    law_mode_text_round_trip(spec.mode);
    if exposures.len() > 0 {
        lemma_disabled_no_charges(
            spec,
            exposures.drop_last(),
            weekday,
            mark,
            instrument,
            base_currency,
        );
    }
}

/// The exact sum of the costs of a batch.
pub open spec fn batch_cost(adjustments: Seq<SwapAdjustment>) -> int
    decreases adjustments.len(),
{
    if adjustments.len() == 0 {
        0
    } else {
        batch_cost(adjustments.drop_last()) + cost_of(adjustments.last())
    }
}

/// An acknowledgement records the cost of every adjustment of the batch once, as applied or as
/// unapplied.
pub proof fn law_acknowledge_counts_batch(
    ledger: LedgerModel,
    adjustments: Seq<SwapAdjustment>,
    outcomes: Seq<AccountAdjustmentOutcome>,
)
    requires
        adjustments.len() == outcomes.len(),
    ensures
        ({
            let after = acknowledged_ledger(ledger, adjustments, outcomes);
            term_sum(after.total) + term_sum(after.unapplied) == term_sum(ledger.total) + term_sum(
                ledger.unapplied,
            ) + batch_cost(adjustments)
        }),
    decreases adjustments.len(),
{
    if adjustments.len() > 0 {
        law_acknowledge_counts_batch(ledger, adjustments.drop_last(), outcomes.drop_last());
        law_acknowledged_counts_cost(
            acknowledged_ledger(ledger, adjustments.drop_last(), outcomes.drop_last()),
            adjustments.last().instrument_id,
            cost_of(adjustments.last()),
            outcomes.last(),
        );
    }
}

/// The applied cost is the sum over the instruments.
pub proof fn law_costs_balance(module: CfdSwapModule)
    requires
        module.wf(),
    ensures
        term_sum(module@.ledger.total) == entries_sum(module@.ledger.instruments),
        module@.valid(),
{
}

}
