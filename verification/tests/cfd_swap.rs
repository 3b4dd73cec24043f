use core::str::FromStr;

use carry_costs::carry::{ExchangeContext, Exposure, Instrument, Position};
use carry_costs::cfd_swap::{
    exposure_lots, swap_cash_flow, CfdSwapModule, InvalidSwapMode, SwapCharge, SwapError,
    SwapFault, SwapMode, SwapTerms,
};
use carry_costs::ledger::{AccountAdjustmentOutcome, Money};
use carry_costs::number::{Formula, Real};
use carry_costs::rollover::{cfd_roll_instants_ns, FRIDAY};

const SWAP_LONG_INDEX: f64 = -4.48;
const SWAP_SHORT_INDEX: f64 = 0.51;
const SWAP_LONG_STOCK: f64 = -8.73;
const SWAP_SHORT_STOCK: f64 = -1.27;

const USD: u32 = 840;
const EUR: u32 = 978;
const INDEX: u64 = 500;
const STOCK: u64 = 77;

const HOUR: u64 = 3_600_000_000_000;
const DAY: u64 = 24 * HOUR;
/// 2024-03-04 00:00 UTC, a Monday.
const MONDAY: u64 = 1_709_510_400_000_000_000;

fn bits(value: f64) -> Real {
    Real { bits: value.to_bits() }
}

fn number(value: f64) -> Formula {
    Formula::Number(bits(value))
}

fn cents(value: f64) -> Option<i128> {
    if value.is_finite() && value.abs() < 1e15 {
        Some((value * 100.0).round() as i128)
    } else {
        None
    }
}

fn eval(formula: &Formula) -> Option<f64> {
    Some(match formula {
        Formula::Number(number) => f64::from_bits(number.bits),
        Formula::Integer(integer) => f64::from(*integer),
        Formula::Negated(term) => -eval(term)?,
        Formula::Product(left, right) => eval(left)? * eval(right)?,
        Formula::Quotient(left, right) => eval(left)? / eval(right)?,
        Formula::Rounded(term, _) => cents(eval(term)?)? as f64 / 100.0,
    })
}

fn amounts(charges: &Vec<SwapCharge>) -> Vec<Option<i128>> {
    charges.iter().map(|charge| eval(&charge.amount).and_then(cents)).collect()
}

fn flow(
    mode: &str,
    long: f64,
    short: f64,
    is_long: bool,
    weekday: u8,
    notional: f64,
    lots: f64,
    dow: u8,
) -> f64 {
    let cash_flow = swap_cash_flow(
        mode,
        bits(long),
        bits(short),
        is_long,
        weekday,
        number(notional),
        number(lots),
        dow,
    );
    eval(&cash_flow).unwrap()
}

fn terms(id: Option<u64>, mode: &str, long: f64, short: f64, size: f64, dow: u8) -> SwapTerms {
    SwapTerms {
        instrument_id: id,
        swap_mode: mode.to_string(),
        swap_long: bits(long),
        swap_short: bits(short),
        contract_size: bits(size),
        swap_3day_dow: dow,
    }
}

fn position(id: u64, signed_qty: f64) -> Position {
    let exposure = Exposure {
        is_long: signed_qty > 0.0,
        signed_qty: bits(signed_qty),
        quantity: bits(signed_qty.abs()),
        multiplier: bits(1.0),
    };
    Position { instrument_id: id, exposure }
}

fn instrument(id: u64, last: f64) -> Instrument {
    Instrument {
        id,
        quote_currency: USD,
        is_inverse: false,
        book: None,
        last: Some(bits(last)),
        xrate: None,
    }
}

fn context(positions: Vec<Position>, instruments: Vec<Instrument>) -> ExchangeContext {
    ExchangeContext::new(positions, instruments, None)
}

fn fault(list: Vec<SwapTerms>) -> SwapError {
    match CfdSwapModule::new(list) {
        Ok(_) => panic!("the terms were accepted"),
        Err(error) => error,
    }
}

fn module(list: Vec<SwapTerms>) -> CfdSwapModule {
    match CfdSwapModule::new(list) {
        Ok(module) => module,
        Err(error) => panic!("the terms were refused: {error:?}"),
    }
}

#[test]
fn test_swap_index_ccy_margin_weekday_multiplier() {
    for (iso_wd, mult) in [(1, 1.0), (2, 1.0), (3, 1.0), (4, 1.0), (5, 3.0), (6, 0.0), (7, 0.0)] {
        let cf = flow("ccy_margin", SWAP_LONG_INDEX, SWAP_SHORT_INDEX, true, iso_wd, 0.0, 1.0, FRIDAY);
        assert_eq!(cf, SWAP_LONG_INDEX * mult);
    }
}

#[test]
fn test_swap_index_short_uses_swap_short() {
    let cf = flow("ccy_margin", SWAP_LONG_INDEX, SWAP_SHORT_INDEX, false, 2, 0.0, 2.0, FRIDAY);
    assert_eq!(cf, SWAP_SHORT_INDEX * 2.0);
}

#[test]
fn test_swap_stock_interest_notional_over_360() {
    let cf = flow("interest", SWAP_LONG_STOCK, SWAP_SHORT_STOCK, true, 4, 1000.0, 1.0, FRIDAY);
    assert_eq!(cf, (SWAP_LONG_STOCK / 100.0) * 1000.0 / 360.0);
}

#[test]
fn test_swap_stock_interest_friday_triple() {
    let cf = flow("interest", SWAP_LONG_STOCK, SWAP_SHORT_STOCK, true, 5, 1000.0, 1.0, FRIDAY);
    assert_eq!(cf, (SWAP_LONG_STOCK / 100.0) * 1000.0 / 360.0 * 3.0);
}

#[test]
fn test_swap_3day_dow_moves_the_triple_night() {
    for (iso_wd, mult) in [(1, 1.0), (2, 1.0), (3, 3.0), (4, 1.0), (5, 1.0), (6, 0.0), (7, 0.0)] {
        let cf = flow("ccy_margin", SWAP_LONG_INDEX, SWAP_SHORT_INDEX, true, iso_wd, 0.0, 1.0, 3);
        assert_eq!(cf, SWAP_LONG_INDEX * mult);
    }
}

#[test]
fn test_swap_disabled_is_zero() {
    let cf = flow("disabled", SWAP_LONG_STOCK, SWAP_SHORT_STOCK, true, 4, 1000.0, 1.0, FRIDAY);
    assert_eq!(cf, 0.0);
}

#[test]
fn an_unrecognised_mode_is_zero() {
    assert_eq!(flow("Interest", 1.0, 1.0, true, 4, 1000.0, 1.0, FRIDAY), 0.0);
    assert_eq!(flow("", 1.0, 1.0, true, 4, 1000.0, 1.0, FRIDAY), 0.0);
}

#[test]
fn test_invalid_swap_mode_rejected() {
    let error = fault(vec![terms(Some(INDEX), "nonsense", -4.48, 0.51, 1.0, 5)]);
    assert_eq!(error, SwapError { entry: 0, fault: SwapFault::InvalidMode });
}

#[test]
fn swap_faults_are_told_apart() {
    let good = || terms(Some(INDEX), "ccy_margin", -4.48, 0.51, 1.0, 5);
    let bad = |entry: SwapTerms| fault(vec![good(), entry]);
    for (entry, expected) in [
        (terms(None, "nonsense", 1.0, 1.0, 1.0, 5), SwapFault::InvalidInstrumentId),
        (terms(Some(STOCK), "nonsense", f64::NAN, 1.0, 1.0, 5), SwapFault::InvalidMode),
        (terms(Some(STOCK), "interest", f64::NAN, 1.0, -1.0, 5), SwapFault::PointsNotFinite),
        (terms(Some(STOCK), "interest", 1.0, f64::INFINITY, -1.0, 5), SwapFault::PointsNotFinite),
        (terms(Some(STOCK), "interest", 1.0, 1.0, -1.0, 0), SwapFault::InvalidContractSize),
        (terms(Some(STOCK), "interest", 1.0, 1.0, f64::NAN, 0), SwapFault::InvalidContractSize),
        (terms(Some(STOCK), "interest", 1.0, 1.0, f64::INFINITY, 0), SwapFault::InvalidContractSize),
        (terms(Some(INDEX), "interest", 1.0, 1.0, 1.0, 0), SwapFault::InvalidWeekday),
        (terms(Some(INDEX), "interest", 1.0, 1.0, 1.0, 8), SwapFault::InvalidWeekday),
        (terms(Some(INDEX), "interest", 1.0, 1.0, 1.0, 7), SwapFault::Duplicate),
    ] {
        assert_eq!(bad(entry), SwapError { entry: 1, fault: expected });
    }
    assert!(CfdSwapModule::new(vec![terms(Some(STOCK), "disabled", 0.0, 0.0, -0.0, 1)]).is_ok());
}

#[test]
fn mode_texts_round_trip() {
    for mode in [SwapMode::Disabled, SwapMode::CcyMargin, SwapMode::Interest] {
        assert_eq!(SwapMode::from_str(mode.as_str()), Ok(mode));
    }
    assert_eq!(SwapMode::Disabled.as_str(), "disabled");
    assert_eq!(SwapMode::CcyMargin.as_str(), "ccy_margin");
    assert_eq!(SwapMode::Interest.as_str(), "interest");
    assert_eq!(SwapMode::from_str("nonsense"), Err(InvalidSwapMode));
}

#[test]
fn lots_are_the_size_over_the_contract_size() {
    let exposure = position(INDEX, -5.0).exposure;
    assert_eq!(eval(&exposure_lots(&exposure, bits(2.0))), Some(2.5));
    assert_eq!(eval(&exposure_lots(&exposure, bits(0.0))), Some(0.0));
}

#[test]
fn a_run_is_not_charged_for_the_rollover_before_it() {
    let ctx = context(vec![position(INDEX, 2.0)], vec![instrument(INDEX, 100.0)]);
    let mut module = module(vec![terms(Some(INDEX), "ccy_margin", -4.0, 0.5, 1.0, 5)]);
    // 23:00 UTC on Monday, an hour after the rollover.
    assert!(module.process(MONDAY + 23 * HOUR, &ctx).is_empty());
    assert!(module.process(MONDAY + DAY + 22 * HOUR - 1, &ctx).is_empty());
    assert_eq!(amounts(&module.process(MONDAY + DAY + 22 * HOUR, &ctx)), vec![Some(-800)]);
    assert!(module.process(MONDAY + DAY + 22 * HOUR, &ctx).is_empty());
}

#[test]
fn every_listed_instant_is_charged_once() {
    let ctx = context(vec![position(INDEX, 2.0)], vec![instrument(INDEX, 100.0)]);
    let list = || vec![terms(Some(INDEX), "ccy_margin", -4.0, 0.5, 1.0, 5)];
    let end = MONDAY + 30 * DAY;
    let listed = cfd_roll_instants_ns(MONDAY + 1, end + 1);

    let mut stepwise = module(list());
    let mut charged: Vec<u64> = Vec::new();
    let mut ts_now = MONDAY;
    while ts_now <= end {
        if !stepwise.process(ts_now, &ctx).is_empty() {
            charged.push(ts_now);
        }
        ts_now += HOUR;
    }
    assert_eq!(charged, listed);

    let mut at_once = module(list());
    assert!(at_once.process(MONDAY, &ctx).is_empty());
    assert_eq!(at_once.process(end, &ctx).len(), listed.len());
}

#[test]
fn a_gap_over_the_weekend_is_charged_against_the_snapshot_before_it() {
    let mut module = module(vec![
        terms(Some(STOCK), "interest", -3.6, -1.0, 1.0, 5),
        terms(Some(INDEX), "ccy_margin", -4.0, 0.5, 0.0, 5),
    ]);
    let before = context(
        vec![position(STOCK, 10.0), position(INDEX, 1.0)],
        vec![instrument(STOCK, 1000.0), instrument(INDEX, 5.0)],
    );
    let after = context(vec![position(STOCK, -1.0)], vec![instrument(STOCK, 1.0)]);
    // From Friday noon to Monday 21:00 UTC, when the clocks have gone forward.
    assert!(module.process(MONDAY + 4 * DAY + 12 * HOUR, &before).is_empty());
    let charges = module.process(MONDAY + 7 * DAY + 21 * HOUR, &after);
    assert_eq!(charges[0].instrument_id, STOCK);
    // Friday's triple night before the gap, and Monday's night at the current exposure.
    assert_eq!(amounts(&charges), vec![Some(-300), Some(0)]);
    let adjustments = module.complete(charges, vec![Some(-300), Some(0)]);
    assert_eq!(adjustments, vec![Money { raw: -300, currency: USD }]);
}

#[test]
fn interest_needs_a_mark_and_margin_does_not() {
    let mut module = module(vec![
        terms(Some(STOCK), "interest", -3.6, -1.0, 1.0, 5),
        terms(Some(INDEX), "ccy_margin", -4.0, 0.5, 2.0, 5),
    ]);
    let mut stock = instrument(STOCK, 1.0);
    stock.last = None;
    let mut index = instrument(INDEX, 1.0);
    index.last = None;
    let ctx = context(vec![position(STOCK, 10.0), position(INDEX, -1.0)], vec![stock, index]);
    assert!(module.process(MONDAY, &ctx).is_empty());
    let charges = module.process(MONDAY + DAY, &ctx);
    assert_eq!(amounts(&charges), vec![Some(25)]);
    assert_eq!(charges[0].instrument_id, INDEX);
}

#[test]
fn swap_charges_are_converted_to_the_base_currency() {
    let mut index = instrument(INDEX, 1.0);
    index.xrate = Some(bits(0.25));
    let ctx = ExchangeContext::new(vec![position(INDEX, 1.0)], vec![index], Some(EUR));
    let mut module = module(vec![terms(Some(INDEX), "ccy_margin", -4.0, 0.5, 1.0, 5)]);
    assert!(module.process(MONDAY, &ctx).is_empty());
    let charges = module.process(MONDAY + DAY, &ctx);
    assert_eq!(charges[0].currency, EUR);
    assert_eq!(amounts(&charges), vec![Some(-100)]);
}

#[test]
fn reset_forgets_the_run() {
    let ctx = context(vec![position(INDEX, 2.0)], vec![instrument(INDEX, 100.0)]);
    let mut module = module(vec![terms(Some(INDEX), "ccy_margin", -4.0, 0.5, 1.0, 5)]);
    assert!(module.process(MONDAY, &ctx).is_empty());
    let charges = module.process(MONDAY + 2 * DAY, &ctx);
    let amounts = amounts(&charges);
    module.complete(charges, amounts);
    module.acknowledge(&vec![AccountAdjustmentOutcome::Applied, AccountAdjustmentOutcome::Failed]);
    assert_eq!(module.total_cost(), &vec![800]);
    assert_eq!(module.unapplied_cost(), &vec![800]);
    let listed: Vec<(u64, Vec<i128>)> = module.instrument_costs().into_iter().collect();
    assert_eq!(listed, vec![(INDEX, vec![800])]);
    module.reset();
    assert!(module.total_cost().is_empty());
    assert!(module.unapplied_cost().is_empty());
    assert!(module.instrument_costs().is_empty());
    assert!(module.process(MONDAY + 5 * DAY, &ctx).is_empty());
}

#[test]
fn a_module_without_terms_completes_an_empty_batch() {
    let mut module = module(Vec::new());
    let ctx = context(Vec::new(), Vec::new());
    assert!(module.process(u64::MAX, &ctx).is_empty());
    module.acknowledge(&Vec::new());
    assert!(module.total_cost().is_empty());
}

#[test]
fn the_epoch_starts_before_the_first_rollover() {
    let ctx = context(vec![position(INDEX, 1.0)], vec![instrument(INDEX, 100.0)]);
    let mut module = module(vec![terms(Some(INDEX), "ccy_margin", -4.0, 0.5, 1.0, 5)]);
    assert!(module.process(0, &ctx).is_empty());
    assert!(module.process(22 * HOUR - 1, &ctx).is_empty());
    assert_eq!(module.process(22 * HOUR, &ctx).len(), 1);
}

#[test]
fn a_second_call_at_the_same_time_charges_no_swap() {
    let ctx = context(vec![position(INDEX, 1.0)], vec![instrument(INDEX, 100.0)]);
    let mut module = module(vec![terms(Some(INDEX), "ccy_margin", -4.0, 0.5, 1.0, 5)]);
    assert!(module.process(MONDAY, &ctx).is_empty());
    assert_eq!(module.process(MONDAY + 3 * DAY, &ctx).len(), 3);
    assert!(module.process(MONDAY + 3 * DAY, &ctx).is_empty());
}

#[test]
fn an_acknowledgement_counts_every_swap_cost_once() {
    let ctx = context(
        vec![position(INDEX, 1.0), position(INDEX, -2.0)],
        vec![instrument(INDEX, 100.0)],
    );
    let mut module = module(vec![terms(Some(INDEX), "ccy_margin", -4.0, 0.5, 1.0, 5)]);
    assert!(module.process(MONDAY, &ctx).is_empty());
    let charges = module.process(MONDAY + DAY, &ctx);
    let amounts = amounts(&charges);
    let adjustments = module.complete(charges, amounts);
    module.acknowledge(&vec![AccountAdjustmentOutcome::Applied, AccountAdjustmentOutcome::Failed]);
    let paid: i128 = adjustments.iter().map(|adjustment| -adjustment.raw).sum();
    let applied: i128 = module.total_cost().iter().sum();
    let unapplied: i128 = module.unapplied_cost().iter().sum();
    assert_eq!((applied, unapplied), (400, -100));
    assert_eq!(applied + unapplied, paid);
}

#[test]
fn a_run_that_starts_at_a_rollover_is_charged_for_it() {
    let ctx = context(vec![position(INDEX, 2.0)], vec![instrument(INDEX, 100.0)]);
    let list = || vec![terms(Some(INDEX), "ccy_margin", -4.0, 0.5, 1.0, 5)];
    // Monday 22:00 UTC is the rollover of Monday.
    let roll = MONDAY + 22 * HOUR;
    assert_eq!(cfd_roll_instants_ns(roll, roll + 1), vec![roll]);
    let mut at_roll = module(list());
    assert_eq!(amounts(&at_roll.process(roll, &ctx)), vec![Some(-800)]);
    assert!(at_roll.process(roll + DAY - 1, &ctx).is_empty());
    assert_eq!(amounts(&at_roll.process(roll + DAY, &ctx)), vec![Some(-800)]);
    let mut after_roll = module(list());
    assert!(after_roll.process(roll + 1, &ctx).is_empty());
    let mut before_roll = module(list());
    assert!(before_roll.process(roll - 1, &ctx).is_empty());
    assert_eq!(amounts(&before_roll.process(roll, &ctx)), vec![Some(-800)]);
    // Saturday's rollover is not charged, and Friday's is tripled.
    let mut on_saturday = module(list());
    assert!(on_saturday.process(roll + 5 * DAY, &ctx).is_empty());
    let mut on_friday = module(list());
    assert_eq!(amounts(&on_friday.process(roll + 4 * DAY, &ctx)), vec![Some(-2400)]);
}

#[test]
fn each_call_charges_the_instants_listed_since_the_call_before() {
    let ctx = context(vec![position(INDEX, 1.0)], vec![instrument(INDEX, 100.0)]);
    let mut module = module(vec![terms(Some(INDEX), "ccy_margin", -4.0, 0.5, 1.0, 3)]);
    let calls = [
        MONDAY + 5,
        MONDAY + 22 * HOUR,
        MONDAY + 22 * HOUR,
        MONDAY + 3 * DAY,
        MONDAY + 6 * DAY,
        MONDAY + 15 * DAY,
    ];
    assert!(module.process(calls[0], &ctx).is_empty());
    let mut found: Vec<usize> = Vec::new();
    for pair in calls.windows(2) {
        let listed = cfd_roll_instants_ns(pair[0] + 1, pair[1] + 1);
        let charges = module.process(pair[1], &ctx);
        assert_eq!(charges.len(), listed.len());
        let triples = amounts(&charges).iter().filter(|raw| **raw == Some(-1200)).count();
        assert_eq!(triples, usize::from(listed.len() >= 2 && pair[0] < MONDAY + 2 * DAY)
            + usize::from(pair[1] == MONDAY + 15 * DAY));
        let adjustments = module.complete(charges, vec![Some(-1); listed.len()]);
        assert_eq!(adjustments.len(), listed.len());
        found.push(listed.len());
    }
    assert_eq!(found, vec![1, 0, 2, 2, 6]);
}
