use carry_costs::carry::{
    Book, BookPrice, ExchangeContext, Exposure, Instrument, Position,
};
use carry_costs::funding_rate::{
    funding_cash_flow, FundingCharge, FundingRateModule, ScheduleEntry, ScheduleError,
    ScheduleFault,
};
use carry_costs::ledger::{AccountAdjustmentOutcome, Money};
use carry_costs::number::{Formula, Real};

const USD: u32 = 840;
const EUR: u32 = 978;
const BTC: u64 = 1;
const ETH: u64 = 2;

fn bits(value: f64) -> Real {
    Real { bits: value.to_bits() }
}

fn number(value: f64) -> Formula {
    Formula::Number(bits(value))
}

fn cents(value: f64) -> Option<i128> {
    if value.is_finite() && value.abs() < 1e15 {
        Some((value * 100.0).round() as i128)
    } else {
        None
    }
}

fn eval(formula: &Formula) -> Option<f64> {
    Some(match formula {
        Formula::Number(number) => f64::from_bits(number.bits),
        Formula::Integer(integer) => f64::from(*integer),
        Formula::Negated(term) => -eval(term)?,
        Formula::Product(left, right) => eval(left)? * eval(right)?,
        Formula::Quotient(left, right) => eval(left)? / eval(right)?,
        Formula::Rounded(term, _) => cents(eval(term)?)? as f64 / 100.0,
    })
}

fn amounts(charges: &Vec<FundingCharge>) -> Vec<Option<i128>> {
    charges.iter().map(|charge| eval(&charge.amount).and_then(cents)).collect()
}

fn entry(id: Option<u64>, ts_ns: Vec<u64>, rates: &[f64]) -> ScheduleEntry {
    ScheduleEntry { instrument_id: id, ts_ns, rates: rates.iter().map(|rate| bits(*rate)).collect() }
}

fn exposure(signed_qty: f64) -> Exposure {
    Exposure {
        is_long: signed_qty > 0.0,
        signed_qty: bits(signed_qty),
        quantity: bits(signed_qty.abs()),
        multiplier: bits(1.0),
    }
}

fn position(id: u64, signed_qty: f64) -> Position {
    Position { instrument_id: id, exposure: exposure(signed_qty) }
}

fn instrument(id: u64, last: f64) -> Instrument {
    Instrument {
        id,
        quote_currency: USD,
        is_inverse: false,
        book: None,
        last: Some(bits(last)),
        xrate: None,
    }
}

fn context(positions: Vec<Position>, instruments: Vec<Instrument>) -> ExchangeContext {
    ExchangeContext::new(positions, instruments, None)
}

fn fault(schedule: Vec<ScheduleEntry>) -> ScheduleError {
    match FundingRateModule::new(schedule) {
        Ok(_) => panic!("the schedule was accepted"),
        Err(error) => error,
    }
}

fn module(schedule: Vec<ScheduleEntry>) -> FundingRateModule {
    match FundingRateModule::new(schedule) {
        Ok(module) => module,
        Err(error) => panic!("the schedule was refused: {error:?}"),
    }
}

#[test]
fn test_funding_long_pays_positive_rate() {
    assert_eq!(eval(&funding_cash_flow(bits(0.01), number(200.0), true)), Some(-2.0));
}

#[test]
fn test_funding_short_receives_positive_rate() {
    assert_eq!(eval(&funding_cash_flow(bits(0.01), number(200.0), false)), Some(2.0));
}

#[test]
fn test_funding_negative_rate_flips() {
    assert_eq!(eval(&funding_cash_flow(bits(-0.005), number(1000.0), true)), Some(5.0));
    assert_eq!(eval(&funding_cash_flow(bits(-0.005), number(1000.0), false)), Some(-5.0));
}

#[test]
fn test_funding_zero_rate_zero_flow() {
    assert_eq!(eval(&funding_cash_flow(bits(0.0), number(1000.0), true)), Some(0.0));
}

#[test]
fn test_schedule_length_mismatch_rejected() {
    let error = fault(vec![entry(Some(BTC), vec![1, 2], &[0.01])]);
    assert_eq!(
        error,
        ScheduleError { entry: 0, fault: ScheduleFault::LengthMismatch { timestamps: 2, rates: 1 } }
    );
}

#[test]
fn schedule_faults_are_told_apart() {
    assert_eq!(
        fault(vec![entry(Some(BTC), vec![1], &[0.1]), entry(None, vec![1, 2], &[0.01])]),
        ScheduleError { entry: 1, fault: ScheduleFault::InvalidInstrumentId }
    );
    assert_eq!(
        fault(vec![entry(Some(BTC), vec![1, 3, 2], &[0.1, 0.1, f64::NAN])]),
        ScheduleError { entry: 0, fault: ScheduleFault::NotAscending }
    );
    assert_eq!(
        fault(vec![entry(Some(BTC), vec![1, 2, 2], &[0.1, f64::NEG_INFINITY, f64::NAN])]),
        ScheduleError { entry: 0, fault: ScheduleFault::NotFinite { rate: bits(f64::NEG_INFINITY) } }
    );
    assert_eq!(
        fault(vec![
            entry(Some(BTC), vec![1], &[0.1]),
            entry(Some(ETH), vec![1], &[0.1]),
            entry(Some(BTC), vec![1], &[0.1]),
        ]),
        ScheduleError { entry: 2, fault: ScheduleFault::Duplicate }
    );
}

#[test]
fn test_reset_restores_pending_count() {
    let mut module = module(vec![entry(Some(BTC), vec![1, 2], &[0.01, 0.02])]);
    assert_eq!(module.pending(), 2);
    let ctx = context(vec![position(BTC, 2.0)], vec![instrument(BTC, 100.0)]);
    let charges = module.process(5, &ctx);
    assert_eq!(module.pending(), 0);
    let amounts = amounts(&charges);
    module.complete(charges, amounts);
    module.acknowledge(&vec![AccountAdjustmentOutcome::Applied; 2]);
    assert_eq!(module.total_cost(), &vec![200, 400]);
    module.reset();
    assert_eq!(module.pending(), 2);
    assert!(module.total_cost().is_empty());
    assert!(module.unapplied_cost().is_empty());
    assert!(module.settlements().is_empty());
    assert!(module.instrument_costs().is_empty());
    assert_eq!(module.process(1, &ctx).len(), 1);
}

#[test]
fn settlements_are_drained_once_over_several_calls() {
    let schedule = || vec![
        entry(Some(BTC), vec![10, 20, 20, 30], &[0.01, 0.01, 0.01, 0.01]),
        entry(Some(ETH), vec![15, 25], &[0.02, 0.02]),
    ];
    let ctx = context(
        vec![position(BTC, 1.0), position(ETH, -1.0)],
        vec![instrument(BTC, 100.0), instrument(ETH, 50.0)],
    );
    let mut stepwise = module(schedule());
    let mut seen: Vec<(u64, u64)> = Vec::new();
    for ts_now in [5, 10, 20, 24, 40] {
        for charge in stepwise.process(ts_now, &ctx) {
            assert!(charge.ts_settle <= ts_now);
            seen.push((charge.instrument_id, charge.ts_settle));
        }
    }
    let mut at_once = module(schedule());
    let mut all: Vec<(u64, u64)> =
        at_once.process(40, &ctx).iter().map(|c| (c.instrument_id, c.ts_settle)).collect();
    seen.sort();
    all.sort();
    assert_eq!(seen, all);
    assert_eq!(all, vec![(BTC, 10), (BTC, 20), (BTC, 20), (BTC, 30), (ETH, 15), (ETH, 25)]);
    assert_eq!(stepwise.pending(), 0);
    assert!(stepwise.process(50, &ctx).is_empty());
}

#[test]
fn a_gap_is_charged_against_the_snapshot_before_it() {
    let mut module = module(vec![entry(Some(BTC), vec![10, 20], &[0.01, 0.01])]);
    let before = context(vec![position(BTC, 3.0)], vec![instrument(BTC, 100.0)]);
    let after = context(vec![position(BTC, -1.0)], vec![instrument(BTC, 500.0)]);
    assert!(module.process(5, &before).is_empty());
    let charges = module.process(20, &after);
    // The settlement at 10 fell in the gap, and the one at 20 did not.
    assert_eq!(amounts(&charges), vec![Some(-300), Some(500)]);
}

#[test]
fn an_inverse_instrument_is_charged_at_the_live_mark() {
    let mut inverse = instrument(BTC, 100.0);
    inverse.is_inverse = true;
    let before = context(vec![position(BTC, 3.0)], vec![inverse]);
    inverse.last = Some(bits(200.0));
    let after = context(Vec::new(), vec![inverse]);
    let mut module = module(vec![entry(Some(BTC), vec![10, 20], &[0.01, 0.01])]);
    assert!(module.process(5, &before).is_empty());
    assert_eq!(amounts(&module.process(15, &after)), vec![Some(-600)]);
}

#[test]
fn the_first_call_has_no_gap() {
    let mut module = module(vec![entry(Some(BTC), vec![10], &[0.01])]);
    let ctx = context(vec![position(BTC, 3.0)], vec![instrument(BTC, 100.0)]);
    assert_eq!(amounts(&module.process(50, &ctx)), vec![Some(-300)]);
}

#[test]
fn positions_without_mark_or_schedule_are_not_charged() {
    let mut unmarked = instrument(BTC, 1.0);
    unmarked.last = None;
    unmarked.book = Some(Book {
        midpoint: BookPrice::Absent,
        best_bid: BookPrice::Absent,
        best_ask: BookPrice::Absent,
    });
    let ctx = context(
        vec![position(BTC, 1.0), position(ETH, 1.0), position(9, 1.0)],
        vec![unmarked, instrument(9, 10.0)],
    );
    let mut module = module(vec![
        entry(Some(BTC), vec![10], &[0.01]),
        entry(Some(ETH), vec![10], &[0.01]),
    ]);
    assert!(module.process(10, &ctx).is_empty());
    assert_eq!(module.pending(), 0);
}

#[test]
fn a_zero_rate_is_not_charged() {
    let ctx = context(vec![position(BTC, 1.0)], vec![instrument(BTC, 10.0)]);
    let mut module = module(vec![entry(Some(BTC), vec![10, 11, 12], &[0.0, -0.0, 1.0])]);
    let charges = module.process(12, &ctx);
    assert_eq!(charges.len(), 1);
    assert_eq!(charges[0].ts_settle, 12);
}

#[test]
fn funding_charges_are_converted_to_the_base_currency() {
    let mut converted = instrument(BTC, 100.0);
    converted.xrate = Some(bits(0.5));
    let ctx = ExchangeContext::new(vec![position(BTC, 2.0)], vec![converted], Some(EUR));
    let mut module = module(vec![entry(Some(BTC), vec![10], &[0.01])]);
    let charges = module.process(10, &ctx);
    assert_eq!(charges[0].currency, EUR);
    assert_eq!(amounts(&charges), vec![Some(-100)]);
}

#[test]
fn completed_batches_drop_zero_and_invalid_amounts() {
    let mut module = module(vec![entry(Some(BTC), vec![10], &[0.01])]);
    let ctx = context(
        vec![position(BTC, 1.0), position(BTC, -2.0), position(BTC, 3.0)],
        vec![instrument(BTC, 100.0)],
    );
    let charges = module.process(10, &ctx);
    assert_eq!(charges.len(), 3);
    let adjustments = module.complete(charges, vec![None, Some(0), Some(-7)]);
    assert_eq!(adjustments, vec![Money { raw: -7, currency: USD }]);
}

#[test]
fn acknowledged_costs_balance() {
    let mut module = module(vec![
        entry(Some(ETH), vec![10, 30], &[0.01, 0.01]),
        entry(Some(BTC), vec![20], &[0.01]),
    ]);
    let ctx = context(
        vec![position(BTC, 1.0), position(ETH, -2.0), position(BTC, 5.0)],
        vec![instrument(BTC, 100.0), instrument(ETH, 10.0)],
    );
    let charges = module.process(30, &ctx);
    let amounts = amounts(&charges);
    assert_eq!(amounts, vec![Some(20), Some(20), Some(-100), Some(-500)]);
    let adjustments = module.complete(charges, amounts);
    assert_eq!(adjustments.len(), 4);
    module.acknowledge(&vec![
        AccountAdjustmentOutcome::Applied,
        AccountAdjustmentOutcome::Failed,
        AccountAdjustmentOutcome::Applied,
        AccountAdjustmentOutcome::Applied,
    ]);
    assert_eq!(module.total_cost(), &vec![-20, 100, 500]);
    assert_eq!(module.unapplied_cost(), &vec![-20]);
    assert_eq!(module.settlements(), &vec![(10, -20), (20, 100), (20, 500)]);
    let costs = module.instrument_costs();
    let listed: Vec<(u64, Vec<i128>)> = costs.into_iter().collect();
    assert_eq!(listed, vec![(ETH, vec![-20]), (BTC, vec![100, 500])]);
}

#[test]
fn a_drained_module_completes_an_empty_batch() {
    let mut module = module(Vec::new());
    let ctx = context(Vec::new(), Vec::new());
    assert!(module.process(10, &ctx).is_empty());
    module.acknowledge(&Vec::new());
    assert!(module.total_cost().is_empty());
}

#[test]
fn a_second_call_at_the_same_time_charges_no_funding() {
    let mut module = module(vec![
        entry(Some(BTC), vec![10, 10, 20], &[0.01, 0.02, 0.01]),
        entry(Some(ETH), vec![5, 30], &[0.01, 0.01]),
    ]);
    let ctx = context(
        vec![position(BTC, 1.0), position(ETH, 1.0)],
        vec![instrument(BTC, 100.0), instrument(ETH, 10.0)],
    );
    assert_eq!(module.process(20, &ctx).len(), 4);
    assert!(module.process(20, &ctx).is_empty());
    assert_eq!(module.pending(), 1);
}

#[test]
fn an_acknowledgement_counts_every_funding_cost_once() {
    let mut module = module(vec![entry(Some(BTC), vec![10], &[0.01])]);
    let ctx = context(
        vec![position(BTC, 1.0), position(BTC, 2.0), position(BTC, -4.0)],
        vec![instrument(BTC, 100.0)],
    );
    let charges = module.process(10, &ctx);
    let amounts = amounts(&charges);
    let adjustments = module.complete(charges, amounts);
    module.acknowledge(&vec![
        AccountAdjustmentOutcome::Failed,
        AccountAdjustmentOutcome::Applied,
        AccountAdjustmentOutcome::Failed,
    ]);
    let paid: i128 = adjustments.iter().map(|adjustment| -adjustment.raw).sum();
    let applied: i128 = module.total_cost().iter().sum();
    let unapplied: i128 = module.unapplied_cost().iter().sum();
    assert_eq!((applied, unapplied), (200, -300));
    assert_eq!(applied + unapplied, paid);
}

#[test]
fn the_settlements_of_an_instrument_never_go_back() {
    let ctx = context(
        vec![position(BTC, 1.0), position(ETH, 1.0)],
        vec![instrument(BTC, 100.0), instrument(ETH, 1000.0)],
    );
    let mut module = module(vec![
        entry(Some(BTC), vec![10, 20, 20, 40], &[0.01, 0.02, 0.03, 0.04]),
        entry(Some(ETH), vec![5, 30], &[0.01, 0.02]),
    ]);
    for ts_now in [15, 12, 35, 50] {
        let charges = module.process(ts_now, &ctx);
        let amounts = amounts(&charges);
        let count = charges.len();
        module.complete(charges, amounts);
        module.acknowledge(&vec![AccountAdjustmentOutcome::Applied; count]);
    }
    assert_eq!(
        module.settlements(),
        &vec![(10, 100), (5, 1000), (20, 200), (20, 300), (30, 2000), (40, 400)],
    );
    assert_eq!(module.total_cost(), &vec![100, 1000, 200, 300, 2000, 400]);
}
