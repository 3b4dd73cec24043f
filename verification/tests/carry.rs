use carry_costs::carry::{
    exposure_notional_abs, mark_price, resolve_mark, snapshot_exposures, to_base, Book, BookPrice,
    ExchangeContext, Exposure, Instrument, Position, Snapshot,
};
use carry_costs::number::{Formula, Real};

const USD: u32 = 840;
const EUR: u32 = 978;

fn bits(value: f64) -> Real {
    Real { bits: value.to_bits() }
}

fn valid(value: f64) -> BookPrice {
    BookPrice::Valid(bits(value))
}

fn exposure(signed_qty: f64) -> Exposure {
    Exposure {
        is_long: signed_qty > 0.0,
        signed_qty: bits(signed_qty),
        quantity: bits(signed_qty.abs()),
        multiplier: bits(10.0),
    }
}

fn position(instrument_id: u64, signed_qty: f64) -> Position {
    Position { instrument_id, exposure: exposure(signed_qty) }
}

fn instrument(id: u64, book: Option<Book>, last: Option<f64>) -> Instrument {
    Instrument {
        id,
        quote_currency: USD,
        is_inverse: false,
        book,
        last: last.map(bits),
        xrate: None,
    }
}

fn book(midpoint: BookPrice, best_bid: BookPrice, best_ask: BookPrice) -> Option<Book> {
    Some(Book { midpoint, best_bid, best_ask })
}

#[test]
fn kept_positions_are_grouped_in_order() {
    let positions = vec![position(7, 1.0), position(8, 2.0), position(7, -3.0), position(9, 4.0)];
    let ctx = ExchangeContext::new(positions, Vec::new(), None);
    let groups = snapshot_exposures(&ctx, |id| *id != 8);
    assert_eq!(groups.len(), 2);
    assert_eq!(groups.get(&7), Some(&vec![exposure(1.0), exposure(-3.0)]));
    assert_eq!(groups.get(&9), Some(&vec![exposure(4.0)]));
    assert!(groups.get(&8).is_none());
}

#[test]
fn an_instrument_is_found_by_its_number() {
    let ctx = ExchangeContext::new(
        Vec::new(),
        vec![instrument(3, None, Some(1.0)), instrument(4, None, None), instrument(3, None, Some(2.0))],
        Some(EUR),
    );
    assert_eq!(ctx.instrument(3), Some(instrument(3, None, Some(2.0))));
    assert_eq!(ctx.instrument(4), Some(instrument(4, None, None)));
    assert_eq!(ctx.instrument(5), None);
    assert_eq!(ctx.base_currency(), Some(EUR));
}

#[test]
fn the_mark_is_the_first_price_there_is() {
    let absent = BookPrice::Absent;
    let mark = |book, last| mark_price(&instrument(1, book, last));
    assert_eq!(mark(book(valid(1.0), valid(2.0), valid(3.0)), Some(4.0)), Some(bits(1.0)));
    assert_eq!(mark(book(absent, valid(2.0), valid(3.0)), Some(4.0)), Some(bits(2.0)));
    assert_eq!(mark(book(absent, absent, valid(3.0)), Some(4.0)), Some(bits(3.0)));
    assert_eq!(mark(book(absent, absent, absent), Some(4.0)), Some(bits(4.0)));
    assert_eq!(mark(None, Some(4.0)), Some(bits(4.0)));
    assert_eq!(mark(None, None), None);
    assert_eq!(mark(book(BookPrice::Invalid, valid(2.0), valid(3.0)), Some(4.0)), None);
    assert_eq!(mark(book(absent, BookPrice::Invalid, valid(3.0)), Some(4.0)), None);
}

#[test]
fn the_snapshot_mark_is_preferred_where_it_applies() {
    let mut snapshot = Snapshot::default();
    snapshot.marks.insert(1, bits(9.0));
    let live = instrument(1, None, Some(4.0));
    assert_eq!(resolve_mark(1, &live, &snapshot, true), Some(bits(9.0)));
    assert_eq!(resolve_mark(1, &live, &snapshot, false), Some(bits(4.0)));
    let other = instrument(2, None, Some(4.0));
    assert_eq!(resolve_mark(2, &other, &snapshot, true), Some(bits(4.0)));
}

#[test]
fn amounts_are_converted_where_the_base_differs() {
    let amount = || Formula::Number(bits(8.0));
    assert!(matches!(to_base(None, None, amount(), USD), (Formula::Number(_), USD)));
    assert!(matches!(to_base(Some(USD), None, amount(), USD), (Formula::Number(_), USD)));
    assert!(matches!(to_base(Some(EUR), None, amount(), USD), (Formula::Integer(0), EUR)));
    assert!(matches!(
        to_base(Some(EUR), Some(bits(-0.0)), amount(), USD),
        (Formula::Integer(0), EUR)
    ));
    match to_base(Some(EUR), Some(bits(0.5)), amount(), USD) {
        (Formula::Product(left, right), EUR) => {
            assert!(matches!(*left, Formula::Number(n) if n == bits(8.0)));
            assert!(matches!(*right, Formula::Number(n) if n == bits(0.5)));
        }
        other => panic!("unexpected {other:?}"),
    }
}

#[test]
fn the_notional_is_rounded_to_the_quote_currency() {
    match exposure_notional_abs(&exposure(-2.0), bits(3.0), USD) {
        Formula::Rounded(product, USD) => match *product {
            Formula::Product(contracts, mark) => {
                assert!(matches!(*mark, Formula::Number(n) if n == bits(3.0)));
                match *contracts {
                    Formula::Product(quantity, multiplier) => {
                        assert!(matches!(*quantity, Formula::Number(n) if n == bits(2.0)));
                        assert!(matches!(*multiplier, Formula::Number(n) if n == bits(10.0)));
                    }
                    other => panic!("unexpected {other:?}"),
                }
            }
            other => panic!("unexpected {other:?}"),
        },
        other => panic!("unexpected {other:?}"),
    }
}

#[test]
fn numbers_are_told_apart_by_their_bits() {
    for value in [0.0, -0.0, 1.0, -2.5, f64::MIN_POSITIVE, 5e-324, f64::MAX, -f64::MAX] {
        assert!(bits(value).is_finite());
        assert_eq!(bits(value).is_zero(), value == 0.0);
        assert_eq!(bits(value).is_sign_negative(), value.is_sign_negative());
        assert_eq!(bits(value).abs(), bits(value.abs()));
    }
    for value in [f64::NAN, f64::INFINITY, f64::NEG_INFINITY] {
        assert!(!bits(value).is_finite());
        assert!(!bits(value).is_zero());
    }
}
