//! Shared exposure, mark and currency helpers for the carry cost modules.

use ahash::AHashMap;
use vstd::prelude::*;

use crate::number::{Currency, Formula, Real};

verus! {

/// An instrument, by the host's number for it.
pub type InstrumentId = u64;

/// Value copy of one open position's carry inputs.
#[derive(Debug, Clone, Copy, PartialEq, Eq, Structural)]
pub struct Exposure {
    /// Whether the position was long.
    pub is_long: bool,
    /// The signed position quantity.
    pub signed_qty: Real,
    /// The absolute position quantity, rounded to the size precision.
    pub quantity: Real,
    /// The instrument multiplier.
    pub multiplier: Real,
}

/// One open venue position.
#[derive(Debug, Clone, Copy, PartialEq, Eq, Structural)]
pub struct Position {
    /// The instrument of the position.
    pub instrument_id: InstrumentId,
    /// The carry inputs of the position.
    pub exposure: Exposure,
}

/// A price off the order book, rounded to the price precision of the instrument.
#[derive(Debug, Clone, Copy, PartialEq, Eq, Structural)]
pub enum BookPrice {
    /// The book has no such price.
    Absent,
    /// The book has such a price, but the instrument cannot hold it.
    Invalid,
    /// The price.
    Valid(Real),
}

/// The top of an order book.
#[derive(Debug, Clone, Copy, PartialEq, Eq, Structural)]
pub struct Book {
    pub midpoint: BookPrice,
    pub best_bid: BookPrice,
    pub best_ask: BookPrice,
}

/// What the host knows of an instrument at one instant.
#[derive(Debug, Clone, Copy, PartialEq, Eq, Structural)]
pub struct Instrument {
    /// The instrument.
    pub id: InstrumentId,
    /// The currency in which it is quoted.
    pub quote_currency: Currency,
    /// Whether its notional is in its base currency.
    pub is_inverse: bool,
    /// The top of its book, where a matching engine runs for it.
    pub book: Option<Book>,
    /// The cached last price.
    pub last: Option<Real>,
    /// The middle exchange rate from its quote currency to the account base currency, where the
    /// host has one.
    pub xrate: Option<Real>,
}

/// The declaration of `ahash::AHashMap`.
#[verifier::external_type_specification]
#[verifier::external_body]
#[verifier::reject_recursive_types(K)]
#[verifier::reject_recursive_types(V)]
#[verifier::reject_recursive_types(S)]
pub struct ExAHashMap<K, V, S>(ahash::AHashMap<K, V, S>);

/// The declaration of `ahash::RandomState`.
#[verifier::external_type_specification]
#[verifier::external_body]
pub struct ExRandomState(ahash::RandomState);

/// The positions that a map from instruments holds.
pub uninterp spec fn indexed(map: AHashMap<InstrumentId, usize>) -> Map<InstrumentId, usize>;

/// The exposures that a map from instruments holds.
pub uninterp spec fn grouped(map: AHashMap<InstrumentId, Vec<Exposure>>) -> Map<
    InstrumentId,
    Seq<Exposure>,
>;

/// The marks that a map from instruments holds.
pub uninterp spec fn marked(map: AHashMap<InstrumentId, Real>) -> Map<InstrumentId, Real>;

/// Calls `ahash::AHashMap::with_capacity`, which makes a map without entries.
#[verifier::external_body]
pub(crate) fn index_with_capacity(capacity: usize) -> (map: AHashMap<InstrumentId, usize>)
    ensures
        indexed(map).dom() == Set::<InstrumentId>::empty(),
{
    AHashMap::with_capacity(capacity)
}

/// Calls `ahash::AHashMap::insert`, which binds a key and returns what it was bound to before.
#[verifier::external_body]
pub(crate) fn index_insert(
    map: &mut AHashMap<InstrumentId, usize>,
    id: InstrumentId,
    position: usize,
) -> (before: Option<usize>)
    ensures
        indexed(*final(map)) == indexed(*old(map)).insert(id, position),
        before is Some <==> indexed(*old(map)).contains_key(id),
        before is Some ==> before->0 == indexed(*old(map))[id],
{
    map.insert(id, position)
}

/// Calls `ahash::AHashMap::get`, which returns what a key is bound to.
#[verifier::external_body]
pub(crate) fn index_get(map: &AHashMap<InstrumentId, usize>, id: InstrumentId) -> (position: Option<
    usize,
>)
    ensures
        position is Some <==> indexed(*map).contains_key(id),
        position is Some ==> position->0 == indexed(*map)[id],
{
    map.get(&id).copied()
}

/// Calls `ahash::AHashMap::new`, which makes a map without entries.
#[verifier::external_body]
fn groups_new() -> (map: AHashMap<InstrumentId, Vec<Exposure>>)
    ensures
        grouped(map).dom() == Set::<InstrumentId>::empty(),
{
    AHashMap::new()
}

/// Calls `entry` of the map inside `ahash::AHashMap` and `Entry::or_default`, which reach the
/// value of a key and bind the key to an empty vector where the map lacks it.
#[verifier::external_body]
fn groups_entry(map: &mut AHashMap<InstrumentId, Vec<Exposure>>, id: InstrumentId) -> (group:
    &mut Vec<Exposure>)
    ensures
        group@ == group_or_empty(grouped(*old(map)), id),
        grouped(*final(map)) == grouped(*old(map)).insert(id, final(group)@),
{
    map.entry(id).or_default()
}

/// Calls `ahash::AHashMap::get`, which returns what a key is bound to.
#[verifier::external_body]
pub(crate) fn groups_get(map: &AHashMap<InstrumentId, Vec<Exposure>>, id: InstrumentId) -> (group:
    Option<&Vec<Exposure>>)
    ensures
        group is Some <==> grouped(*map).contains_key(id),
        group is Some ==> group->0@ == grouped(*map)[id],
{
    map.get(&id)
}

/// Calls `keys` of the map inside `ahash::AHashMap`, which lists every key once; the order is
/// left open.
#[verifier::external_body]
pub(crate) fn groups_keys(map: &AHashMap<InstrumentId, Vec<Exposure>>) -> (ids: Vec<InstrumentId>)
    ensures
        ids@.no_duplicates(),
        ids@.to_set() == grouped(*map).dom(),
{
    map.keys().copied().collect()
}

/// Calls `ahash::AHashMap::new`, which makes a map without entries.
#[verifier::external_body]
pub(crate) fn marks_new() -> (map: AHashMap<InstrumentId, Real>)
    ensures
        marked(map).dom() == Set::<InstrumentId>::empty(),
{
    AHashMap::new()
}

/// Calls `ahash::AHashMap::insert`, which binds a key.
#[verifier::external_body]
pub(crate) fn marks_insert(map: &mut AHashMap<InstrumentId, Real>, id: InstrumentId, mark: Real)
    ensures
        marked(*final(map)) == marked(*old(map)).insert(id, mark),
{
    map.insert(id, mark);
}

/// Calls `ahash::AHashMap::get`, which returns what a key is bound to.
#[verifier::external_body]
fn marks_get(map: &AHashMap<InstrumentId, Real>, id: InstrumentId) -> (mark: Option<Real>)
    ensures
        mark is Some <==> marked(*map).contains_key(id),
        mark is Some ==> mark->0 == marked(*map)[id],
{
    map.get(&id).copied()
}

/// The exposures of an instrument, none where it has no group.
pub open spec fn group_or_empty(
    groups: Map<InstrumentId, Seq<Exposure>>,
    id: InstrumentId,
) -> Seq<Exposure> {
    if groups.contains_key(id) { groups[id] } else { Seq::empty() }
}

/// One process call's carry inputs.
#[verifier::ext_equal]
pub struct SnapshotModel {
    /// Open positions grouped by instrument, in cache order.
    pub exposures: Map<InstrumentId, Seq<Exposure>>,
    /// The mark resolved for an instrument at the same instant as the exposure.
    pub marks: Map<InstrumentId, Real>,
}

/// One process call's carry inputs, captured by value.
///
/// A missing mark means the snapshot has no mark for that instrument, on which consumers fall
/// back to a live read. Which instruments are priced is the owning module's policy.
#[derive(Debug)]
pub struct Snapshot {
    /// Open positions grouped by instrument, in cache order.
    pub exposures: AHashMap<InstrumentId, Vec<Exposure>>,
    /// The mark resolved for an instrument at the same instant as the exposure.
    pub marks: AHashMap<InstrumentId, Real>,
}

impl View for Snapshot {
    type V = SnapshotModel;

    open spec fn view(&self) -> SnapshotModel {
        SnapshotModel { exposures: grouped(self.exposures), marks: marked(self.marks) }
    }
}

impl Default for Snapshot {
    fn default() -> (snapshot: Snapshot)
        ensures
            snapshot@ == (SnapshotModel { exposures: Map::empty(), marks: Map::empty() }),
    {
        let snapshot = Snapshot { exposures: groups_new(), marks: marks_new() };
        assert(snapshot@ =~= (SnapshotModel { exposures: Map::empty(), marks: Map::empty() }));
        snapshot
    }
}

/// The state of the venue at one instant.
#[verifier::ext_equal]
pub struct ContextModel {
    /// The open positions of the venue, in cache order.
    pub positions: Seq<Position>,
    /// The instruments of the venue.
    pub instruments: Map<InstrumentId, Instrument>,
    /// The account base currency, which a multi-currency account lacks.
    pub base_currency: Option<Currency>,
}

/// The state of the venue at one instant, as the host hands it over.
#[derive(Debug)]
pub struct ExchangeContext {
    positions: Vec<Position>,
    instruments: Vec<Instrument>,
    index_of: AHashMap<InstrumentId, usize>,
    base_currency: Option<Currency>,
}

/// The instruments of a list by their numbers; the last one counts where two share a number.
pub open spec fn by_id(instruments: Seq<Instrument>) -> Map<InstrumentId, Instrument>
    decreases instruments.len(),
{
    if instruments.len() == 0 {
        Map::empty()
    } else {
        by_id(instruments.drop_last()).insert(instruments.last().id, instruments.last())
    }
}

impl View for ExchangeContext {
    type V = ContextModel;

    closed spec fn view(&self) -> ContextModel {
        ContextModel {
            positions: self.positions@,
            instruments: by_id(self.instruments@),
            base_currency: self.base_currency,
        }
    }
}

/// Whether a map leads from each instrument's number to the instrument in the list.
spec fn index_matches(index: Map<InstrumentId, usize>, instruments: Seq<Instrument>) -> bool {
    &&& index.dom() == by_id(instruments).dom()
    &&& forall|id: InstrumentId| #[trigger]
        index.contains_key(id) ==> index[id] < instruments.len() && instruments[index[id] as int]
            == by_id(instruments)[id]
}

impl ExchangeContext {
    #[verifier::type_invariant]
    spec fn index_invariant(self) -> bool {
        index_matches(indexed(self.index_of), self.instruments@)
    }

    /// Creates a context from the open positions and the instruments of the venue.
    pub fn new(
        positions: Vec<Position>,
        instruments: Vec<Instrument>,
        base_currency: Option<Currency>,
    ) -> (ctx: ExchangeContext)
        ensures
            ctx@ == (ContextModel {
                positions: positions@,
                instruments: by_id(instruments@),
                base_currency,
            }),
    {
        let mut index_of = index_with_capacity(instruments.len());
        let ghost all = instruments@;
        assert(all.take(0) =~= Seq::empty());
        for i in 0..instruments.len()
            invariant
                all == instruments@,
                index_matches(indexed(index_of), all.take(i as int)),
        {
            let ghost before = all.take(i as int);
            let ghost after = all.take(i + 1);
            assert(after.drop_last() =~= before);
            index_insert(&mut index_of, instruments[i].id, i);
            assert forall|id: InstrumentId| #[trigger] indexed(index_of).contains_key(id) implies
                indexed(index_of)[id] < after.len() && after[indexed(index_of)[id] as int] == by_id(
                after,
            )[id] by {
                if id != all[i as int].id {
                    assert(after[indexed(index_of)[id] as int] == before[indexed(
                        index_of,
                    )[id] as int]);
                }
            }
            assert(indexed(index_of).dom() =~= by_id(after).dom());
        }
        assert(all.take(all.len() as int) =~= all);
        ExchangeContext { positions, instruments, index_of, base_currency }
    }

    /// Returns an instrument of the venue.
    pub fn instrument(&self, id: InstrumentId) -> (instrument: Option<Instrument>)
        ensures
            instrument == (if self@.instruments.contains_key(id) {
                Some(self@.instruments[id])
            } else {
                None
            }),
    {
        proof {
            use_type_invariant(self);
        }
        match index_get(&self.index_of, id) {
            Some(i) => Some(self.instruments[i]),
            None => None,
        }
    }

    /// Returns the account base currency.
    pub fn base_currency(&self) -> (currency: Option<Currency>)
        ensures
            currency == self@.base_currency,
    {
        self.base_currency
    }
}

/// The exposures of an instrument among the kept positions, in cache order.
pub open spec fn exposures_of(
    positions: Seq<Position>,
    kept: Seq<bool>,
    id: InstrumentId,
) -> Seq<Exposure>
    decreases positions.len(),
{
    if positions.len() == 0 {
        Seq::empty()
    } else {
        let before = exposures_of(positions.drop_last(), kept.drop_last(), id);
        if kept.last() && positions.last().instrument_id == id {
            before.push(positions.last().exposure)
        } else {
            before
        }
    }
}

/// The kept positions, grouped by instrument.
pub open spec fn group_exposures(positions: Seq<Position>, kept: Seq<bool>) -> Map<
    InstrumentId,
    Seq<Exposure>,
> {
    Map::new(
        |id: InstrumentId| exposures_of(positions, kept, id).len() > 0,
        |id: InstrumentId| exposures_of(positions, kept, id),
    )
}

/// Each kept position is in the group of its instrument.
pub proof fn law_kept_positions_grouped(positions: Seq<Position>, kept: Seq<bool>, i: int)
    requires
        kept.len() == positions.len(),
        0 <= i < positions.len(),
        kept[i],
    ensures
        ({
            let groups = group_exposures(positions, kept);
            &&& groups.contains_key(positions[i].instrument_id)
            &&& groups[positions[i].instrument_id].contains(positions[i].exposure)
        }),
    decreases positions.len(),
{
    let id = positions[i].instrument_id;
    let before = exposures_of(positions.drop_last(), kept.drop_last(), id);
    let all = exposures_of(positions, kept, id);
    if i < positions.len() - 1 {
        law_kept_positions_grouped(positions.drop_last(), kept.drop_last(), i);
        let j = choose|j: int| 0 <= j < before.len() && before[j] == positions[i].exposure;
        assert(all[j] == positions[i].exposure);
    } else {
        assert(all[all.len() - 1] == positions[i].exposure);
    }
}

/// Each exposure in a group is that of a kept position in the instrument.
pub proof fn law_grouped_exposures_kept(
    positions: Seq<Position>,
    kept: Seq<bool>,
    id: InstrumentId,
    exposure: Exposure,
)
    requires
        kept.len() == positions.len(),
        group_exposures(positions, kept).contains_key(id),
        group_exposures(positions, kept)[id].contains(exposure),
    ensures
        exists|i: int|
            0 <= i < positions.len() && kept[i] && #[trigger] positions[i] == (Position {
                instrument_id: id,
                exposure,
            }),
    decreases positions.len(),
{
    let before = exposures_of(positions.drop_last(), kept.drop_last(), id);
    let all = exposures_of(positions, kept, id);
    let j = choose|j: int| 0 <= j < all.len() && all[j] == exposure;
    if j < before.len() {
        assert(before[j] == exposure);
        law_grouped_exposures_kept(positions.drop_last(), kept.drop_last(), id, exposure);
        let i = choose|i: int|
            0 <= i < positions.len() - 1 && kept.drop_last()[i] && #[trigger] positions.drop_last()[i]
                == (Position { instrument_id: id, exposure });
        assert(positions[i] == positions.drop_last()[i] && kept[i]);
    } else {
        assert(positions[positions.len() - 1] == (Position { instrument_id: id, exposure }));
    }
}

/// Whether a closure can answer as listed for the instruments of the positions.
pub open spec fn answers<F: Fn(&InstrumentId) -> bool>(
    keep: F,
    positions: Seq<Position>,
    kept: Seq<bool>,
) -> bool {
    &&& kept.len() == positions.len()
    &&& forall|i: int|
        0 <= i < kept.len() ==> call_ensures(
            keep,
            (&positions[i].instrument_id,),
            #[trigger] kept[i],
        )
}

/// Groups every open venue position matching `keep` into value copies.
pub fn snapshot_exposures<F: Fn(&InstrumentId) -> bool>(ctx: &ExchangeContext, keep: F) -> (groups:
    AHashMap<InstrumentId, Vec<Exposure>>)
    requires
        forall|id: InstrumentId| #[trigger] call_requires(keep, (&id,)),
    ensures
        exists|kept: Seq<bool>| #[trigger]
            answers(keep, ctx@.positions, kept) && grouped(groups) == group_exposures(
                ctx@.positions,
                kept,
            ),
{
    let mut groups = groups_new();
    let ghost positions = ctx.positions@;
    let ghost mut kept = Seq::<bool>::empty();
    assert(grouped(groups) =~= group_exposures(positions.take(0), kept));
    for i in 0..ctx.positions.len()
        invariant
            positions == ctx.positions@,
            forall|id: InstrumentId| #[trigger] call_requires(keep, (&id,)),
            answers(keep, positions.take(i as int), kept),
            grouped(groups) == group_exposures(positions.take(i as int), kept),
    {
        let ghost before = positions.take(i as int);
        let ghost after = positions.take(i + 1);
        let ghost old_kept = kept;
        let ghost old_groups = grouped(groups);
        let position = ctx.positions[i];
        let keeps = keep(&position.instrument_id);
        proof {
            kept = kept.push(keeps);
            assert(after.drop_last() =~= before);
            assert(kept.drop_last() =~= old_kept);
            assert forall|j: int| 0 <= j < kept.len() implies call_ensures(
                keep,
                (&after[j].instrument_id,),
                #[trigger] kept[j],
            ) by {
                if j < i {
                    assert(after[j] == before[j]);
                    assert(old_kept[j] == kept[j]);
                }
            }
        }
        if keeps {
            groups_entry(&mut groups, position.instrument_id).push(position.exposure);
        }
        proof {
            assert forall|id: InstrumentId| #[trigger]
                exposures_of(after, kept, id) == (if keeps && id == position.instrument_id {
                    exposures_of(before, old_kept, id).push(position.exposure)
                } else {
                    exposures_of(before, old_kept, id)
                }) by {
                assert(kept.last() == keeps && after.last() == position);
            }
            let grown = group_exposures(after, kept);
            assert(group_or_empty(old_groups, position.instrument_id) =~= exposures_of(
                before,
                old_kept,
                position.instrument_id,
            ));
            assert(grouped(groups) =~= grown);
        }
    }
    proof {
        assert(positions.take(positions.len() as int) =~= positions);
        assert(answers(keep, ctx@.positions, kept));
    }
    groups
}

/// The best available mark of an instrument: the first of the book midpoint, the best bid and
/// the best ask that the book has, else the last price.
pub open spec fn mark_of(instrument: Instrument) -> Option<Real> {
    match instrument.book {
        Some(book) => {
            let first = if book.midpoint !is Absent {
                book.midpoint
            } else if book.best_bid !is Absent {
                book.best_bid
            } else {
                book.best_ask
            };
            match first {
                BookPrice::Absent => instrument.last,
                BookPrice::Invalid => None,
                BookPrice::Valid(price) => Some(price),
            }
        },
        None => instrument.last,
    }
}

/// Returns the best available mark for an instrument.
///
/// Book midpoint, then best bid, then best ask, then the cached last price. A book price that
/// the instrument cannot hold leaves it without a mark.
pub fn mark_price(instrument: &Instrument) -> (mark: Option<Real>)
    ensures
        mark == mark_of(*instrument),
{
    if let Some(book) = instrument.book {
        let mid = match book.midpoint {
            BookPrice::Absent => match book.best_bid {
                BookPrice::Absent => book.best_ask,
                bid => bid,
            },
            midpoint => midpoint,
        };
        match mid {
            BookPrice::Absent => {},
            BookPrice::Invalid => {
                return None;
            },
            BookPrice::Valid(price) => {
                return Some(price);
            },
        }
    }
    instrument.last
}

/// The mark for one charge: the snapshot's where it applies and has one, else the live one.
pub open spec fn resolved_mark(
    id: InstrumentId,
    instrument: Instrument,
    snapshot: SnapshotModel,
    use_snapshot_mark: bool,
) -> Option<Real> {
    if use_snapshot_mark && snapshot.marks.contains_key(id) {
        Some(snapshot.marks[id])
    } else {
        mark_of(instrument)
    }
}

/// Resolves the mark for one charge, preferring the snapshot when it applies.
pub fn resolve_mark(
    id: InstrumentId,
    instrument: &Instrument,
    snapshot: &Snapshot,
    use_snapshot_mark: bool,
) -> (mark: Option<Real>)
    ensures
        mark == resolved_mark(id, *instrument, snapshot@, use_snapshot_mark),
{
    if use_snapshot_mark {
        if let Some(mark_px) = marks_get(&snapshot.marks, id) {
            return Some(mark_px);
        }
    }
    mark_price(instrument)
}

/// An amount in a quote currency, in the account base currency.
pub open spec fn based(
    base_currency: Option<Currency>,
    xrate: Option<Real>,
    amount: Formula,
    quote_currency: Currency,
) -> (Formula, Currency) {
    match base_currency {
        None => (amount, quote_currency),
        Some(base) => if quote_currency == base {
            (amount, quote_currency)
        } else {
            match xrate {
                Some(rate) => if rate.zero() {
                    (Formula::Integer(0), base)
                } else {
                    (Formula::Product(Box::new(amount), Box::new(Formula::Number(rate))), base)
                },
                None => (Formula::Integer(0), base),
            }
        },
    }
}

/// Converts `amount` in `quote_currency` to the account base currency.
///
/// Passes the amount through for a multi-currency account or when the quote currency is the
/// base, and contributes nothing when no exchange rate is available.
pub fn to_base(
    base_currency: Option<Currency>,
    xrate: Option<Real>,
    amount: Formula,
    quote_currency: Currency,
) -> (converted: (Formula, Currency))
    ensures
        converted == based(base_currency, xrate, amount, quote_currency),
{
    let base = match base_currency {
        Some(base) => base,
        None => {
            return (amount, quote_currency);
        },
    };
    if quote_currency == base {
        return (amount, quote_currency);
    }
    match xrate {
        Some(rate) => {
            if rate.is_zero() {
                (Formula::Integer(0), base)
            } else {
                (Formula::Product(Box::new(amount), Box::new(Formula::Number(rate))), base)
            }
        },
        None => (Formula::Integer(0), base),
    }
}

/// A position notional in the quote currency: quantity times multiplier times mark, as money.
pub open spec fn notional_of(exposure: Exposure, mark_px: Real, quote_currency: Currency) -> Formula {
    let lots = Formula::Product(
        Box::new(Formula::Number(exposure.quantity)),
        Box::new(Formula::Number(exposure.multiplier)),
    );
    let product = Formula::Product(Box::new(lots), Box::new(Formula::Number(mark_px)));
    Formula::Rounded(Box::new(product), quote_currency)
}

/// Returns the position notional in the quote currency, from values only.
pub fn exposure_notional_abs(exposure: &Exposure, mark_px: Real, quote_currency: Currency) -> (
notional: Formula)
    ensures
        notional == notional_of(*exposure, mark_px, quote_currency),
{
    let contracts = Formula::Product(
        Box::new(Formula::Number(exposure.quantity)),
        Box::new(Formula::Number(exposure.multiplier)),
    );
    let product = Formula::Product(Box::new(contracts), Box::new(Formula::Number(mark_px)));
    Formula::Rounded(Box::new(product), quote_currency)
}

/// Which positions are in one of the given instruments.
pub open spec fn kept_in(positions: Seq<Position>, ids: Set<InstrumentId>) -> Seq<bool> {
    Seq::new(positions.len(), |i: int| ids.contains(positions[i].instrument_id))
}

/// The snapshot of the open positions in the instruments `ids`, with the marks of those in
/// `priced`.
pub open spec fn snapshot_of(
    ctx: ContextModel,
    ids: Set<InstrumentId>,
    priced: Set<InstrumentId>,
) -> SnapshotModel {
    let exposures = group_exposures(ctx.positions, kept_in(ctx.positions, ids));
    SnapshotModel {
        exposures,
        marks: Map::new(
            |id: InstrumentId| exposures.contains_key(id) && priced.contains(id) && has_mark(ctx, id),
            |id: InstrumentId| mark_of(ctx.instruments[id])->0,
        ),
    }
}

/// Whether an instrument is known and has a mark.
pub open spec fn has_mark(ctx: ContextModel, id: InstrumentId) -> bool {
    ctx.instruments.contains_key(id) && mark_of(ctx.instruments[id]) is Some
}

/// The inputs of the charges that a process call makes.
pub struct ProcessInputs {
    /// The timestamp of the call.
    pub ts_now: u64,
    /// The snapshot of the call before.
    pub prev: Option<SnapshotModel>,
    /// The snapshot of the call.
    pub current: SnapshotModel,
    /// The state of the venue.
    pub ctx: ContextModel,
}

}
