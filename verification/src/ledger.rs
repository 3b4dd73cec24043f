//! Costs of acknowledged adjustments.

use indexmap::IndexMap;
use vstd::prelude::*;

use crate::carry::InstrumentId;
use crate::number::Currency;

verus! {

/// An amount of money, as a whole number of the host's smallest units.
#[derive(Debug, Clone, Copy, PartialEq, Eq, Structural)]
pub struct Money {
    pub raw: i128,
    pub currency: Currency,
}

/// What became of one account adjustment.
#[derive(Debug, Clone, Copy, PartialEq, Eq, Structural)]
pub enum AccountAdjustmentOutcome {
    /// The exchange applied the adjustment.
    Applied,
    /// The exchange could not apply the adjustment.
    Failed,
}

/// The declaration of `indexmap::IndexMap`.
#[verifier::external_type_specification]
#[verifier::external_body]
#[verifier::reject_recursive_types(K)]
#[verifier::reject_recursive_types(V)]
#[verifier::reject_recursive_types(S)]
pub struct ExIndexMap<K, V, S>(indexmap::IndexMap<K, V, S>);

/// The entries of a map from instruments to cost terms, in the order of the map.
pub uninterp spec fn recorded_costs(map: IndexMap<InstrumentId, Vec<i128>>) -> Seq<
    (InstrumentId, Seq<i128>),
>;

/// The position of an instrument among the entries, or their number where it has none.
pub open spec fn entry_position(entries: Seq<(InstrumentId, Seq<i128>)>, id: InstrumentId) -> int
    decreases entries.len(),
{
    if entries.len() == 0 || entries[0].0 == id {
        0
    } else {
        1 + entry_position(entries.skip(1), id)
    }
}

/// The cost terms of an instrument, none where it has no entry.
pub open spec fn entry_terms(entries: Seq<(InstrumentId, Seq<i128>)>, id: InstrumentId) -> Seq<
    i128,
> {
    let at = entry_position(entries, id);
    if at < entries.len() { entries[at].1 } else { Seq::empty() }
}

/// The entries with the cost terms of an instrument replaced, at the end where it had none.
pub open spec fn with_terms(
    entries: Seq<(InstrumentId, Seq<i128>)>,
    id: InstrumentId,
    terms: Seq<i128>,
) -> Seq<(InstrumentId, Seq<i128>)> {
    let at = entry_position(entries, id);
    if at < entries.len() { entries.update(at, (id, terms)) } else { entries.push((id, terms)) }
}

/// Calls `indexmap::IndexMap::new`, which makes a map without entries.
#[verifier::external_body]
fn costs_new() -> (map: IndexMap<InstrumentId, Vec<i128>>)
    ensures
        recorded_costs(map).len() == 0,
{
    IndexMap::new()
}

/// Calls `indexmap::IndexMap::entry` and `Entry::or_default`, which reach the value of a key and
/// append the key with an empty vector where the map lacks it.
#[verifier::external_body]
fn costs_entry(map: &mut IndexMap<InstrumentId, Vec<i128>>, id: InstrumentId) -> (terms: &mut Vec<
    i128,
>)
    ensures
        terms@ == entry_terms(recorded_costs(*old(map)), id),
        recorded_costs(*final(map)) == with_terms(recorded_costs(*old(map)), id, final(terms)@),
{
    map.entry(id).or_default()
}

/// Calls `indexmap::IndexMap::clear`, which removes every entry.
#[verifier::external_body]
fn costs_clear(map: &mut IndexMap<InstrumentId, Vec<i128>>)
    ensures
        recorded_costs(*final(map)).len() == 0,
{
    map.clear()
}

/// Calls `indexmap::IndexMap::clone`, which copies the entries in their order.
#[verifier::external_body]
fn costs_clone(map: &IndexMap<InstrumentId, Vec<i128>>) -> (copy: IndexMap<InstrumentId, Vec<i128>>)
    ensures
        recorded_costs(copy) == recorded_costs(*map),
{
    map.clone()
}

/// The exact sum of cost terms.
pub open spec fn term_sum(terms: Seq<i128>) -> int
    decreases terms.len(),
{
    if terms.len() == 0 {
        0
    } else {
        term_sum(terms.drop_last()) + terms.last()
    }
}

/// The exact sum of the cost terms of all instruments.
pub open spec fn entries_sum(entries: Seq<(InstrumentId, Seq<i128>)>) -> int
    decreases entries.len(),
{
    if entries.len() == 0 {
        0
    } else {
        term_sum(entries[0].1) + entries_sum(entries.skip(1))
    }
}

/// Whether no instrument has two entries.
pub open spec fn distinct_instruments(entries: Seq<(InstrumentId, Seq<i128>)>) -> bool {
    forall|i: int, j: int|
        0 <= i < j < entries.len() ==> (#[trigger] entries[i]).0 != (#[trigger] entries[j]).0
}

/// The recorded costs, positive when paid, as the terms that were added up.
#[verifier::ext_equal]
pub struct LedgerModel {
    /// The terms of each instrument, in the order in which the instruments were first charged.
    pub instruments: Seq<(InstrumentId, Seq<i128>)>,
    /// The terms of the applied cost.
    pub total: Seq<i128>,
    /// The terms of the cost that the exchange could not apply.
    pub unapplied: Seq<i128>,
}

impl LedgerModel {
    /// The ledger before any adjustment.
    pub open spec fn empty() -> LedgerModel {
        LedgerModel { instruments: Seq::empty(), total: Seq::empty(), unapplied: Seq::empty() }
    }

    /// The ledger after an applied adjustment.
    pub open spec fn applied(self, id: InstrumentId, cost: i128) -> LedgerModel {
        LedgerModel {
            instruments: with_terms(
                self.instruments,
                id,
                entry_terms(self.instruments, id).push(cost),
            ),
            total: self.total.push(cost),
            unapplied: self.unapplied,
        }
    }

    /// The ledger after an adjustment that could not be applied.
    pub open spec fn failed(self, cost: i128) -> LedgerModel {
        LedgerModel {
            instruments: self.instruments,
            total: self.total,
            unapplied: self.unapplied.push(cost),
        }
    }

    /// The ledger after one acknowledged adjustment.
    pub open spec fn acknowledged(
        self,
        id: InstrumentId,
        cost: i128,
        outcome: AccountAdjustmentOutcome,
    ) -> LedgerModel {
        match outcome {
            AccountAdjustmentOutcome::Applied => self.applied(id, cost),
            AccountAdjustmentOutcome::Failed => self.failed(cost),
        }
    }

    /// Whether the total is the sum of the instruments' costs, each instrument having one entry.
    pub open spec fn balanced(self) -> bool {
        &&& distinct_instruments(self.instruments)
        &&& term_sum(self.total) == entries_sum(self.instruments)
    }
}

proof fn lemma_entry_position(entries: Seq<(InstrumentId, Seq<i128>)>, id: InstrumentId)
    ensures
        0 <= entry_position(entries, id) <= entries.len(),
        entry_position(entries, id) < entries.len() ==> entries[entry_position(entries, id)].0
            == id,
        forall|i: int|
            0 <= i < entry_position(entries, id) ==> (#[trigger] entries[i]).0 != id,
    decreases entries.len(),
{
    if entries.len() > 0 && entries[0].0 != id {
        let rest = entries.skip(1);
        lemma_entry_position(rest, id);
        assert forall|i: int| 0 <= i < entry_position(entries, id) implies (
        #[trigger] entries[i]).0 != id by {
            if i > 0 {
                assert(rest[i - 1] == entries[i]);
            }
        }
    }
}

proof fn lemma_entries_sum_update(
    entries: Seq<(InstrumentId, Seq<i128>)>,
    at: int,
    entry: (InstrumentId, Seq<i128>),
)
    requires
        0 <= at < entries.len(),
    ensures
        entries_sum(entries.update(at, entry)) == entries_sum(entries) - term_sum(entries[at].1)
            + term_sum(entry.1),
    decreases entries.len(),
{
    if at == 0 {
        assert(entries.update(at, entry).skip(1) =~= entries.skip(1));
    } else {
        lemma_entries_sum_update(entries.skip(1), at - 1, entry);
        assert(entries.update(at, entry).skip(1) =~= entries.skip(1).update(at - 1, entry));
    }
}

proof fn lemma_entries_sum_push(
    entries: Seq<(InstrumentId, Seq<i128>)>,
    entry: (InstrumentId, Seq<i128>),
)
    ensures
        entries_sum(entries.push(entry)) == entries_sum(entries) + term_sum(entry.1),
    decreases entries.len(),
{
    let all = entries.push(entry);
    if entries.len() == 0 {
        assert(all.skip(1) =~= Seq::empty());
        assert(entries_sum(all.skip(1)) == 0);
    } else {
        lemma_entries_sum_push(entries.skip(1), entry);
        assert(all.skip(1) =~= entries.skip(1).push(entry));
    }
}

/// The total cost stays the sum of the instruments' costs, whatever becomes of an adjustment.
pub proof fn law_acknowledged_balanced(
    ledger: LedgerModel,
    id: InstrumentId,
    cost: i128,
    outcome: AccountAdjustmentOutcome,
)
    requires
        ledger.balanced(),
    ensures
        ledger.acknowledged(id, cost, outcome).balanced(),
{
    if outcome is Applied {
        let entries = ledger.instruments;
        let at = entry_position(entries, id);
        let terms = entry_terms(entries, id);
        lemma_entry_position(entries, id);
        assert(terms.push(cost).drop_last() =~= terms);
        assert(ledger.total.push(cost).drop_last() =~= ledger.total);
        if at < entries.len() {
            lemma_entries_sum_update(entries, at, (id, terms.push(cost)));
        } else {
            lemma_entries_sum_push(entries, (id, terms.push(cost)));
        }
        let after = with_terms(entries, id, terms.push(cost));
        assert(distinct_instruments(after)) by {
            assert forall|i: int, j: int| 0 <= i < j < after.len() implies (#[trigger] after[i]).0
                != (#[trigger] after[j]).0 by {
                assert(after[i].0 == entries[i].0);
                assert(j < entries.len() ==> after[j].0 == entries[j].0);
            }
        }
        assert(term_sum(ledger.total.push(cost)) == term_sum(ledger.total) + cost);
        assert(term_sum(terms.push(cost)) == term_sum(terms) + cost);
    }
}

/// An adjustment adds its cost to the applied cost or to the unapplied cost, and never to both.
pub proof fn law_acknowledged_counts_cost(
    ledger: LedgerModel,
    id: InstrumentId,
    cost: i128,
    outcome: AccountAdjustmentOutcome,
)
    ensures
        ({
            let after = ledger.acknowledged(id, cost, outcome);
            &&& term_sum(after.total) == term_sum(ledger.total) + if outcome is Applied {
                cost as int
            } else {
                0
            }
            &&& term_sum(after.unapplied) == term_sum(ledger.unapplied) + if outcome is Failed {
                cost as int
            } else {
                0
            }
        }),
{
    assert(ledger.total.push(cost).drop_last() =~= ledger.total);
    assert(ledger.unapplied.push(cost).drop_last() =~= ledger.unapplied);
}

/// An adjustment adds to the costs of its own instrument only, and only where it is applied.
pub proof fn law_acknowledged_instrument(
    ledger: LedgerModel,
    id: InstrumentId,
    cost: i128,
    outcome: AccountAdjustmentOutcome,
    other: InstrumentId,
)
    ensures
        entry_terms(ledger.acknowledged(id, cost, outcome).instruments, other) == if other == id
            && outcome is Applied {
            entry_terms(ledger.instruments, other).push(cost)
        } else {
            entry_terms(ledger.instruments, other)
        },
{
    if outcome is Applied {
        let before = ledger.instruments;
        let after = ledger.acknowledged(id, cost, outcome).instruments;
        lemma_entry_position(before, id);
        lemma_entry_position(before, other);
        lemma_entry_position(after, id);
        lemma_entry_position(after, other);
        let at = entry_position(before, id);
        let p = entry_position(before, other);
        let q = entry_position(after, other);
        if other == id {
            if q < at {
                assert(after[q] == before[q]);
            } else if q > at {
                assert(after[at].0 == id);
            }
        } else {
            if p < before.len() {
                assert(after[p] == before[p]);
            }
            if q < p && q < before.len() {
                assert(after[q].0 == before[q].0);
            }
        }
    }
}

/// An applied adjustment adds its cost to the total and leaves the unapplied cost, a failed one
/// the reverse; the instruments keep their places, and a new one comes last.
pub proof fn law_acknowledged_keeps_order(
    ledger: LedgerModel,
    id: InstrumentId,
    cost: i128,
    outcome: AccountAdjustmentOutcome,
)
    ensures
        ({
            let after = ledger.acknowledged(id, cost, outcome);
            let before_ids = ledger.instruments.map_values(|e: (InstrumentId, Seq<i128>)| e.0);
            let after_ids = after.instruments.map_values(|e: (InstrumentId, Seq<i128>)| e.0);
            &&& outcome is Applied ==> {
                &&& after.total == ledger.total.push(cost)
                &&& after.unapplied == ledger.unapplied
                &&& after_ids == if before_ids.contains(id) {
                    before_ids
                } else {
                    before_ids.push(id)
                }
            }
            &&& outcome is Failed ==> {
                &&& after.total == ledger.total
                &&& after.unapplied == ledger.unapplied.push(cost)
                &&& after.instruments == ledger.instruments
            }
        }),
{
    if outcome is Applied {
        let entries = ledger.instruments;
        let after = ledger.acknowledged(id, cost, outcome).instruments;
        let before_ids = entries.map_values(|e: (InstrumentId, Seq<i128>)| e.0);
        let after_ids = after.map_values(|e: (InstrumentId, Seq<i128>)| e.0);
        let at = entry_position(entries, id);
        lemma_entry_position(entries, id);
        if at < entries.len() {
            assert(before_ids[at] == id);
            assert(after_ids =~= before_ids);
        } else {
            assert forall|i: int| 0 <= i < before_ids.len() implies before_ids[i] != id by {
                assert(entries[i].0 != id);
            }
            assert(!before_ids.contains(id));
            assert(after_ids =~= before_ids.push(id));
        }
    }
}

/// The cost terms of an instrument are those of its own entry, and none where it has no entry.
pub proof fn law_terms_are_those_of_the_entry(
    entries: Seq<(InstrumentId, Seq<i128>)>,
    id: InstrumentId,
)
    requires
        distinct_instruments(entries),
    ensures
        forall|i: int|
            0 <= i < entries.len() && (#[trigger] entries[i]).0 == id ==> entry_terms(entries, id)
                == entries[i].1,
        (forall|i: int| 0 <= i < entries.len() ==> (#[trigger] entries[i]).0 != id)
            ==> entry_terms(entries, id) == Seq::<i128>::empty(),
{
    lemma_entry_position(entries, id);
    let at = entry_position(entries, id);
    assert forall|i: int| 0 <= i < entries.len() && (#[trigger] entries[i]).0 == id implies i
        == at by {
        if at < i {
            assert(entries[at].0 != entries[i].0);
        }
    }
}

/// The recorded costs of a carry module.
#[derive(Debug)]
pub struct Ledger {
    instrument_costs: IndexMap<InstrumentId, Vec<i128>>,
    total_cost: Vec<i128>,
    unapplied_cost: Vec<i128>,
}

impl View for Ledger {
    type V = LedgerModel;

    closed spec fn view(&self) -> LedgerModel {
        LedgerModel {
            instruments: recorded_costs(self.instrument_costs),
            total: self.total_cost@,
            unapplied: self.unapplied_cost@,
        }
    }
}

impl Ledger {
    /// Creates a ledger without costs.
    pub fn new() -> (ledger: Ledger)
        ensures
            ledger@ == LedgerModel::empty(),
            ledger@.balanced(),
    {
        let ledger = Ledger {
            instrument_costs: costs_new(),
            total_cost: Vec::new(),
            unapplied_cost: Vec::new(),
        };
        assert(ledger@ =~= LedgerModel::empty());
        ledger
    }

    /// Records one acknowledged adjustment.
    pub fn acknowledge(&mut self, id: InstrumentId, cost: i128, outcome: AccountAdjustmentOutcome)
        ensures
            final(self)@ == old(self)@.acknowledged(id, cost, outcome),
    {
        match outcome {
            AccountAdjustmentOutcome::Applied => {
                costs_entry(&mut self.instrument_costs, id).push(cost);
                self.total_cost.push(cost);
            },
            AccountAdjustmentOutcome::Failed => {
                self.unapplied_cost.push(cost);
            },
        }
    }

    /// Forgets every cost.
    pub fn clear(&mut self)
        ensures
            final(self)@ == LedgerModel::empty(),
    {
        costs_clear(&mut self.instrument_costs);
        self.total_cost.clear();
        self.unapplied_cost.clear();
        assert(self@ =~= LedgerModel::empty());
    }

    /// Returns the terms of the applied cost, in the order of their addition.
    pub fn total_cost(&self) -> (terms: &Vec<i128>)
        ensures
            terms@ == self@.total,
    {
        &self.total_cost
    }

    /// Returns the terms of the cost that could not be applied, in the order of their addition.
    pub fn unapplied_cost(&self) -> (terms: &Vec<i128>)
        ensures
            terms@ == self@.unapplied,
    {
        &self.unapplied_cost
    }

    /// Returns the terms of the applied cost per instrument.
    pub fn instrument_costs(&self) -> (costs: IndexMap<InstrumentId, Vec<i128>>)
        ensures
            recorded_costs(costs) == self@.instruments,
    {
        costs_clone(&self.instrument_costs)
    }
}

}
