//! The state of a store as a mathematical value, and what each operation
//! makes of it.

use vstd::prelude::*;
use crate::listing::listing;
use crate::models::{CategoryView, TransactionView};

verus! {

/// The largest of `ids`, and 0 when there are none.
pub open spec fn highest(ids: Seq<nat>) -> nat
    decreases ids.len(),
{
    if ids.len() == 0 {
        0
    } else if ids.last() > highest(ids.drop_last()) {
        ids.last()
    } else {
        highest(ids.drop_last())
    }
}

/// `at` is the first place in `ids` that holds `id`.
pub open spec fn is_first(ids: Seq<nat>, id: nat, at: int) -> bool {
    &&& 0 <= at < ids.len()
    &&& ids[at] == id
    &&& forall|before: int| 0 <= before < at ==> ids[before] != id
}

/// The first place in `ids` that holds `id`, if there is one.
pub open spec fn first_position(ids: Seq<nat>, id: nat) -> Option<int> {
    if exists|at: int| is_first(ids, id, at) {
        Some(choose|at: int| is_first(ids, id, at))
    } else {
        None
    }
}

/// No identifier is above the highest one, and the highest one is among
/// them unless there are none.
pub proof fn lemma_highest_is_maximum(ids: Seq<nat>)
    ensures
        forall|i: int| 0 <= i < ids.len() ==> ids[i] <= highest(ids),
        ids.len() > 0 ==> ids.contains(highest(ids)),
        ids.len() == 0 ==> highest(ids) == 0,
    decreases ids.len(),
{
    if ids.len() > 0 {
        let front = ids.drop_last();
        lemma_highest_is_maximum(front);
        assert forall|i: int| 0 <= i < ids.len() implies ids[i] <= highest(ids) by {
            if i < front.len() {
                assert(front[i] == ids[i]);
            }
        }
        if ids.last() > highest(front) || front.len() == 0 {
            assert(ids[ids.len() - 1] == highest(ids));
        } else {
            let at = choose|at: int| 0 <= at < front.len() && front[at] == highest(front);
            assert(ids[at] == highest(ids));
        }
    }
}

/// The place that [`first_position`] names is the first one that holds
/// `id`; where it names none, no place holds `id`.
pub proof fn lemma_first_position(ids: Seq<nat>, id: nat)
    ensures
        match first_position(ids, id) {
            Some(at) => is_first(ids, id, at),
            None => forall|i: int| 0 <= i < ids.len() ==> ids[i] != id,
        },
{
    if first_position(ids, id) is None {
        assert forall|i: int| 0 <= i < ids.len() implies ids[i] != id by {
            if ids[i] == id {
                lemma_some_place_is_first(ids, id, i);
            }
        }
    }
}

/// Where some place up to `bound` holds `id`, one of them is the first.
proof fn lemma_some_place_is_first(ids: Seq<nat>, id: nat, bound: int)
    requires
        0 <= bound < ids.len(),
        ids[bound] == id,
    ensures
        exists|at: int| is_first(ids, id, at),
    decreases bound,
{
    if exists|before: int| 0 <= before < bound && ids[before] == id {
        let before = choose|before: int| 0 <= before < bound && ids[before] == id;
        lemma_some_place_is_first(ids, id, before);
    } else {
        assert(is_first(ids, id, bound));
    }
}

/// The first place that holds `id` is the one that [`first_position`] names.
pub proof fn lemma_first_position_is(ids: Seq<nat>, id: nat, at: int)
    requires
        is_first(ids, id, at),
    ensures
        first_position(ids, id) == Some(at),
{
    let chosen = choose|at: int| is_first(ids, id, at);
    assert(is_first(ids, id, chosen));
    if chosen < at {
        assert(ids[chosen] != id);
    } else if at < chosen {
        assert(ids[at] != id);
    }
}

/// The identifiers of `transactions`, in their order.
pub open spec fn transaction_ids(transactions: Seq<TransactionView>) -> Seq<nat> {
    transactions.map_values(|transaction: TransactionView| transaction.id)
}

/// The identifiers of `categories`, in their order.
pub open spec fn category_ids(categories: Seq<CategoryView>) -> Seq<nat> {
    categories.map_values(|category: CategoryView| category.id)
}

/// `transaction` without its category if that category has the identifier
/// `id`, and unchanged otherwise.
pub open spec fn detached(transaction: TransactionView, id: nat) -> TransactionView {
    match transaction.category {
        Some(category) if category.id == id => TransactionView { category: None, ..transaction },
        _ => transaction,
    }
}

/// The state of a store.
pub struct StoreState {
    pub transactions: Seq<TransactionView>,
    pub max_transaction_id: nat,
    pub categories: Seq<CategoryView>,
    pub max_category_id: nat,
    pub limit: Option<int>,
    pub path: Seq<char>,
}

impl StoreState {
    /// No identifier in the store is above the mark of its kind.
    pub open spec fn well_formed(self) -> bool {
        &&& forall|i: int|
            0 <= i < self.transactions.len() ==> (#[trigger] self.transactions[i]).id
                <= self.max_transaction_id
        &&& forall|i: int|
            0 <= i < self.categories.len() ==> (#[trigger] self.categories[i]).id
                <= self.max_category_id
    }

    /// Both marks are the largest identifier present, or 0 where none is.
    pub open spec fn marks_are_exact(self) -> bool {
        &&& self.max_transaction_id == highest(transaction_ids(self.transactions))
        &&& self.max_category_id == highest(category_ids(self.categories))
    }

    /// The store without records or limit, kept at `path`.
    pub open spec fn empty(path: Seq<char>) -> StoreState {
        StoreState {
            transactions: Seq::empty(),
            max_transaction_id: 0,
            categories: Seq::empty(),
            max_category_id: 0,
            limit: None,
            path,
        }
    }

    /// The store that holds the given records, with its marks found by
    /// looking through them.
    pub open spec fn restore(
        path: Seq<char>,
        transactions: Seq<TransactionView>,
        categories: Seq<CategoryView>,
        limit: Option<int>,
    ) -> StoreState {
        StoreState {
            transactions,
            max_transaction_id: highest(transaction_ids(transactions)),
            categories,
            max_category_id: highest(category_ids(categories)),
            limit,
            path,
        }
    }

    /// The identifier that the next transaction gets.
    pub open spec fn next_transaction_id(self) -> nat {
        self.max_transaction_id + 1
    }

    /// The identifier that the next category gets.
    pub open spec fn next_category_id(self) -> nat {
        self.max_category_id + 1
    }

    /// With one more transaction at the end, under the next identifier.
    pub open spec fn add_transaction(
        self,
        description: Seq<char>,
        amount: int,
        datetime: int,
        category: Option<CategoryView>,
    ) -> StoreState {
        StoreState {
            transactions: self.transactions.push(
                TransactionView {
                    id: self.next_transaction_id(),
                    amount,
                    description,
                    datetime,
                    category,
                },
            ),
            max_transaction_id: self.next_transaction_id(),
            ..self
        }
    }

    /// Without the first transaction that has the identifier `id`.
    pub open spec fn delete_transaction(self, id: nat) -> StoreState {
        match first_position(transaction_ids(self.transactions), id) {
            Some(at) => StoreState { transactions: self.transactions.remove(at), ..self },
            None => self,
        }
    }

    /// The first category that has the identifier `id`.
    pub open spec fn get_category(self, id: nat) -> Option<CategoryView> {
        match first_position(category_ids(self.categories), id) {
            Some(at) => Some(self.categories[at]),
            None => None,
        }
    }

    /// With one more category at the end, under the next identifier.
    pub open spec fn add_category(self, name: Seq<char>) -> StoreState {
        StoreState {
            categories: self.categories.push(
                CategoryView { id: self.next_category_id(), name },
            ),
            max_category_id: self.next_category_id(),
            ..self
        }
    }

    /// Without the first category that has the identifier `id`, and with
    /// every transaction of a category with that identifier left without one.
    pub open spec fn delete_category(self, id: nat) -> StoreState {
        StoreState {
            categories: match first_position(category_ids(self.categories), id) {
                Some(at) => self.categories.remove(at),
                None => self.categories,
            },
            transactions: self.transactions.map_values(
                |transaction: TransactionView| detached(transaction, id),
            ),
            ..self
        }
    }

    /// The transactions of `category`, or all of them, from the earliest to
    /// the latest.
    pub open spec fn list_transactions(self, category: Option<CategoryView>) -> Seq<
        TransactionView,
    > {
        listing(self.transactions, category)
    }

    /// A limit above zero is kept; any other clears the limit.
    pub open spec fn set_limit(self, limit: int) -> StoreState {
        StoreState { limit: if limit > 0 { Some(limit) } else { None }, ..self }
    }
}

/// A restored store is well formed, with exact marks, and holds the records
/// and the limit that it was restored from.
pub proof fn lemma_restore_is_well_formed(
    path: Seq<char>,
    transactions: Seq<TransactionView>,
    categories: Seq<CategoryView>,
    limit: Option<int>,
)
    ensures
        StoreState::restore(path, transactions, categories, limit).well_formed(),
        StoreState::restore(path, transactions, categories, limit).marks_are_exact(),
        StoreState::restore(path, transactions, categories, limit).transactions == transactions,
        StoreState::restore(path, transactions, categories, limit).categories == categories,
        StoreState::restore(path, transactions, categories, limit).limit == limit,
{
    let restored = StoreState::restore(path, transactions, categories, limit);
    lemma_highest_is_maximum(transaction_ids(transactions));
    lemma_highest_is_maximum(category_ids(categories));
    assert forall|i: int| 0 <= i < transactions.len() implies (#[trigger] transactions[i]).id
        <= restored.max_transaction_id by {
        assert(transaction_ids(transactions)[i] == transactions[i].id);
    }
    assert forall|i: int| 0 <= i < categories.len() implies (#[trigger] categories[i]).id
        <= restored.max_category_id by {
        assert(category_ids(categories)[i] == categories[i].id);
    }
}

/// What a store holds, restored, is that store again but for the marks,
/// which are found anew and are no higher than before. Where the marks were
/// exact, it is the same store.
pub proof fn lemma_restore_of_a_store(store: StoreState)
    ensures
        StoreState::restore(store.path, store.transactions, store.categories, store.limit) == (
        StoreState {
            max_transaction_id: highest(transaction_ids(store.transactions)),
            max_category_id: highest(category_ids(store.categories)),
            ..store
        }),
        store.marks_are_exact() ==> StoreState::restore(
            store.path,
            store.transactions,
            store.categories,
            store.limit,
        ) == store,
        store.well_formed() ==> highest(transaction_ids(store.transactions))
            <= store.max_transaction_id && highest(category_ids(store.categories))
            <= store.max_category_id,
{
    let tids = transaction_ids(store.transactions);
    let cids = category_ids(store.categories);
    lemma_highest_is_maximum(tids);
    lemma_highest_is_maximum(cids);
    if store.well_formed() {
        if tids.len() > 0 {
            let at = choose|at: int| 0 <= at < tids.len() && tids[at] == highest(tids);
            assert(store.transactions[at].id == tids[at]);
        }
        if cids.len() > 0 {
            let at = choose|at: int| 0 <= at < cids.len() && cids[at] == highest(cids);
            assert(store.categories[at].id == cids[at]);
        }
    }
}

} // verus!
