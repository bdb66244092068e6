//! What holds of a store over any run of operations: identifiers are handed
//! out in rising order and never a second time, and a store whose
//! identifiers are distinct keeps them so.

use vstd::prelude::*;
use crate::models::{CategoryView, TransactionView};
use crate::state::{
    category_ids, detached, first_position, lemma_first_position, lemma_highest_is_maximum,
    transaction_ids, StoreState,
};

verus! {

/// One change to a store.
pub enum Operation {
    AddTransaction {
        description: Seq<char>,
        amount: int,
        datetime: int,
        category: Option<CategoryView>,
    },
    DeleteTransaction { id: nat },
    AddCategory { name: Seq<char> },
    DeleteCategory { id: nat },
    SetLimit { limit: int },
}

/// The store after one operation.
pub open spec fn apply(store: StoreState, operation: Operation) -> StoreState {
    match operation {
        Operation::AddTransaction { description, amount, datetime, category } => {
            store.add_transaction(description, amount, datetime, category)
        },
        Operation::DeleteTransaction { id } => store.delete_transaction(id),
        Operation::AddCategory { name } => store.add_category(name),
        Operation::DeleteCategory { id } => store.delete_category(id),
        Operation::SetLimit { limit } => store.set_limit(limit),
    }
}

/// The store after `operations`, one after the other.
pub open spec fn run(store: StoreState, operations: Seq<Operation>) -> StoreState
    decreases operations.len(),
{
    if operations.len() == 0 {
        store
    } else {
        apply(run(store, operations.drop_last()), operations.last())
    }
}

/// Every transaction identifier that the store held at the start or after
/// any of `operations`.
pub open spec fn seen_transaction_ids(store: StoreState, operations: Seq<Operation>) -> Set<nat>
    decreases operations.len(),
{
    if operations.len() == 0 {
        transaction_ids(store.transactions).to_set()
    } else {
        seen_transaction_ids(store, operations.drop_last()).union(
            transaction_ids(run(store, operations).transactions).to_set(),
        )
    }
}

/// Every category identifier that the store held at the start or after any
/// of `operations`.
pub open spec fn seen_category_ids(store: StoreState, operations: Seq<Operation>) -> Set<nat>
    decreases operations.len(),
{
    if operations.len() == 0 {
        category_ids(store.categories).to_set()
    } else {
        seen_category_ids(store, operations.drop_last()).union(
            category_ids(run(store, operations).categories).to_set(),
        )
    }
}

/// `mark` is the largest identifier in `seen`, or 0 where `seen` is empty.
pub open spec fn is_highest_of(mark: nat, seen: Set<nat>) -> bool {
    &&& forall|id: nat| seen.contains(id) ==> id <= mark
    &&& seen.contains(mark) || (mark == 0 && seen =~= Set::empty())
}

/// No two transactions share an identifier, and no two categories.
pub open spec fn ids_are_distinct(store: StoreState) -> bool {
    &&& transaction_ids(store.transactions).no_duplicates()
    &&& category_ids(store.categories).no_duplicates()
}

/// Removing one place from a list of identifiers.
proof fn lemma_ids_without(ids: Seq<nat>, at: int)
    requires
        0 <= at < ids.len(),
    ensures
        forall|i: int| 0 <= i < ids.remove(at).len() ==> ids.contains(#[trigger] ids.remove(at)[i]),
        ids.no_duplicates() ==> ids.remove(at).no_duplicates(),
        ids.no_duplicates() ==> !ids.remove(at).contains(ids[at]),
{
    let rest = ids.remove(at);
    assert forall|i: int| 0 <= i < rest.len() implies ids.contains(#[trigger] rest[i]) by {
        if i < at {
            assert(ids[i] == rest[i]);
        } else {
            assert(ids[i + 1] == rest[i]);
        }
    }
    if ids.no_duplicates() {
        assert forall|i: int, j: int| 0 <= i < rest.len() && 0 <= j < rest.len() && i != j implies rest[i]
            != rest[j] by {
            let from_i = if i < at { i } else { i + 1 };
            let from_j = if j < at { j } else { j + 1 };
            assert(rest[i] == ids[from_i] && rest[j] == ids[from_j]);
        }
        if rest.contains(ids[at]) {
            let i = choose|i: int| 0 <= i < rest.len() && rest[i] == ids[at];
            let from_i = if i < at { i } else { i + 1 };
            assert(rest[i] == ids[from_i]);
        }
    }
}

/// One operation keeps a well-formed store well formed, lowers no mark,
/// and hands out only the identifier that is one above the mark: every
/// identifier in the store afterwards was in it before, or is the new mark.
pub proof fn lemma_operation_keeps_well_formed(store: StoreState, operation: Operation)
    requires
        store.well_formed(),
    ensures
        apply(store, operation).well_formed(),
        apply(store, operation).max_transaction_id >= store.max_transaction_id,
        apply(store, operation).max_category_id >= store.max_category_id,
        apply(store, operation).max_transaction_id == store.max_transaction_id || (
        operation is AddTransaction && apply(store, operation).max_transaction_id
            == store.next_transaction_id() && transaction_ids(
            apply(store, operation).transactions,
        ).contains(store.next_transaction_id())),
        apply(store, operation).max_category_id == store.max_category_id || (
        operation is AddCategory && apply(store, operation).max_category_id
            == store.next_category_id() && category_ids(
            apply(store, operation).categories,
        ).contains(store.next_category_id())),
        ids_are_distinct(store) ==> ids_are_distinct(apply(store, operation)),
{
    let after = apply(store, operation);
    let old_tids = transaction_ids(store.transactions);
    let old_cids = category_ids(store.categories);
    let new_tids = transaction_ids(after.transactions);
    let new_cids = category_ids(after.categories);
    assert forall|i: int| 0 <= i < old_tids.len() implies old_tids[i]
        <= store.max_transaction_id by {
        assert(old_tids[i] == store.transactions[i].id);
    }
    assert forall|i: int| 0 <= i < old_cids.len() implies old_cids[i] <= store.max_category_id by {
        assert(old_cids[i] == store.categories[i].id);
    }
    match operation {
        Operation::AddTransaction { description, amount, datetime, category } => {
            assert(new_cids =~= old_cids);
            assert(new_tids =~= old_tids.push(store.next_transaction_id()));
            assert(new_tids[old_tids.len() as int] == store.next_transaction_id());
            assert forall|i: int| 0 <= i < after.transactions.len() implies (
            #[trigger] after.transactions[i]).id <= after.max_transaction_id by {
                if i < store.transactions.len() {
                    assert(after.transactions[i] == store.transactions[i]);
                }
            }
        },
        Operation::DeleteTransaction { id } => {
            assert(new_cids =~= old_cids);
            lemma_first_position(old_tids, id);
            match first_position(old_tids, id) {
                Some(at) => {
                    lemma_ids_without(old_tids, at);
                    assert(new_tids =~= old_tids.remove(at));
                    assert forall|i: int| 0 <= i < after.transactions.len() implies (
                    #[trigger] after.transactions[i]).id <= after.max_transaction_id by {
                        assert(new_tids[i] == after.transactions[i].id);
                        assert(old_tids.contains(new_tids[i]));
                    }
                },
                None => {},
            }
        },
        Operation::AddCategory { name } => {
            assert(new_tids =~= old_tids);
            assert(new_cids =~= old_cids.push(store.next_category_id()));
            assert(new_cids[old_cids.len() as int] == store.next_category_id());
            assert forall|i: int| 0 <= i < after.categories.len() implies (
            #[trigger] after.categories[i]).id <= after.max_category_id by {
                if i < store.categories.len() {
                    assert(after.categories[i] == store.categories[i]);
                }
            }
        },
        Operation::DeleteCategory { id } => {
            assert(new_tids =~= old_tids) by {
                assert forall|i: int| 0 <= i < old_tids.len() implies new_tids[i] == old_tids[i] by {
                    assert(after.transactions[i] == detached(store.transactions[i], id));
                }
            }
            assert forall|i: int| 0 <= i < after.transactions.len() implies (
            #[trigger] after.transactions[i]).id <= after.max_transaction_id by {
                assert(after.transactions[i] == detached(store.transactions[i], id));
                assert(store.transactions[i].id <= store.max_transaction_id);
            }
            lemma_first_position(old_cids, id);
            match first_position(old_cids, id) {
                Some(at) => {
                    lemma_ids_without(old_cids, at);
                    assert(new_cids =~= old_cids.remove(at));
                    assert forall|i: int| 0 <= i < after.categories.len() implies (
                    #[trigger] after.categories[i]).id <= after.max_category_id by {
                        assert(new_cids[i] == after.categories[i].id);
                        assert(old_cids.contains(new_cids[i]));
                    }
                },
                None => {},
            }
        },
        Operation::SetLimit { limit } => {
            assert(new_tids =~= old_tids);
            assert(new_cids =~= old_cids);
        },
    }
}

/// `after` is `before` with the same identifier, amount, text and instant,
/// and with the same category or none.
pub open spec fn is_same_record(before: TransactionView, after: TransactionView) -> bool {
    &&& after == TransactionView { category: after.category, ..before }
    &&& after.category is None || after.category == before.category
}

/// One of `before` is the same record as `after`.
pub open spec fn was_recorded(before: Seq<TransactionView>, after: TransactionView) -> bool {
    exists|i: int| 0 <= i < before.len() && is_same_record(#[trigger] before[i], after)
}

/// No operation changes what a transaction records. Every transaction in
/// the store after an operation was in it before, with the same identifier,
/// amount, text and instant and with its category or none, or is the one
/// that the operation added.
pub proof fn lemma_operation_keeps_records(store: StoreState, operation: Operation)
    ensures
        forall|j: int|
            0 <= j < apply(store, operation).transactions.len() ==> {
                ||| was_recorded(
                    store.transactions,
                    #[trigger] apply(store, operation).transactions[j],
                )
                ||| operation is AddTransaction && j == store.transactions.len()
            },
{
    let after = apply(store, operation);
    assert forall|j: int| 0 <= j < after.transactions.len() implies {
        ||| was_recorded(store.transactions, #[trigger] after.transactions[j])
        ||| operation is AddTransaction && j == store.transactions.len()
    } by {
        match operation {
            Operation::AddTransaction { description, amount, datetime, category } => {
                if j < store.transactions.len() {
                    assert(is_same_record(store.transactions[j], after.transactions[j]));
                }
            },
            Operation::DeleteTransaction { id } => {
                let ids = transaction_ids(store.transactions);
                lemma_first_position(ids, id);
                match first_position(ids, id) {
                    Some(at) => {
                        let i = if j < at { j } else { j + 1 };
                        assert(is_same_record(store.transactions[i], after.transactions[j]));
                    },
                    None => {
                        assert(is_same_record(store.transactions[j], after.transactions[j]));
                    },
                }
            },
            Operation::DeleteCategory { id } => {
                assert(after.transactions[j] == detached(store.transactions[j], id));
                assert(is_same_record(store.transactions[j], after.transactions[j]));
            },
            _ => {
                assert(is_same_record(store.transactions[j], after.transactions[j]));
            },
        }
    }
}

/// Any run of operations keeps a well-formed store well formed, and a
/// store with distinct identifiers keeps them distinct.
pub proof fn lemma_run_keeps_well_formed(store: StoreState, operations: Seq<Operation>)
    requires
        store.well_formed(),
    ensures
        run(store, operations).well_formed(),
        run(store, operations).max_transaction_id >= store.max_transaction_id,
        run(store, operations).max_category_id >= store.max_category_id,
        ids_are_distinct(store) ==> ids_are_distinct(run(store, operations)),
    decreases operations.len(),
{
    if operations.len() > 0 {
        lemma_run_keeps_well_formed(store, operations.drop_last());
        lemma_operation_keeps_well_formed(
            run(store, operations.drop_last()),
            operations.last(),
        );
    }
}

/// Identifiers rise and are never handed out twice.
///
/// Take a store as [`Store::new`](crate::store::Store::new) or
/// [`Store::restore`](crate::store::Store::restore) makes it, and any run of
/// operations. Afterwards each mark is the largest identifier of its kind
/// that the store has ever held, also where that one has been deleted
/// since, and 0 where it never held any. So the identifier that comes next,
/// one above the mark, is one that the store has not held before.
pub proof fn lemma_next_identifier_is_fresh(store: StoreState, operations: Seq<Operation>)
    requires
        store.well_formed(),
        store.marks_are_exact(),
    ensures
        is_highest_of(
            run(store, operations).max_transaction_id,
            seen_transaction_ids(store, operations),
        ),
        is_highest_of(run(store, operations).max_category_id, seen_category_ids(store, operations)),
        !seen_transaction_ids(store, operations).contains(
            run(store, operations).next_transaction_id(),
        ),
        !seen_category_ids(store, operations).contains(run(store, operations).next_category_id()),
    decreases operations.len(),
{
    let end = run(store, operations);
    let seen_t = seen_transaction_ids(store, operations);
    let seen_c = seen_category_ids(store, operations);
    let end_tids = transaction_ids(end.transactions);
    let end_cids = category_ids(end.categories);
    lemma_run_keeps_well_formed(store, operations);
    assert forall|id: nat| end_tids.contains(id) implies id <= end.max_transaction_id by {
        let i = choose|i: int| 0 <= i < end_tids.len() && end_tids[i] == id;
        assert(end.transactions[i].id == id);
    }
    assert forall|id: nat| end_cids.contains(id) implies id <= end.max_category_id by {
        let i = choose|i: int| 0 <= i < end_cids.len() && end_cids[i] == id;
        assert(end.categories[i].id == id);
    }
    if operations.len() == 0 {
        lemma_highest_is_maximum(end_tids);
        lemma_highest_is_maximum(end_cids);
        if end_tids.len() == 0 {
            assert(seen_t =~= Set::empty());
        }
        if end_cids.len() == 0 {
            assert(seen_c =~= Set::empty());
        }
    } else {
        let before = run(store, operations.drop_last());
        lemma_next_identifier_is_fresh(store, operations.drop_last());
        lemma_run_keeps_well_formed(store, operations.drop_last());
        lemma_operation_keeps_well_formed(before, operations.last());
        let seen_t_before = seen_transaction_ids(store, operations.drop_last());
        let seen_c_before = seen_category_ids(store, operations.drop_last());
        if end_tids.len() == 0 && seen_t_before =~= Set::empty() {
            assert(seen_t =~= Set::empty());
        }
        if end_cids.len() == 0 && seen_c_before =~= Set::empty() {
            assert(seen_c =~= Set::empty());
        }
    }
}

/// After a transaction is deleted from a store with distinct identifiers,
/// no transaction has its identifier.
pub proof fn lemma_deleted_transaction_is_gone(store: StoreState, id: nat)
    requires
        ids_are_distinct(store),
    ensures
        !transaction_ids(store.delete_transaction(id).transactions).contains(id),
{
    let ids = transaction_ids(store.transactions);
    lemma_first_position(ids, id);
    match first_position(ids, id) {
        Some(at) => {
            lemma_ids_without(ids, at);
            assert(transaction_ids(store.delete_transaction(id).transactions) =~= ids.remove(at));
        },
        None => {
            if ids.contains(id) {
                let i = choose|i: int| 0 <= i < ids.len() && ids[i] == id;
                assert(ids[i] != id);
            }
        },
    }
}

/// After a category is deleted, no transaction refers to its identifier,
/// and a transaction's identifier, amount, text and instant are as before.
pub proof fn lemma_deleted_category_is_not_referred_to(store: StoreState, id: nat)
    ensures
        store.delete_category(id).transactions.len() == store.transactions.len(),
        forall|i: int|
            0 <= i < store.transactions.len() ==> {
                let before = store.transactions[i];
                let after = #[trigger] store.delete_category(id).transactions[i];
                &&& after.category matches Some(category) ==> category.id != id
                &&& after.category is Some ==> after.category == before.category
                &&& after == TransactionView { category: after.category, ..before }
            },
        ids_are_distinct(store) ==> !category_ids(store.delete_category(id).categories).contains(id),
{
    let ids = category_ids(store.categories);
    lemma_first_position(ids, id);
    match first_position(ids, id) {
        Some(at) => {
            lemma_ids_without(ids, at);
            assert(category_ids(store.delete_category(id).categories) =~= ids.remove(at));
        },
        None => {
            if ids.contains(id) {
                let i = choose|i: int| 0 <= i < ids.len() && ids[i] == id;
                assert(ids[i] != id);
            }
        },
    }
}

} // verus!
