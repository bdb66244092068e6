//! Listing transactions: those of one category, or all of them, from the
//! earliest to the latest. Transactions of the same instant keep the order
//! in which they were added.

use vstd::prelude::*;
use crate::models::{Category, CategoryView, Transaction, TransactionView};

verus! {

/// Whether a listing for `category` shows `transaction`: a listing without
/// a category shows every transaction, one for a category those whose own
/// category has the same identifier and the same name.
pub open spec fn shows(category: Option<CategoryView>, transaction: TransactionView) -> bool {
    category is Some ==> transaction.category == category
}

/// The transactions that a listing for `category` shows, in their order.
pub open spec fn selection(
    transactions: Seq<TransactionView>,
    category: Option<CategoryView>,
) -> Seq<TransactionView> {
    transactions.filter(|transaction: TransactionView| shows(category, transaction))
}

/// `item` put into `ordered` behind every transaction that is not later
/// than it.
pub open spec fn placed(ordered: Seq<TransactionView>, item: TransactionView) -> Seq<
    TransactionView,
>
    decreases ordered.len(),
{
    if ordered.len() > 0 && ordered.last().datetime > item.datetime {
        placed(ordered.drop_last(), item).push(ordered.last())
    } else {
        ordered.push(item)
    }
}

/// `transactions` from the earliest to the latest, those of one instant in
/// the order in which they stand in `transactions`.
pub open spec fn by_time(transactions: Seq<TransactionView>) -> Seq<TransactionView>
    decreases transactions.len(),
{
    if transactions.len() == 0 {
        transactions
    } else {
        placed(by_time(transactions.drop_last()), transactions.last())
    }
}

/// What a listing of `transactions` for `category` holds.
pub open spec fn listing(transactions: Seq<TransactionView>, category: Option<CategoryView>) -> Seq<
    TransactionView,
> {
    by_time(selection(transactions, category))
}

/// No transaction stands before an earlier one.
pub open spec fn is_ordered(transactions: Seq<TransactionView>) -> bool {
    forall|i: int, j: int|
        0 <= i <= j < transactions.len() ==> transactions[i].datetime <= transactions[j].datetime
}

/// Where everything from `at` on is later than `item` and nothing before
/// `at` is, placing `item` inserts it at `at`.
proof fn lemma_placed_at(ordered: Seq<TransactionView>, item: TransactionView, at: int)
    requires
        0 <= at <= ordered.len(),
        forall|k: int| at <= k < ordered.len() ==> ordered[k].datetime > item.datetime,
        at > 0 ==> ordered[at - 1].datetime <= item.datetime,
    ensures
        placed(ordered, item) == ordered.insert(at, item),
    decreases ordered.len(),
{
    if at < ordered.len() {
        lemma_placed_at(ordered.drop_last(), item, at);
        assert(ordered.drop_last().insert(at, item).push(ordered.last()) =~= ordered.insert(
            at,
            item,
        ));
    } else {
        assert(ordered.push(item) =~= ordered.insert(at, item));
    }
}

/// The place at which [`placed`] puts `item`: behind the last transaction
/// that is not later than `item`.
proof fn lemma_place_of(ordered: Seq<TransactionView>, item: TransactionView) -> (at: int)
    ensures
        0 <= at <= ordered.len(),
        placed(ordered, item) == ordered.insert(at, item),
        forall|k: int| at <= k < ordered.len() ==> ordered[k].datetime > item.datetime,
        at > 0 ==> ordered[at - 1].datetime <= item.datetime,
    decreases ordered.len(),
{
    if ordered.len() > 0 && ordered.last().datetime > item.datetime {
        let front = ordered.drop_last();
        let at = lemma_place_of(front, item);
        assert forall|k: int| at <= k < ordered.len() implies ordered[k].datetime
            > item.datetime by {
            if k < front.len() {
                assert(front[k] == ordered[k]);
            }
        }
        if at > 0 {
            assert(front[at - 1] == ordered[at - 1]);
        }
        lemma_placed_at(ordered, item, at);
        at
    } else {
        lemma_placed_at(ordered, item, ordered.len() as int);
        ordered.len() as int
    }
}

/// The selection from one more transaction.
proof fn lemma_selection_step(
    transactions: Seq<TransactionView>,
    category: Option<CategoryView>,
    i: int,
)
    requires
        0 <= i < transactions.len(),
    ensures
        selection(transactions.take(i + 1), category) == if shows(category, transactions[i]) {
            selection(transactions.take(i), category).push(transactions[i])
        } else {
            selection(transactions.take(i), category)
        },
{
    reveal(Seq::filter);
    assert(transactions.take(i + 1).drop_last() =~= transactions.take(i));
}

/// Whether a listing for `category` shows `transaction`.
fn is_shown(category: &Option<Category>, transaction: &Transaction) -> (shown: bool)
    ensures
        shown == shows(category.deep_view(), transaction@),
{
    match category {
        None => true,
        Some(wanted) => match transaction.category_ref() {
            Some(own) => own == wanted,
            None => false,
        },
    }
}

/// The transactions of `category`, or all of them where `category` is
/// `None`, from the earliest to the latest.
pub(crate) fn list<'a>(transactions: &'a Vec<Transaction>, category: &Option<Category>) -> (listed:
    Vec<&'a Transaction>)
    ensures
        listed.deep_view() == listing(transactions.deep_view(), category.deep_view()),
{
    let ghost all = transactions.deep_view();
    let ghost wanted = category.deep_view();
    let mut listed: Vec<&Transaction> = Vec::new();
    let mut i: usize = 0;
    assert(all.take(0) =~= Seq::empty());
    assert(selection(all.take(0), wanted) =~= Seq::empty()) by {
        reveal(Seq::filter);
    }
    assert(listed.deep_view() =~= Seq::empty());
    while i < transactions.len()
        invariant
            i <= transactions.len(),
            all == transactions.deep_view(),
            wanted == category.deep_view(),
            listed.deep_view() == by_time(selection(all.take(i as int), wanted)),
        decreases transactions.len() - i,
    {
        let transaction = &transactions[i];
        proof {
            lemma_selection_step(all, wanted, i as int);
        }
        if is_shown(category, transaction) {
            let ghost earlier = listed.deep_view();
            let mut at: usize = listed.len();
            while at > 0 && listed[at - 1].datetime() > transaction.datetime()
                invariant
                    at <= listed.len(),
                    earlier == listed.deep_view(),
                    forall|k: int|
                        at <= k < listed.len() ==> earlier[k].datetime > transaction@.datetime,
                decreases at,
            {
                at -= 1;
            }
            proof {
                lemma_placed_at(earlier, transaction@, at as int);
            }
            listed.insert(at, transaction);
            assert(listed.deep_view() =~= earlier.insert(at as int, transaction@));
            proof {
                let chosen = selection(all.take(i as int), wanted);
                assert(transaction@ == all[i as int]);
                assert(chosen.push(all[i as int]).drop_last() =~= chosen);
            }
        }
        i += 1;
    }
    assert(all.take(i as int) =~= all);
    listed
}

/// Sorting one more transaction puts it at some place among the others as
/// they are sorted: the place that this gives.
pub(crate) proof fn lemma_by_time_places(transactions: Seq<TransactionView>) -> (at: int)
    requires
        transactions.len() > 0,
    ensures
        0 <= at <= by_time(transactions.drop_last()).len(),
        by_time(transactions.drop_last()).len() == transactions.len() - 1,
        by_time(transactions) == by_time(transactions.drop_last()).insert(
            at,
            transactions.last(),
        ),
{
    lemma_by_time_sorts(transactions.drop_last(), 0);
    lemma_place_of(by_time(transactions.drop_last()), transactions.last())
}

/// The transactions of the instant `instant`.
pub open spec fn at_instant(instant: int) -> spec_fn(TransactionView) -> bool {
    |transaction: TransactionView| transaction.datetime == instant
}

/// Where `pred` holds of no transaction, none passes.
proof fn lemma_none_passes(
    transactions: Seq<TransactionView>,
    pred: spec_fn(TransactionView) -> bool,
)
    requires
        forall|i: int| 0 <= i < transactions.len() ==> !pred(transactions[i]),
    ensures
        transactions.filter(pred) == Seq::<TransactionView>::empty(),
    decreases transactions.len(),
{
    reveal(Seq::filter);
    if transactions.len() > 0 {
        let front = transactions.drop_last();
        assert forall|i: int| 0 <= i < front.len() implies !pred(front[i]) by {
            assert(front[i] == transactions[i]);
        }
        lemma_none_passes(front, pred);
    }
}

/// Sorting changes neither which transactions there are nor how often each
/// occurs, puts none before an earlier one, and keeps the transactions of
/// one instant in the order in which they stood.
pub proof fn lemma_by_time_sorts(transactions: Seq<TransactionView>, instant: int)
    ensures
        is_ordered(by_time(transactions)),
        by_time(transactions).len() == transactions.len(),
        by_time(transactions).to_multiset() == transactions.to_multiset(),
        by_time(transactions).filter(at_instant(instant)) == transactions.filter(
            at_instant(instant),
        ),
    decreases transactions.len(),
{
    broadcast use vstd::seq_lib::group_to_multiset_ensures;

    if transactions.len() > 0 {
        let front = transactions.drop_last();
        let item = transactions.last();
        let sorted = by_time(front);
        lemma_by_time_sorts(front, instant);
        let at = lemma_place_of(sorted, item);
        let result = sorted.insert(at, item);
        assert(result == by_time(transactions));
        assert(transactions =~= front.push(item));
        assert forall|i: int, j: int| 0 <= i <= j < result.len() implies result[i].datetime
            <= result[j].datetime by {
            if at > 0 && i < at {
                assert(sorted[i].datetime <= sorted[at - 1].datetime);
            }
        }
        let same = at_instant(instant);
        let head = sorted.subrange(0, at);
        let tail = sorted.subrange(at, sorted.len() as int);
        assert(sorted =~= head + tail);
        assert(result =~= head.push(item) + tail);
        Seq::filter_distributes_over_add(head, tail, same);
        Seq::filter_distributes_over_add(head.push(item), tail, same);
        head.lemma_filter_push(item, same);
        front.lemma_filter_push(item, same);
        if same(item) {
            assert forall|i: int| 0 <= i < tail.len() implies !same(tail[i]) by {
                assert(tail[i] == sorted[at + i]);
            }
            lemma_none_passes(tail, same);
            assert(head.filter(same) + Seq::<TransactionView>::empty() =~= head.filter(same));
            assert(head.filter(same).push(item) + Seq::<TransactionView>::empty()
                =~= head.filter(same).push(item));
        }
    }
}

/// A listing holds exactly the transactions of the store that it is to
/// show, each as often as the store holds it, from the earliest to the
/// latest, and those of one instant in the order in which the store holds
/// them.
pub proof fn lemma_listing_is_the_sorted_selection(
    transactions: Seq<TransactionView>,
    category: Option<CategoryView>,
    instant: int,
)
    ensures
        is_ordered(listing(transactions, category)),
        forall|transaction: TransactionView| #[trigger]
            listing(transactions, category).contains(transaction) <==> transactions.contains(
                transaction,
            ) && shows(category, transaction),
        listing(transactions, category).to_multiset() == selection(
            transactions,
            category,
        ).to_multiset(),
        listing(transactions, category).filter(at_instant(instant)) == selection(
            transactions,
            category,
        ).filter(at_instant(instant)),
        category is None ==> selection(transactions, category) == transactions,
{
    broadcast use vstd::seq_lib::group_to_multiset_ensures;

    let chosen = selection(transactions, category);
    let pred = |transaction: TransactionView| shows(category, transaction);
    lemma_by_time_sorts(chosen, instant);
    assert forall|transaction: TransactionView| #[trigger]
        listing(transactions, category).contains(transaction) <==> transactions.contains(
            transaction,
        ) && shows(category, transaction) by {
        assert(listing(transactions, category).contains(transaction) <==> chosen.contains(
            transaction,
        )) by {
            assert(listing(transactions, category).to_multiset().count(transaction)
                == chosen.to_multiset().count(transaction));
        }
        if chosen.contains(transaction) {
            transactions.lemma_filter_contains_rev(pred, transaction);
            let i = choose|i: int| 0 <= i < chosen.len() && chosen[i] == transaction;
            transactions.lemma_filter_pred(pred, i);
        }
        if transactions.contains(transaction) && shows(category, transaction) {
            let i = choose|i: int| 0 <= i < transactions.len() && transactions[i] == transaction;
            transactions.lemma_filter_contains(pred, i);
        }
    }
    if category is None {
        lemma_all_pass(transactions, pred);
    }
}

/// Where `pred` holds of every transaction, all pass.
proof fn lemma_all_pass(transactions: Seq<TransactionView>, pred: spec_fn(TransactionView) -> bool)
    requires
        forall|i: int| 0 <= i < transactions.len() ==> pred(transactions[i]),
    ensures
        transactions.filter(pred) == transactions,
    decreases transactions.len(),
{
    reveal(Seq::filter);
    if transactions.len() > 0 {
        let front = transactions.drop_last();
        assert forall|i: int| 0 <= i < front.len() implies pred(front[i]) by {
            assert(front[i] == transactions[i]);
        }
        lemma_all_pass(front, pred);
        assert(front.push(transactions.last()) =~= transactions);
    }
}

} // verus!
