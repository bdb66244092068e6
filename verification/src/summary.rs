//! Summaries: the total of the transactions of a month and a category, the
//! same per day, and what is left of a spending limit.

use vstd::prelude::*;
use crate::calendar::{self, day_label, month_label};
use crate::listing::{by_time, lemma_by_time_places};
use crate::models::{Amount, Category, CategoryView, Limit, Timestamp, Transaction, TransactionView};

verus! {

/// The month filter that lets every month pass.
pub const OVERALL: &'static str = "overall";

/// What a summary reads of one transaction: the month and the day of its
/// instant, its amount and its category.
pub struct EntryView {
    pub month: Seq<char>,
    pub day: Seq<char>,
    pub amount: int,
    pub category: Option<CategoryView>,
}

/// The entry of a transaction: its instant is given by the month and the
/// day as the calendar writes them.
pub open spec fn entry_of(transaction: TransactionView) -> EntryView {
    EntryView {
        month: month_label(transaction.datetime),
        day: day_label(transaction.datetime),
        amount: transaction.amount,
        category: transaction.category,
    }
}

/// The entries of `transactions`, in their order.
pub open spec fn entries_of(transactions: Seq<TransactionView>) -> Seq<EntryView> {
    transactions.map_values(|transaction: TransactionView| entry_of(transaction))
}

/// The entries that a summary for `month` and `category` counts. The month
/// [`OVERALL`] lets every month pass, any other text only the entries whose
/// month is written exactly so. No category lets every entry pass, with or
/// without one; a category only the entries whose own category has the same
/// identifier and the same name.
pub open spec fn counts(month: Seq<char>, category: Option<CategoryView>) -> spec_fn(
    EntryView,
) -> bool {
    |entry: EntryView|
        {
            &&& month == OVERALL@ || entry.month == month
            &&& category is Some ==> entry.category == category
        }
}

/// The entries of `day` among those that [`counts`] lets pass.
pub open spec fn counts_on(
    month: Seq<char>,
    category: Option<CategoryView>,
    day: Seq<char>,
) -> spec_fn(EntryView) -> bool {
    |entry: EntryView| counts(month, category)(entry) && entry.day == day
}

/// The sum of the amounts of `entries`.
pub open spec fn sum_of(entries: Seq<EntryView>) -> int
    decreases entries.len(),
{
    if entries.len() == 0 {
        0
    } else {
        sum_of(entries.drop_last()) + entries.last().amount
    }
}

/// The total of a summary for `month` and `category`.
pub open spec fn total(
    entries: Seq<EntryView>,
    month: Seq<char>,
    category: Option<CategoryView>,
) -> int {
    sum_of(entries.filter(counts(month, category)))
}

/// The totals per day of a summary for `month` and `category`: a day is
/// present exactly if an entry of that day counts, and is mapped to the sum
/// of the amounts of those entries.
pub open spec fn by_day(
    entries: Seq<EntryView>,
    month: Seq<char>,
    category: Option<CategoryView>,
) -> Map<Seq<char>, int> {
    Map::new(
        |day: Seq<char>| entries.filter(counts_on(month, category, day)).len() > 0,
        |day: Seq<char>| sum_of(entries.filter(counts_on(month, category, day))),
    )
}

/// One transaction as a summary reads it.
pub struct Entry<'a> {
    month: String,
    day: String,
    amount: Amount,
    category: Option<&'a Category>,
}

impl<'a> View for Entry<'a> {
    type V = EntryView;

    closed spec fn view(&self) -> EntryView {
        EntryView {
            month: self.month@,
            day: self.day@,
            amount: self.amount as int,
            category: self.category.deep_view(),
        }
    }
}

impl<'a> DeepView for Entry<'a> {
    type V = EntryView;

    open spec fn deep_view(&self) -> EntryView {
        self@
    }
}

impl<'a> Entry<'a> {
    /// An entry with the month and the day as given.
    pub fn new(month: String, day: String, amount: Amount, category: Option<&'a Category>) -> (entry:
        Self)
        ensures
            entry@ == (EntryView {
                month: month@,
                day: day@,
                amount: amount as int,
                category: category.deep_view(),
            }),
    {
        Entry { month, day, amount, category }
    }

    /// The entry of `transaction`, with the month and the day in which its
    /// instant lies in UTC.
    pub fn of(transaction: &'a Transaction) -> (entry: Self)
        ensures
            entry@ == entry_of(transaction@),
    {
        let instant = transaction.datetime();
        Entry {
            month: calendar::month_of(instant),
            day: calendar::day_of(instant),
            amount: transaction.amount(),
            category: transaction.category_ref(),
        }
    }
}

/// The totals of a summary per day. A day without a counted transaction is
/// absent.
#[derive(Debug)]
pub struct DayTotals {
    days: Vec<(String, i128)>,
}

/// The days of `days`, in their order.
spec fn day_keys(days: Seq<(String, i128)>) -> Seq<Seq<char>> {
    Seq::new(days.len(), |i: int| days[i].0@)
}

impl View for DayTotals {
    type V = Map<Seq<char>, int>;

    closed spec fn view(&self) -> Map<Seq<char>, int> {
        Map::new(
            |day: Seq<char>| day_keys(self.days@).contains(day),
            |day: Seq<char>| self.days@[day_keys(self.days@).index_of(day)].1 as int,
        )
    }
}

impl DayTotals {
    /// No day stands twice.
    #[verifier::type_invariant]
    spec fn days_are_distinct(self) -> bool {
        day_keys(self.days@).no_duplicates()
    }

    /// The number of days.
    pub fn len(&self) -> (len: usize)
        ensures
            self@.dom().finite(),
            len == self@.dom().len(),
    {
        proof {
            use_type_invariant(self);
            let keys = day_keys(self.days@);
            keys.unique_seq_to_set();
            vstd::seq_lib::seq_to_set_is_finite(keys);
            assert(self@.dom() =~= keys.to_set());
        }
        self.days.len()
    }

    /// The total of `day`, if the day is present.
    pub fn get(&self, day: &str) -> (total: Option<&i128>)
        ensures
            match total {
                Some(total) => self@.contains_key(day@) && self@[day@] == *total,
                None => !self@.contains_key(day@),
            },
    {
        proof {
            use_type_invariant(self);
        }
        let ghost keys = day_keys(self.days@);
        let wanted = day.to_owned();
        let mut i: usize = 0;
        while i < self.days.len()
            invariant
                i <= self.days.len(),
                wanted@ == day@,
                keys == day_keys(self.days@),
                keys.no_duplicates(),
                forall|k: int| 0 <= k < i ==> keys[k] != day@,
            decreases self.days.len() - i,
        {
            if self.days[i].0 == wanted {
                assert(keys[i as int] == day@);
                assert(keys.index_of(day@) == i);
                return Some(&self.days[i].1);
            }
            i += 1;
        }
        None
    }

    /// Every day with its total, each day once, in no particular order.
    pub fn entries(&self) -> (entries: &Vec<(String, i128)>)
        ensures
            entries.len() == self@.dom().len(),
            forall|i: int|
                0 <= i < entries.len() ==> self@.contains_key((#[trigger] entries[i]).0@)
                    && self@[entries[i].0@] == entries[i].1,
            forall|i: int, j: int|
                0 <= i < j < entries.len() ==> entries[i].0@ != entries[j].0@,
    {
        proof {
            use_type_invariant(self);
            let keys = day_keys(self.days@);
            keys.unique_seq_to_set();
            assert(self@.dom() =~= keys.to_set());
            assert forall|i: int| 0 <= i < self.days.len() implies self@.contains_key(
                (#[trigger] self.days[i]).0@,
            ) && self@[self.days[i].0@] == self.days[i].1 by {
                assert(keys[i] == self.days[i].0@);
                assert(keys.index_of(keys[i]) == i);
            }
            assert forall|i: int, j: int| 0 <= i < j < self.days.len() implies self.days[i].0@
                != self.days[j].0@ by {
                assert(keys[i] != keys[j]);
            }
        }
        &self.days
    }
}

/// Whether an entry with the category `own` passes the filter `category`.
fn passes(category: Option<&Category>, own: Option<&Category>) -> (passed: bool)
    ensures
        passed == (category.deep_view() is Some ==> own.deep_view() == category.deep_view()),
{
    match category {
        None => true,
        Some(wanted) => match own {
            Some(own) => own == wanted,
            None => false,
        },
    }
}

/// What one more entry adds to the entries that `pred` lets pass, and to
/// their sum.
proof fn lemma_one_more(all: Seq<EntryView>, pred: spec_fn(EntryView) -> bool, i: int)
    requires
        0 <= i < all.len(),
    ensures
        all.take(i + 1).filter(pred) == if pred(all[i]) {
            all.take(i).filter(pred).push(all[i])
        } else {
            all.take(i).filter(pred)
        },
        sum_of(all.take(i + 1).filter(pred)) == sum_of(all.take(i).filter(pred)) + if pred(all[i]) {
            all[i].amount
        } else {
            0
        },
{
    reveal(Seq::filter);
    assert(all.take(i + 1).drop_last() =~= all.take(i));
    let passed = all.take(i).filter(pred);
    assert(passed.push(all[i]).drop_last() =~= passed);
}

/// The summary of `entries` for `month` and `category`: the total, and the
/// totals per day. The month [`OVERALL`] counts every month; any other text
/// counts the entries whose month is written exactly so, which may be none.
pub fn summarize(entries: &Vec<Entry>, month: &str, category: Option<&Category>) -> (summary: (
    i128,
    DayTotals,
))
    ensures
        summary.0 == total(entries.deep_view(), month@, category.deep_view()),
        summary.1@ == by_day(entries.deep_view(), month@, category.deep_view()),
        -entries.len() * 0x8000_0000_0000_0000 <= summary.0 <= entries.len()
            * 0x8000_0000_0000_0000,
{
    let ghost all = entries.deep_view();
    let ghost m = month@;
    let ghost c = category.deep_view();
    let overall = OVERALL.to_owned();
    let wanted = month.to_owned();
    let every_month = wanted == overall;
    let mut sum: i128 = 0;
    let mut days: Vec<(String, i128)> = Vec::new();
    let mut i: usize = 0;
    proof {
        reveal(Seq::filter);
        assert(all.take(0) =~= Seq::empty());
    }
    while i < entries.len()
        invariant
            i <= entries.len(),
            all == entries.deep_view(),
            c == category.deep_view(),
            wanted@ == m,
            every_month == (m == OVERALL@),
            sum == sum_of(all.take(i as int).filter(counts(m, c))),
            -i * 0x8000_0000_0000_0000 <= sum <= i * 0x8000_0000_0000_0000,
            day_keys(days@).no_duplicates(),
            forall|j: int|
                0 <= j < days.len() ==> {
                    &&& all.take(i as int).filter(counts_on(m, c, (#[trigger] days[j]).0@)).len()
                        > 0
                    &&& days[j].1 == sum_of(all.take(i as int).filter(counts_on(m, c, days[j].0@)))
                    &&& -i * 0x8000_0000_0000_0000 <= days[j].1 <= i * 0x8000_0000_0000_0000
                },
            forall|day: Seq<char>|
                all.take(i as int).filter(#[trigger] counts_on(m, c, day)).len() > 0
                    ==> day_keys(days@).contains(day),
        decreases entries.len() - i,
    {
        let entry = &entries[i];
        let counted = (every_month || entry.month == wanted) && passes(category, entry.category);
        let ghost earlier = days@;
        proof {
            assert(entry@ == all[i as int]);
            assert(counted == counts(m, c)(all[i as int]));
            lemma_one_more(all, counts(m, c), i as int);
            assert forall|day: Seq<char>| true implies {
                &&& all.take(i + 1).filter(#[trigger] counts_on(m, c, day)) == if counted
                    && entry@.day == day {
                    all.take(i as int).filter(counts_on(m, c, day)).push(all[i as int])
                } else {
                    all.take(i as int).filter(counts_on(m, c, day))
                }
                &&& sum_of(all.take(i + 1).filter(counts_on(m, c, day))) == sum_of(
                    all.take(i as int).filter(counts_on(m, c, day)),
                ) + if counted && entry@.day == day {
                    entry@.amount
                } else {
                    0
                }
            } by {
                lemma_one_more(all, counts_on(m, c, day), i as int);
            }
        }
        if counted {
            sum = sum + entry.amount as i128;
            let mut j: usize = 0;
            while j < days.len() && !(days[j].0 == entry.day)
                invariant
                    j <= days.len(),
                    forall|k: int| 0 <= k < j ==> days[k].0@ != entry.day@,
                decreases days.len() - j,
            {
                j += 1;
            }
            if j < days.len() {
                let raised = days[j].1 + entry.amount as i128;
                days[j].1 = raised;
                proof {
                    assert(day_keys(days@) =~= day_keys(earlier));
                    assert forall|k: int| 0 <= k < days.len() implies {
                        &&& all.take(i + 1).filter(counts_on(m, c, (#[trigger] days[k]).0@)).len()
                            > 0
                        &&& days[k].1 == sum_of(
                            all.take(i + 1).filter(counts_on(m, c, days[k].0@)),
                        )
                        &&& -(i + 1) * 0x8000_0000_0000_0000 <= days[k].1 <= (i + 1)
                            * 0x8000_0000_0000_0000
                    } by {
                        assert(earlier[k].0@ == days[k].0@);
                        if k != j {
                            assert(day_keys(earlier)[k] != day_keys(earlier)[j as int]);
                        }
                    }
                    assert(day_keys(days@)[j as int] == entry@.day);
                }
            } else {
                days.push((entry.day.clone(), entry.amount as i128));
                proof {
                    let keys = day_keys(days@);
                    assert(keys =~= day_keys(earlier).push(entry@.day));
                    assert(!day_keys(earlier).contains(entry@.day)) by {
                        if day_keys(earlier).contains(entry@.day) {
                            let k = choose|k: int|
                                0 <= k < earlier.len() && day_keys(earlier)[k] == entry@.day;
                            assert(earlier[k].0@ == entry@.day);
                        }
                    }
                    assert(all.take(i as int).filter(counts_on(m, c, entry@.day)).len() == 0);
                    assert forall|k: int| 0 <= k < days.len() implies {
                        &&& all.take(i + 1).filter(counts_on(m, c, (#[trigger] days[k]).0@)).len()
                            > 0
                        &&& days[k].1 == sum_of(
                            all.take(i + 1).filter(counts_on(m, c, days[k].0@)),
                        )
                        &&& -(i + 1) * 0x8000_0000_0000_0000 <= days[k].1 <= (i + 1)
                            * 0x8000_0000_0000_0000
                    } by {
                        if k < earlier.len() {
                            assert(earlier[k] == days[k]);
                        }
                    }
                    assert(keys[earlier.len() as int] == entry@.day);
                }
            }
        } else {
            proof {
                assert forall|k: int| 0 <= k < days.len() implies {
                    &&& all.take(i + 1).filter(counts_on(m, c, (#[trigger] days[k]).0@)).len() > 0
                    &&& days[k].1 == sum_of(all.take(i + 1).filter(counts_on(m, c, days[k].0@)))
                    &&& -(i + 1) * 0x8000_0000_0000_0000 <= days[k].1 <= (i + 1)
                        * 0x8000_0000_0000_0000
                } by {}
            }
        }
        proof {
            assert forall|day: Seq<char>|
                all.take(i + 1).filter(#[trigger] counts_on(m, c, day)).len()
                    > 0 implies day_keys(days@).contains(day) by {
                if counted && entry@.day == day {
                } else {
                    let k = choose|k: int|
                        0 <= k < earlier.len() && day_keys(earlier)[k] == day;
                    assert(day_keys(days@)[k] == day);
                }
            }
        }
        i += 1;
    }
    let totals = DayTotals { days };
    proof {
        assert(all.take(i as int) =~= all);
        let keys = day_keys(totals.days@);
        assert forall|day: Seq<char>| totals@.contains_key(day) implies by_day(
            all,
            m,
            c,
        ).contains_key(day) by {
            let k = keys.index_of(day);
            assert(totals.days[k].0@ == day);
        }
        assert forall|day: Seq<char>| totals@.contains_key(day) implies totals@[day] == by_day(
            all,
            m,
            c,
        )[day] by {
            let k = keys.index_of(day);
            assert(totals.days[k].0@ == day);
        }
        assert(totals@ =~= by_day(all, m, c));
    }
    (sum, totals)
}

/// The entries of `transactions`, in their order.
fn entries_from<'a>(transactions: &Vec<&'a Transaction>) -> (entries: Vec<Entry<'a>>)
    ensures
        entries.deep_view() == entries_of(transactions.deep_view()),
{
    let mut entries: Vec<Entry<'a>> = Vec::new();
    let mut i: usize = 0;
    while i < transactions.len()
        invariant
            i <= transactions.len(),
            entries.len() == i,
            forall|k: int| 0 <= k < i ==> entries[k]@ == entry_of(transactions[k]@),
        decreases transactions.len() - i,
    {
        let transaction: &'a Transaction = transactions[i];
        entries.push(Entry::of(transaction));
        i += 1;
    }
    assert(entries.deep_view() =~= entries_of(transactions.deep_view()));
    entries
}

/// The summary of `transactions` for a month and a category: the total of
/// the amounts, and the totals per day in UTC.
///
/// `month` is [`OVERALL`] for every month, or a month written as `YYYY-MM`.
/// A text that is neither counts no transaction. With a category only the
/// transactions count whose category has the same identifier and the same
/// name; without one every transaction passes.
pub fn summary(
    transactions: Vec<&Transaction>,
    month: Option<String>,
    category: Option<&Category>,
) -> (summary: (i128, DayTotals))
    requires
        month is Some,
    ensures
        summary.0 == total(
            entries_of(transactions.deep_view()),
            month.unwrap()@,
            category.deep_view(),
        ),
        summary.1@ == by_day(
            entries_of(transactions.deep_view()),
            month.unwrap()@,
            category.deep_view(),
        ),
        -transactions.len() * 0x8000_0000_0000_0000 <= summary.0 <= transactions.len()
            * 0x8000_0000_0000_0000,
{
    let month = month.unwrap();
    let entries = entries_from(&transactions);
    summarize(&entries, month.as_str(), category)
}

/// What is left of `limit` in the current month: the limit less the total
/// of the transactions of the month in which the clock stands, in UTC.
/// Below zero the limit is exceeded by that much.
pub fn check_limit(transactions: Vec<&Transaction>, limit: Limit) -> (remaining: i128)
    ensures
        exists|now: int|
            remaining == limit - total(
                entries_of(transactions.deep_view()),
                #[trigger] month_label(now),
                None,
            ),
{
    check_limit_at(transactions, limit, calendar::now())
}

/// What is left of `limit` in the month in which the instant `now` lies.
pub fn check_limit_at(transactions: Vec<&Transaction>, limit: Limit, now: Timestamp) -> (remaining:
    i128)
    ensures
        remaining == limit - total(
            entries_of(transactions.deep_view()),
            month_label(now as int),
            None,
        ),
{
    let month = calendar::month_of(now);
    let (spent, _) = summary(transactions, Some(month), None);
    limit as i128 - spent
}

/// The sum of the amounts of `transactions`.
pub open spec fn sum_of_amounts(transactions: Seq<TransactionView>) -> int
    decreases transactions.len(),
{
    if transactions.len() == 0 {
        0
    } else {
        sum_of_amounts(transactions.drop_last()) + transactions.last().amount
    }
}

/// The total over every month and every category is the sum of all
/// amounts.
pub proof fn lemma_overall_total_is_the_sum(transactions: Seq<TransactionView>)
    ensures
        total(entries_of(transactions), OVERALL@, None) == sum_of_amounts(transactions),
        total(entries_of(transactions), OVERALL@, None) == sum_of(entries_of(transactions)),
{
    lemma_everything_counts_overall(entries_of(transactions));
    lemma_sum_of_entries(transactions);
}

/// A summary over every month and every category counts every entry.
pub proof fn lemma_everything_counts_overall(entries: Seq<EntryView>)
    ensures
        entries.filter(counts(OVERALL@, None)) == entries,
    decreases entries.len(),
{
    reveal(Seq::filter);
    if entries.len() > 0 {
        lemma_everything_counts_overall(entries.drop_last());
        assert(entries.drop_last().push(entries.last()) =~= entries);
    }
}

/// Where no entry counts, as for a month that is written in no entry, the
/// total is zero and no day is present.
pub proof fn lemma_nothing_counted(
    entries: Seq<EntryView>,
    month: Seq<char>,
    category: Option<CategoryView>,
)
    requires
        forall|i: int| 0 <= i < entries.len() ==> !counts(month, category)(entries[i]),
    ensures
        total(entries, month, category) == 0,
        by_day(entries, month, category) == Map::<Seq<char>, int>::empty(),
{
    lemma_none_pass(entries, counts(month, category));
    assert forall|day: Seq<char>| !by_day(entries, month, category).contains_key(day) by {
        lemma_none_pass(entries, counts_on(month, category, day));
    }
    assert(by_day(entries, month, category) =~= Map::<Seq<char>, int>::empty());
}

/// Where `pred` holds of no entry, none passes.
proof fn lemma_none_pass(entries: Seq<EntryView>, pred: spec_fn(EntryView) -> bool)
    requires
        forall|i: int| 0 <= i < entries.len() ==> !pred(entries[i]),
    ensures
        entries.filter(pred) == Seq::<EntryView>::empty(),
    decreases entries.len(),
{
    reveal(Seq::filter);
    if entries.len() > 0 {
        let front = entries.drop_last();
        assert forall|i: int| 0 <= i < front.len() implies !pred(front[i]) by {
            assert(front[i] == entries[i]);
        }
        lemma_none_pass(front, pred);
    }
}

/// What the entries that `pred` lets pass gain, in number and in sum, when
/// `entry` is put among `entries` at the place `at`.
proof fn lemma_one_among(
    entries: Seq<EntryView>,
    at: int,
    entry: EntryView,
    pred: spec_fn(EntryView) -> bool,
)
    requires
        0 <= at <= entries.len(),
    ensures
        entries.insert(at, entry).filter(pred).len() == entries.filter(pred).len() + if pred(
            entry,
        ) {
            1int
        } else {
            0int
        },
        sum_of(entries.insert(at, entry).filter(pred)) == sum_of(entries.filter(pred)) + if pred(
            entry,
        ) {
            entry.amount
        } else {
            0
        },
{
    let head = entries.subrange(0, at);
    let tail = entries.subrange(at, entries.len() as int);
    assert(entries =~= head + tail);
    assert(entries.insert(at, entry) =~= head.push(entry) + tail);
    Seq::filter_distributes_over_add(head, tail, pred);
    Seq::filter_distributes_over_add(head.push(entry), tail, pred);
    head.lemma_filter_push(entry, pred);
    lemma_sum_of_both(head.filter(pred), tail.filter(pred));
    lemma_sum_of_both(head.push(entry).filter(pred), tail.filter(pred));
    if pred(entry) {
        assert(head.filter(pred).push(entry).drop_last() =~= head.filter(pred));
    }
}

/// The sum of two runs of entries, one after the other, is the sum of the
/// two sums.
proof fn lemma_sum_of_both(first: Seq<EntryView>, second: Seq<EntryView>)
    ensures
        sum_of(first + second) == sum_of(first) + sum_of(second),
    decreases second.len(),
{
    if second.len() == 0 {
        assert(first + second =~= first);
    } else {
        lemma_sum_of_both(first, second.drop_last());
        assert((first + second).drop_last() =~= first + second.drop_last());
    }
}

/// A summary does not go by the order of the transactions: the summary of
/// a listing by time is the summary of what was listed.
pub proof fn lemma_summary_of_a_listing(
    transactions: Seq<TransactionView>,
    month: Seq<char>,
    category: Option<CategoryView>,
)
    ensures
        total(entries_of(by_time(transactions)), month, category) == total(
            entries_of(transactions),
            month,
            category,
        ),
        by_day(entries_of(by_time(transactions)), month, category) == by_day(
            entries_of(transactions),
            month,
            category,
        ),
{
    lemma_listing_counts_alike(transactions, counts(month, category));
    assert forall|day: Seq<char>|
        {
            &&& by_day(entries_of(by_time(transactions)), month, category).contains_key(day)
                == #[trigger] by_day(entries_of(transactions), month, category).contains_key(day)
            &&& by_day(entries_of(transactions), month, category).contains_key(day) ==> by_day(
                entries_of(by_time(transactions)),
                month,
                category,
            )[day] == by_day(entries_of(transactions), month, category)[day]
        } by {
        lemma_listing_counts_alike(transactions, counts_on(month, category, day));
    }
    assert(by_day(entries_of(by_time(transactions)), month, category) =~= by_day(
        entries_of(transactions),
        month,
        category,
    ));
}

/// As many entries pass `pred` in a listing by time as in what was listed,
/// and with the same sum.
proof fn lemma_listing_counts_alike(
    transactions: Seq<TransactionView>,
    pred: spec_fn(EntryView) -> bool,
)
    ensures
        entries_of(by_time(transactions)).filter(pred).len() == entries_of(transactions).filter(
            pred,
        ).len(),
        sum_of(entries_of(by_time(transactions)).filter(pred)) == sum_of(
            entries_of(transactions).filter(pred),
        ),
    decreases transactions.len(),
{
    if transactions.len() > 0 {
        let front = transactions.drop_last();
        let item = transactions.last();
        lemma_listing_counts_alike(front, pred);
        let at = lemma_by_time_places(transactions);
        let listed = entries_of(by_time(front));
        assert(entries_of(by_time(transactions)) =~= listed.insert(at, entry_of(item)));
        lemma_one_among(listed, at, entry_of(item), pred);
        let plain = entries_of(front);
        assert(entries_of(transactions) =~= plain.insert(plain.len() as int, entry_of(item)));
        lemma_one_among(plain, plain.len() as int, entry_of(item), pred);
    }
}

/// The amounts of the entries are those of the transactions.
proof fn lemma_sum_of_entries(transactions: Seq<TransactionView>)
    ensures
        sum_of(entries_of(transactions)) == sum_of_amounts(transactions),
    decreases transactions.len(),
{
    if transactions.len() > 0 {
        lemma_sum_of_entries(transactions.drop_last());
        assert(entries_of(transactions).drop_last() =~= entries_of(transactions.drop_last()));
    }
}

} // verus!
