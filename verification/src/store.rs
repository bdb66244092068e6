//! The store: every transaction and category in the order in which it was
//! added, the identifiers handed out so far, and the spending limit.
//!
//! The store keeps its state in memory. Writing it to the file at
//! [`Store::path`] after a change, and reading it back, is the caller's part.

use vstd::prelude::*;
use crate::calendar;
use crate::listing;
use crate::models::{
    Amount, Category, CategoryId, Limit, Timestamp, Transaction, TransactionId, TransactionView,
};
use crate::state::{
    category_ids, detached, first_position, highest, lemma_first_position,
    lemma_first_position_is, lemma_restore_is_well_formed, transaction_ids, StoreState,
};

verus! {

/// Where a store is kept when no path is given.
pub const DEFAULT_PATH: &'static str = "data/data.json";

/// The path given, or the default one.
pub open spec fn chosen_path(file_path: Option<&str>) -> Seq<char> {
    match file_path {
        Some(path) => path@,
        None => DEFAULT_PATH@,
    }
}

/// A category was named by an identifier under which the store holds none.
#[derive(Debug, PartialEq, Eq, Structural)]
pub struct CategoryNotFound {
    /// The identifier that names no category.
    pub id: CategoryId,
}

impl CategoryNotFound {
    /// What to tell the user.
    pub fn message(&self) -> (message: String)
        ensures
            message@ == "Category not found"@,
    {
        "Category not found".to_owned()
    }
}

/// Transactions, categories and the spending limit of one user.
#[derive(Debug)]
pub struct Store {
    transactions: Vec<Transaction>,
    max_transaction_id: TransactionId,
    categories: Vec<Category>,
    max_category_id: CategoryId,
    limit: Option<Limit>,
    path: String,
}

impl View for Store {
    type V = StoreState;

    closed spec fn view(&self) -> StoreState {
        StoreState {
            transactions: self.transactions.deep_view(),
            max_transaction_id: self.max_transaction_id as nat,
            categories: self.categories.deep_view(),
            max_category_id: self.max_category_id as nat,
            limit: match self.limit {
                Some(limit) => Some(limit as int),
                None => None,
            },
            path: self.path@,
        }
    }
}

impl Store {
    /// An empty store that is kept at `file_path`, or at [`DEFAULT_PATH`]
    /// when no path is given.
    pub fn new(file_path: Option<&str>) -> (store: Self)
        ensures
            store@ == StoreState::empty(chosen_path(file_path)),
            store@.well_formed(),
            store@.marks_are_exact(),
    {
        let path = match file_path {
            Some(path) => path.to_owned(),
            None => DEFAULT_PATH.to_owned(),
        };
        let store = Store {
            transactions: Vec::new(),
            max_transaction_id: 0,
            categories: Vec::new(),
            max_category_id: 0,
            limit: None,
            path,
        };
        assert(store@.transactions =~= Seq::empty());
        assert(store@.categories =~= Seq::empty());
        store
    }

    /// The store that holds the given records, as they were read from the
    /// file at `file_path` (or at [`DEFAULT_PATH`]). The marks are not kept
    /// in the file: each is the largest identifier among the records of its
    /// kind, and 0 where there is none.
    pub fn restore(
        file_path: Option<&str>,
        transactions: Vec<Transaction>,
        categories: Vec<Category>,
        limit: Option<Limit>,
    ) -> (store: Self)
        ensures
            store@ == StoreState::restore(
                chosen_path(file_path),
                transactions.deep_view(),
                categories.deep_view(),
                match limit {
                    Some(amount) => Some(amount as int),
                    None => None,
                },
            ),
            store@.well_formed(),
            store@.marks_are_exact(),
    {
        let path = match file_path {
            Some(path) => path.to_owned(),
            None => DEFAULT_PATH.to_owned(),
        };
        let max_transaction_id = highest_transaction_id(&transactions);
        let max_category_id = highest_category_id(&categories);
        let store = Store {
            transactions,
            max_transaction_id,
            categories,
            max_category_id,
            limit,
            path,
        };
        proof {
            lemma_restore_is_well_formed(
                store@.path,
                store@.transactions,
                store@.categories,
                store@.limit,
            );
        }
        store
    }

    /// The path of the file in which this store is kept.
    pub fn path(&self) -> (path: &str)
        ensures
            path@ == self@.path,
    {
        self.path.as_str()
    }

    /// The largest transaction identifier handed out or read so far.
    pub fn max_transaction_id(&self) -> (id: TransactionId)
        ensures
            id == self@.max_transaction_id,
    {
        self.max_transaction_id
    }

    /// The largest category identifier handed out or read so far.
    pub fn max_category_id(&self) -> (id: CategoryId)
        ensures
            id == self@.max_category_id,
    {
        self.max_category_id
    }

    /// Every transaction, in the order in which they were added.
    pub fn transactions(&self) -> (transactions: &Vec<Transaction>)
        ensures
            transactions.deep_view() == self@.transactions,
    {
        &self.transactions
    }

    /// Adds a transaction stamped with the current instant and returns its
    /// identifier, which is one above the mark.
    pub fn add_transaction(
        &mut self,
        description: String,
        amount: Amount,
        category: Option<Category>,
    ) -> (id: TransactionId)
        requires
            old(self)@.max_transaction_id < TransactionId::MAX,
        ensures
            id == old(self)@.next_transaction_id(),
            final(self)@ == old(self)@.add_transaction(
                description@,
                amount as int,
                final(self)@.transactions.last().datetime,
                category.deep_view(),
            ),
            old(self)@.well_formed() ==> final(self)@.well_formed(),
    {
        self.add_transaction_at(description, amount, calendar::now(), category)
    }

    /// Adds a transaction stamped with the instant `datetime` and returns
    /// its identifier, which is one above the mark.
    pub fn add_transaction_at(
        &mut self,
        description: String,
        amount: Amount,
        datetime: Timestamp,
        category: Option<Category>,
    ) -> (id: TransactionId)
        requires
            old(self)@.max_transaction_id < TransactionId::MAX,
        ensures
            id == old(self)@.next_transaction_id(),
            final(self)@ == old(self)@.add_transaction(
                description@,
                amount as int,
                datetime as int,
                category.deep_view(),
            ),
            old(self)@.well_formed() ==> final(self)@.well_formed(),
    {
        let id = self.max_transaction_id + 1;
        let transaction = Transaction::at(id, amount, description, datetime, category);
        self.max_transaction_id = id;
        self.transactions.push(transaction);
        assert(self@.transactions =~= old(self)@.transactions.push(transaction@));
        id
    }

    /// Removes the first transaction with the identifier `id` and says
    /// whether there was one. Without one the store stays as it is, and
    /// there is nothing new to write to its file.
    pub fn delete_transaction(&mut self, id: TransactionId) -> (removed: bool)
        ensures
            final(self)@ == old(self)@.delete_transaction(id as nat),
            removed == first_position(
                transaction_ids(old(self)@.transactions),
                id as nat,
            ).is_some(),
            old(self)@.well_formed() ==> final(self)@.well_formed(),
    {
        match position_of_transaction(&self.transactions, id) {
            Some(at) => {
                self.transactions.remove(at);
                assert(self@.transactions =~= old(self)@.transactions.remove(at as int));
                true
            },
            None => false,
        }
    }

    /// The transactions whose category equals `category` in identifier and
    /// name, or every transaction where `category` is `None`, from the
    /// earliest to the latest. Transactions of the same instant stand in
    /// the order in which they were added.
    pub fn list_transactions(&self, category: Option<Category>) -> (listed: Vec<&Transaction>)
        ensures
            listed.deep_view() == self@.list_transactions(category.deep_view()),
    {
        listing::list(&self.transactions, &category)
    }

    /// A copy of the first category with the identifier `id`.
    pub fn get_category(&self, id: CategoryId) -> (category: Option<Category>)
        ensures
            category.deep_view() == self@.get_category(id as nat),
    {
        match position_of_category(&self.categories, id) {
            Some(at) => Some(self.categories[at].clone()),
            None => None,
        }
    }

    /// The category, if any, that a caller names by its identifier: a copy
    /// of the first category with that identifier. Naming none is in order
    /// and gives none; naming one that the store does not hold is an error.
    pub fn category_for(&self, id: Option<CategoryId>) -> (found: Result<
        Option<Category>,
        CategoryNotFound,
    >)
        ensures
            found is Err <==> (id matches Some(named) && self@.get_category(named as nat) is None),
            found matches Err(error) ==> id == Some(error.id),
            found matches Ok(category) ==> category.deep_view() == match id {
                Some(named) => self@.get_category(named as nat),
                None => None,
            },
    {
        match id {
            None => Ok(None),
            Some(named) => match self.get_category(named) {
                Some(category) => Ok(Some(category)),
                None => Err(CategoryNotFound { id: named }),
            },
        }
    }

    /// Adds a category and returns its identifier, which is one above the
    /// mark.
    pub fn add_category(&mut self, name: &str) -> (id: CategoryId)
        requires
            old(self)@.max_category_id < CategoryId::MAX,
        ensures
            id == old(self)@.next_category_id(),
            final(self)@ == old(self)@.add_category(name@),
            old(self)@.well_formed() ==> final(self)@.well_formed(),
    {
        let id = self.max_category_id + 1;
        let category = Category::new(id, name.to_owned());
        self.max_category_id = id;
        self.categories.push(category);
        assert(self@.categories =~= old(self)@.categories.push(category@));
        id
    }

    /// Removes the first category with the identifier `id`, if there is
    /// one. Every transaction whose category has that identifier is left
    /// without a category, whether or not a category was removed.
    pub fn delete_category(&mut self, id: CategoryId)
        ensures
            final(self)@ == old(self)@.delete_category(id as nat),
            forall|i: int|
                0 <= i < final(self)@.transactions.len() ==> match (
                #[trigger] final(self)@.transactions[i]).category {
                    Some(category) => category.id != id,
                    None => true,
                },
            old(self)@.well_formed() ==> final(self)@.well_formed(),
    {
        let ghost before = self@;
        match position_of_category(&self.categories, id) {
            Some(at) => {
                self.categories.remove(at);
                assert(self@.categories =~= before.categories.remove(at as int));
            },
            None => {},
        }
        let ghost categories = self@.categories;
        let mut i: usize = 0;
        while i < self.transactions.len()
            invariant
                i <= self.transactions.len(),
                self@.transactions.len() == before.transactions.len(),
                forall|k: int|
                    0 <= k < i ==> self@.transactions[k] == detached(
                        before.transactions[k],
                        id as nat,
                    ),
                forall|k: int|
                    i <= k < self@.transactions.len() ==> self@.transactions[k]
                        == before.transactions[k],
                self@ == (StoreState { transactions: self@.transactions, categories, ..before }),
            decreases self.transactions.len() - i,
        {
            let ghost earlier = self@.transactions;
            let refers = match self.transactions[i].category_ref() {
                Some(category) => category.id() == id,
                None => false,
            };
            if refers {
                self.transactions[i].remove_category();
            }
            assert(self@.transactions[i as int] == detached(earlier[i as int], id as nat));
            assert forall|k: int|
                0 <= k < self@.transactions.len() && k != i implies self@.transactions[k]
                == earlier[k] by {}
            assert forall|k: int| 0 <= k <= i implies self@.transactions[k] == detached(
                before.transactions[k],
                id as nat,
            ) by {
                if k < i {
                    assert(self@.transactions[k] == earlier[k]);
                }
            }
            assert forall|k: int| i < k < self@.transactions.len() implies self@.transactions[k]
                == before.transactions[k] by {
                assert(self@.transactions[k] == earlier[k]);
            }
            i += 1;
        }
        assert(self@.transactions =~= before.transactions.map_values(
            |transaction: TransactionView| detached(transaction, id as nat),
        ));
    }

    /// Every category, in the order in which they were added.
    pub fn list_categories(&self) -> (categories: Vec<&Category>)
        ensures
            categories.deep_view() == self@.categories,
    {
        let mut categories: Vec<&Category> = Vec::new();
        let mut i: usize = 0;
        while i < self.categories.len()
            invariant
                i <= self.categories.len(),
                categories.len() == i,
                forall|k: int| 0 <= k < i ==> categories[k] == &self.categories[k],
            decreases self.categories.len() - i,
        {
            categories.push(&self.categories[i]);
            i += 1;
        }
        assert(categories.deep_view() =~= self.categories.deep_view());
        categories
    }

    /// Sets the monthly spending limit. An amount above zero becomes the
    /// limit; zero or less leaves the store without a limit.
    pub fn set_limit(&mut self, limit: Limit)
        ensures
            final(self)@ == old(self)@.set_limit(limit as int),
            old(self)@.well_formed() ==> final(self)@.well_formed(),
    {
        if limit > 0 {
            self.limit = Some(limit);
        } else {
            self.limit = None;
        }
    }

    /// The spending limit, if one is set.
    pub fn limit(&self) -> (limit: Option<Limit>)
        ensures
            self@.limit == match limit {
                Some(amount) => Some(amount as int),
                None => None,
            },
    {
        self.limit
    }
}

/// The largest identifier among `transactions`, 0 where there is none.
fn highest_transaction_id(transactions: &Vec<Transaction>) -> (max: TransactionId)
    ensures
        max == highest(transaction_ids(transactions.deep_view())),
{
    let ghost ids = transaction_ids(transactions.deep_view());
    let mut max: TransactionId = 0;
    let mut i: usize = 0;
    while i < transactions.len()
        invariant
            i <= transactions.len(),
            ids == transaction_ids(transactions.deep_view()),
            max == highest(ids.take(i as int)),
        decreases transactions.len() - i,
    {
        assert(ids.take(i + 1).drop_last() =~= ids.take(i as int));
        let id = transactions[i].id();
        if id > max {
            max = id;
        }
        i += 1;
    }
    assert(ids.take(i as int) =~= ids);
    max
}

/// The largest identifier among `categories`, 0 where there is none.
fn highest_category_id(categories: &Vec<Category>) -> (max: CategoryId)
    ensures
        max == highest(category_ids(categories.deep_view())),
{
    let ghost ids = category_ids(categories.deep_view());
    let mut max: CategoryId = 0;
    let mut i: usize = 0;
    while i < categories.len()
        invariant
            i <= categories.len(),
            ids == category_ids(categories.deep_view()),
            max == highest(ids.take(i as int)),
        decreases categories.len() - i,
    {
        assert(ids.take(i + 1).drop_last() =~= ids.take(i as int));
        let id = categories[i].id();
        if id > max {
            max = id;
        }
        i += 1;
    }
    assert(ids.take(i as int) =~= ids);
    max
}

/// The first place among `transactions` whose transaction has the identifier
/// `id`.
fn position_of_transaction(transactions: &Vec<Transaction>, id: TransactionId) -> (position: Option<
    usize,
>)
    ensures
        match position {
            Some(at) => first_position(transaction_ids(transactions.deep_view()), id as nat)
                == Some(at as int),
            None => first_position(transaction_ids(transactions.deep_view()), id as nat) is None,
        },
{
    let ghost ids = transaction_ids(transactions.deep_view());
    let mut i: usize = 0;
    while i < transactions.len()
        invariant
            i <= transactions.len(),
            ids == transaction_ids(transactions.deep_view()),
            forall|before: int| 0 <= before < i ==> ids[before] != id,
        decreases transactions.len() - i,
    {
        if transactions[i].id() == id {
            proof {
                lemma_first_position_is(ids, id as nat, i as int);
            }
            return Some(i);
        }
        i += 1;
    }
    proof {
        lemma_first_position(ids, id as nat);
    }
    None
}

/// The first place among `categories` whose category has the identifier `id`.
fn position_of_category(categories: &Vec<Category>, id: CategoryId) -> (position: Option<usize>)
    ensures
        match position {
            Some(at) => first_position(category_ids(categories.deep_view()), id as nat) == Some(
                at as int,
            ),
            None => first_position(category_ids(categories.deep_view()), id as nat) is None,
        },
{
    let ghost ids = category_ids(categories.deep_view());
    let mut i: usize = 0;
    while i < categories.len()
        invariant
            i <= categories.len(),
            ids == category_ids(categories.deep_view()),
            forall|before: int| 0 <= before < i ==> ids[before] != id,
        decreases categories.len() - i,
    {
        if categories[i].id() == id {
            proof {
                lemma_first_position_is(ids, id as nat, i as int);
            }
            return Some(i);
        }
        i += 1;
    }
    proof {
        lemma_first_position(ids, id as nat);
    }
    None
}

} // verus!
