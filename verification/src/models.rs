//! Transactions and categories: plain records without validation.

use vstd::prelude::*;
use crate::calendar;

verus! {

/// Identifies a transaction among those of one store.
pub type TransactionId = u32;

/// Identifies a category among those of one store. Transactions and
/// categories are numbered apart: the same number may name one of each.
pub type CategoryId = u32;

/// An amount of money, in units of the smallest denomination. Money spent
/// is counted above zero, money received below.
pub type Amount = i64;

/// A monthly spending ceiling, in the same units as [`Amount`].
pub type Limit = i64;

/// An instant: nanoseconds since 1970-01-01 00:00:00 UTC.
pub type Timestamp = i64;

/// What a [`Category`] is: its identifier and its name.
pub struct CategoryView {
    pub id: nat,
    pub name: Seq<char>,
}

/// A user-defined category of transactions.
#[derive(Debug)]
pub struct Category {
    id: CategoryId,
    name: String,
}

impl View for Category {
    type V = CategoryView;

    closed spec fn view(&self) -> CategoryView {
        CategoryView { id: self.id as nat, name: self.name@ }
    }
}

impl Category {
    /// A category with this identifier and name. Neither is checked: the
    /// name may be empty, and the store is what keeps identifiers apart.
    pub fn new(id: CategoryId, name: String) -> (category: Self)
        ensures
            category@ == (CategoryView { id: id as nat, name: name@ }),
    {
        Category { id, name }
    }

    /// The identifier.
    pub fn id(&self) -> (id: CategoryId)
        ensures
            id == self@.id,
    {
        self.id
    }

    /// The name.
    pub fn name(&self) -> (name: &str)
        ensures
            name@ == self@.name,
    {
        self.name.as_str()
    }
}

impl DeepView for Category {
    type V = CategoryView;

    open spec fn deep_view(&self) -> CategoryView {
        self@
    }
}

impl Clone for Category {
    fn clone(&self) -> (copy: Self)
        ensures
            copy == *self,
    {
        Category { id: self.id, name: self.name.clone() }
    }
}

impl PartialEq for Category {
    /// Two categories are equal when both the identifier and the name agree.
    fn eq(&self, other: &Self) -> (equal: bool) {
        self.id == other.id && self.name == other.name
    }
}

impl vstd::std_specs::cmp::PartialEqSpecImpl for Category {
    open spec fn obeys_eq_spec() -> bool {
        true
    }

    open spec fn eq_spec(&self, other: &Self) -> bool {
        self@ == other@
    }
}

/// What a [`Transaction`] is.
pub struct TransactionView {
    pub id: nat,
    pub amount: int,
    pub description: Seq<char>,
    pub datetime: int,
    pub category: Option<CategoryView>,
}

/// One recorded movement of money. Its category is a copy taken when the
/// transaction was made, not a reference to the live category.
#[derive(Debug)]
pub struct Transaction {
    id: TransactionId,
    amount: Amount,
    description: String,
    datetime: Timestamp,
    category: Option<Category>,
}

impl View for Transaction {
    type V = TransactionView;

    closed spec fn view(&self) -> TransactionView {
        TransactionView {
            id: self.id as nat,
            amount: self.amount as int,
            description: self.description@,
            datetime: self.datetime as int,
            category: self.category.deep_view(),
        }
    }
}

impl DeepView for Transaction {
    type V = TransactionView;

    open spec fn deep_view(&self) -> TransactionView {
        self@
    }
}

impl Transaction {
    /// A transaction stamped with the current instant, as the system clock
    /// gives it. Which instant that is, is not known beforehand: of the
    /// result only the other four parts are.
    pub fn new(
        id: TransactionId,
        amount: Amount,
        description: String,
        category: Option<Category>,
    ) -> (transaction: Self)
        ensures
            transaction@ == (TransactionView {
                id: id as nat,
                amount: amount as int,
                description: description@,
                datetime: transaction@.datetime,
                category: category.deep_view(),
            }),
    {
        Transaction::at(id, amount, description, calendar::now(), category)
    }

    /// A transaction stamped with the instant `datetime`. Nothing is
    /// checked: any amount, text and identifier are taken.
    pub fn at(
        id: TransactionId,
        amount: Amount,
        description: String,
        datetime: Timestamp,
        category: Option<Category>,
    ) -> (transaction: Self)
        ensures
            transaction@ == (TransactionView {
                id: id as nat,
                amount: amount as int,
                description: description@,
                datetime: datetime as int,
                category: category.deep_view(),
            }),
    {
        Transaction { id, amount, description, datetime, category }
    }

    /// The identifier.
    pub fn id(&self) -> (id: TransactionId)
        ensures
            id == self@.id,
    {
        self.id
    }

    /// A copy of the category, if the transaction has one.
    pub fn category(&self) -> (category: Option<Category>)
        ensures
            category.deep_view() == self@.category,
    {
        match &self.category {
            Some(category) => Some(category.clone()),
            None => None,
        }
    }

    /// The category, if the transaction has one, without copying it.
    pub fn category_ref(&self) -> (category: Option<&Category>)
        ensures
            category.deep_view() == self@.category,
    {
        self.category.as_ref()
    }

    /// Leaves the transaction without a category; nothing else changes.
    pub fn remove_category(&mut self)
        ensures
            final(self)@ == (TransactionView { category: None, ..old(self)@ }),
    {
        self.category = None;
    }

    /// The instant with which the transaction was stamped.
    pub fn datetime(&self) -> (datetime: Timestamp)
        ensures
            datetime == self@.datetime,
    {
        self.datetime
    }

    /// The amount, above zero for money spent.
    pub fn amount(&self) -> (amount: Amount)
        ensures
            amount == self@.amount,
    {
        self.amount
    }

    /// The text that describes the transaction; it may be empty.
    pub fn description(&self) -> (description: &str)
        ensures
            description@ == self@.description,
    {
        self.description.as_str()
    }
}

impl Clone for Transaction {
    fn clone(&self) -> (copy: Self)
        ensures
            copy == *self,
    {
        Transaction {
            id: self.id,
            amount: self.amount,
            description: self.description.clone(),
            datetime: self.datetime,
            category: match &self.category {
                Some(category) => Some(category.clone()),
                None => None,
            },
        }
    }
}

} // verus!
