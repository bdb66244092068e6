//! A personal finance tracker: transactions, categories, a monthly spending
//! limit, and summaries over them.
//!
//! Amounts are whole numbers of the smallest currency unit, with money spent
//! above zero. Instants are nanoseconds since the Unix epoch; months and
//! days are those of UTC.
//!
//! * [`models`]: transactions and categories.
//! * [`store`]: the store that owns them, hands out identifiers and keeps
//!   the limit; [`state`] is what it holds, as a mathematical value, and
//!   [`history`] what holds of it over any run of operations.
//! * [`listing`]: transactions by category, in order of time.
//! * [`summary`]: totals by month, category and day, and what is left of
//!   the limit.
//! * [`calendar`]: the clock and the calendar, both by `chrono`.

pub mod calendar;
pub mod history;
pub mod listing;
pub mod models;
pub mod state;
pub mod store;
pub mod summary;
