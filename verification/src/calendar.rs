//! The clock and the calendar. Both come from `chrono`; this crate reads
//! the one and asks the other, and computes neither.

use vstd::prelude::*;
use crate::models::Timestamp;

verus! {

/// The year and month in which an instant lies in UTC, as chrono's pattern
/// `%Y-%m` writes them: `2024-03` for every instant of March 2024.
pub uninterp spec fn month_label(instant: int) -> Seq<char>;

/// The day on which an instant lies in UTC, as chrono's pattern `%Y-%m-%d`
/// writes it: `2024-03-09`.
pub uninterp spec fn day_label(instant: int) -> Seq<char>;

/// Reads the system clock with `chrono::Utc::now` and converts the reading
/// with `DateTime::timestamp_nanos_opt`, which gives `None` for an instant
/// that does not fit into 64 bits of nanoseconds (one after the year 2262).
/// Nothing is claimed of the reading. Like `Utc::now`, this panics where
/// the system clock stands before 1970.
#[verifier::external_body]
fn read_clock() -> (reading: Option<Timestamp>) {
    chrono::Utc::now().timestamp_nanos_opt()
}

/// The month of `instant`, written by `chrono::DateTime::format` with the
/// pattern `%Y-%m`. `DateTime::from_timestamp_nanos` takes every `i64`, the
/// pattern is valid, and the text depends on the instant alone: it is
/// [`month_label`] of the instant.
#[verifier::external_body]
pub(crate) fn month_of(instant: Timestamp) -> (label: String)
    ensures
        label@ == month_label(instant as int),
{
    chrono::DateTime::from_timestamp_nanos(instant).format("%Y-%m").to_string()
}

/// The day of `instant`, written by `chrono::NaiveDate::format` with the
/// pattern `%Y-%m-%d` for the date that `DateTime::date_naive` gives. The
/// pattern is valid, and the text depends on the instant alone: it is
/// [`day_label`] of the instant.
#[verifier::external_body]
pub(crate) fn day_of(instant: Timestamp) -> (label: String)
    ensures
        label@ == day_label(instant as int),
{
    chrono::DateTime::from_timestamp_nanos(instant).date_naive().format("%Y-%m-%d").to_string()
}

/// The current instant. A clock that has run past the last instant that a
/// [`Timestamp`] can hold reads as that last instant.
pub(crate) fn now() -> Timestamp {
    instant_of(read_clock())
}

/// The instant that a reading of the clock stands for: the reading itself,
/// and the last instant that a [`Timestamp`] can hold where the clock has
/// run past it and gave none.
pub fn instant_of(reading: Option<Timestamp>) -> (instant: Timestamp)
    ensures
        instant == match reading {
            Some(read) => read,
            None => Timestamp::MAX,
        },
{
    match reading {
        Some(read) => read,
        None => Timestamp::MAX,
    }
}

} // verus!
