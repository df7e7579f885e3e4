//! A time-clocking library: an invariant-enforcing store of clocking
//! entries (at most one unfinished entry at any time, no duplicate
//! `(title, start)` pairs), date-range query resolution, and report
//! views that aggregate finished entries by day and title.
pub mod errors;
pub mod query;
pub mod select;
pub mod store;
pub mod time;
pub mod types;
pub mod views;
