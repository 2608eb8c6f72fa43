//! Recurring issue scheduling: which occurrences of each recurring task are
//! due, which of them a ledger has not recorded yet, and how the results of
//! creating them are written back to the ledger.

pub mod date;
pub mod dispatch;
pub mod graphql;
pub mod ledger;
pub mod reconcile;
pub mod schedule;
