//! Shared-expense settlement library.
//!
//! Converts between decimal price strings and exact integer minor units
//! (`money`), validates batches of priced items (`ledger`), and derives the
//! pairwise settlement matrix from per-user lifetime totals (`settle`).

pub mod ledger;
pub mod money;
pub mod settle;
