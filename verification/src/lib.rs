//! Billing-cycle date arithmetic and transaction aggregation for a
//! household ledger.
//!
//! A ledger has a configured cycle start day (1 to 31); each billing cycle
//! runs from that day of one month (clamped to the month's length) up to the
//! day before the next cycle's start.  The `cycle` module resolves dates to
//! cycles and labels them; the `report` module folds transaction rows into
//! per-cycle, per-category and per-day totals with exact decimal arithmetic.

pub mod auth;
pub mod config;
pub mod cycle;
pub mod date;
pub mod error;
pub mod forms;
pub mod models;
pub mod money;
pub mod report;
pub mod requests;

pub use date::Date;
