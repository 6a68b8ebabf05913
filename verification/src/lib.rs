//! A verified ledger for exact-decimal account bookkeeping.
//!
//! The crate has two halves: `types` holds the fixed-point money type
//! (`Centicents`, a count of ten-thousandths of a unit) together with its
//! parser and formatter, and `ledger` holds the account state machine that
//! applies deposit, withdrawal, dispute, resolve and chargeback records.

pub mod ledger;
pub mod types;
