//! A per-client transaction ledger.
//!
//! Deposits, withdrawals, disputes, resolutions and chargebacks are applied
//! one at a time to the account they name. Monetary values are fixed-point
//! integers counted in ten-thousandths of a currency unit, so sums are exact.

pub mod amount;
pub mod transaction;
pub mod history;
pub mod account;
pub mod registry;
pub mod laws;
