//! The price ledger: timestamped prices and their mean over a period.

pub mod keys;
pub mod ledger;
