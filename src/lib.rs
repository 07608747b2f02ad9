//! An in-memory token ledger: exact decimal amounts, a token registry, a
//! deduplicated transfer log, per-account balances, chain-reorganisation
//! rollback and an ingestion checkpoint.
pub mod amount;
pub mod model;
pub mod ledger;
pub mod store;
pub mod laws;
