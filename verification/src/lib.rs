//! Verified core of the EvaporChain execution layer.

pub mod hashing;
pub mod text;
pub mod ordering;
pub mod decimal;
pub mod cache;
pub mod governance;
pub mod gas;
pub mod temporal;
pub mod rewards;
pub mod errors;
pub mod ledger;
pub mod block;
pub mod partition;
pub mod privacy;
pub mod operations;
pub mod crossshard;
pub mod contracts;
pub mod overlay;
