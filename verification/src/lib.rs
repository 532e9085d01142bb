//! A cross-network registry of domains and the assets bound to them, with the
//! reconciliation engine that keeps the registry in step with remote networks.

pub mod admission;
pub mod assetdiscovery;
pub mod bytes;
pub mod crypto;
pub mod encoding;
pub mod engine;
pub mod laws;
pub mod resolver;
pub mod seqs;
pub mod storage;
pub mod tld;
