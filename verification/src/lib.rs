//! Transaction admission and mining-candidate pipeline of a blockchain node.
//!
//! The crate keeps an ordered, bounded transaction pool ([`pool::TransactionQueue`]),
//! validates incoming transactions against chain and consensus rules
//! ([`engine::CodeChainEngine`] together with a chain reader), orchestrates
//! admission and block-building reads ([`miner::Miner`]), and frames the
//! block-synchronisation wire messages ([`message::Message`]).
//!
//! Addresses, hashes, fees and key material are modelled as plain 64-bit
//! values throughout: the pool, the validation gate and the codec read nothing
//! of them beyond identity and order.

pub mod types;
pub mod pool;
pub mod config;
pub mod engine;
pub mod client;
pub mod miner;
pub mod message;
