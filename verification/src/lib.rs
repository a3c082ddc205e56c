pub mod types;
pub mod collections;
pub mod text;
pub mod error;
pub mod scheduler;
pub mod crypto;
pub mod block;
pub mod multisig;
pub mod social_recovery;
pub mod consensus;
pub mod evm;
pub mod gas_sponsorship;
pub mod path;
pub mod config;
pub mod chain;
pub mod laws;
pub mod validation;
pub mod database;
pub mod blockchain;
pub mod signature;
