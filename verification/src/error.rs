//! Error types of the blockchain.
use vstd::prelude::*;

use crate::text::{decimal, spec_decimal};

verus! {

/// Main blockchain error type.
#[derive(Debug)]
pub enum BlockchainError {
    InvalidBlock(String),
    InvalidTransaction(String),
    Storage(String),
    Network(String),
    Evm(String),
    Consensus(String),
    Validation(String),
    Config(String),
    /// An I/O failure, described by its message.
    Io(String),
    Serialization(String),
    Unknown(String),
    CorruptedVersion(String),
    FutureVersion { found: u32, supported: u32 },
    MigrationFailed { from: u32, to: u32, reason: String },
}

/// Block validation error types for detailed failure reporting.
#[allow(inconsistent_fields)]
#[derive(Debug, PartialEq, Eq)]
pub enum BlockValidationError {
    InvalidTxRoot { expected: String, computed: String },
    UnknownParent(String),
    NoParents,
    DuplicateTransaction(String),
    TimestampTooFarInFuture { timestamp: u64, current: u64, max_future: u64 },
    TimestampTooOld { timestamp: u64, minimum: u64 },
    InvalidBlockNumber { block_number: u64, expected: u64 },
    MaxTransactionsExceeded { count: usize, max: usize },
    BlockSizeExceeded { size: usize, max: usize },
    TooManyParentHashes { count: usize, max: usize },
    InvalidBlockHash { expected: String, computed: String },
    GenesisNotFirst,
    DuplicateBlock,
}

/// The text of an error: its kind's prefix and its message.
pub open spec fn error_text(e: BlockchainError) -> Seq<char> {
    match e {
        BlockchainError::InvalidBlock(m) => "Invalid block: "@ + m@,
        BlockchainError::InvalidTransaction(m) => "Invalid transaction: "@ + m@,
        BlockchainError::Storage(m) => "Storage error: "@ + m@,
        BlockchainError::Network(m) => "Network error: "@ + m@,
        BlockchainError::Evm(m) => "EVM error: "@ + m@,
        BlockchainError::Consensus(m) => "Consensus error: "@ + m@,
        BlockchainError::Validation(m) => "Validation error: "@ + m@,
        BlockchainError::Config(m) => "Configuration error: "@ + m@,
        BlockchainError::Io(m) => "IO error: "@ + m@,
        BlockchainError::Serialization(m) => "Serialization error: "@ + m@,
        BlockchainError::Unknown(m) => "Unknown error: "@ + m@,
        BlockchainError::CorruptedVersion(m) => "Database version corrupted: "@ + m@,
        BlockchainError::FutureVersion { found, supported } => "Database version "@ + spec_decimal(
            found as nat,
        ) + " is newer than supported version "@ + spec_decimal(supported as nat),
        BlockchainError::MigrationFailed { from, to, reason } => "Database migration from v"@
            + spec_decimal(from as nat) + " to v"@ + spec_decimal(to as nat) + " failed: "@ + reason@,
    }
}

fn prefixed_text(prefix: &str, m: &String) -> (r: String)
    ensures
        r@ == prefix@ + m@,
{
    let mut s = String::from_str(prefix);
    s.append(m.as_str());
    s
}

impl BlockchainError {
    /// The error's text.
    pub fn to_string(&self) -> (r: String)
        ensures
            r@ == error_text(*self),
    {
        match self {
            BlockchainError::InvalidBlock(m) => prefixed_text("Invalid block: ", m),
            BlockchainError::InvalidTransaction(m) => prefixed_text("Invalid transaction: ", m),
            BlockchainError::Storage(m) => prefixed_text("Storage error: ", m),
            BlockchainError::Network(m) => prefixed_text("Network error: ", m),
            BlockchainError::Evm(m) => prefixed_text("EVM error: ", m),
            BlockchainError::Consensus(m) => prefixed_text("Consensus error: ", m),
            BlockchainError::Validation(m) => prefixed_text("Validation error: ", m),
            BlockchainError::Config(m) => prefixed_text("Configuration error: ", m),
            BlockchainError::Io(m) => prefixed_text("IO error: ", m),
            BlockchainError::Serialization(m) => prefixed_text("Serialization error: ", m),
            BlockchainError::Unknown(m) => prefixed_text("Unknown error: ", m),
            BlockchainError::CorruptedVersion(m) => prefixed_text("Database version corrupted: ", m),
            BlockchainError::FutureVersion { found, supported } => {
                let mut s = String::from_str("Database version ");
                let a = decimal(*found as u64);
                s.append(a.as_str());
                s.append(" is newer than supported version ");
                let b = decimal(*supported as u64);
                s.append(b.as_str());
                s
            },
            BlockchainError::MigrationFailed { from, to, reason } => {
                let mut s = String::from_str("Database migration from v");
                let a = decimal(*from as u64);
                s.append(a.as_str());
                s.append(" to v");
                let b = decimal(*to as u64);
                s.append(b.as_str());
                s.append(" failed: ");
                s.append(reason.as_str());
                s
            },
        }
    }
}

/// The text of a block validation error.
pub open spec fn validation_text(e: BlockValidationError) -> Seq<char> {
    match e {
        BlockValidationError::InvalidTxRoot { expected, computed } => "Invalid transaction root: expected "@
            + expected@ + ", computed "@ + computed@,
        BlockValidationError::UnknownParent(m) => "Unknown parent hash: "@ + m@,
        BlockValidationError::NoParents => "No parents specified for non-genesis block"@,
        BlockValidationError::DuplicateTransaction(m) => "Duplicate transaction: "@ + m@,
        BlockValidationError::TimestampTooFarInFuture { timestamp, current, max_future } =>
            "Block timestamp too far in future: "@ + spec_decimal(timestamp as nat) + " (current: "@
            + spec_decimal(current as nat) + ", max_future: "@ + spec_decimal(max_future as nat) + ")"@,
        BlockValidationError::TimestampTooOld { timestamp, minimum } => "Block timestamp too old: "@
            + spec_decimal(timestamp as nat) + " (minimum: "@ + spec_decimal(minimum as nat) + ")"@,
        BlockValidationError::InvalidBlockNumber { block_number, expected } => "Invalid block number: "@
            + spec_decimal(block_number as nat) + " (expected: "@ + spec_decimal(expected as nat) + ")"@,
        BlockValidationError::MaxTransactionsExceeded { count, max } =>
            "Block exceeds maximum transaction count: "@ + spec_decimal(count as nat) + " (max: "@
            + spec_decimal(max as nat) + ")"@,
        BlockValidationError::BlockSizeExceeded { size, max } => "Block size exceeds maximum: "@
            + spec_decimal(size as nat) + " bytes (max: "@ + spec_decimal(max as nat) + " bytes)"@,
        BlockValidationError::TooManyParentHashes { count, max } => "Parent hash count exceeds maximum: "@
            + spec_decimal(count as nat) + " (max: "@ + spec_decimal(max as nat) + ")"@,
        BlockValidationError::InvalidBlockHash { expected, computed } => "Block hash mismatch: expected "@
            + expected@ + ", computed "@ + computed@,
        BlockValidationError::GenesisNotFirst => "Genesis block must be first"@,
        BlockValidationError::DuplicateBlock => "Block already exists"@,
    }
}

fn two_numbers(a: &str, x: u64, b: &str, y: u64, c: &str) -> (r: String)
    ensures
        r@ == a@ + spec_decimal(x as nat) + b@ + spec_decimal(y as nat) + c@,
{
    let mut s = String::from_str(a);
    let xs = decimal(x);
    s.append(xs.as_str());
    s.append(b);
    let ys = decimal(y);
    s.append(ys.as_str());
    s.append(c);
    s
}

impl BlockValidationError {
    /// The error's text.
    pub fn to_string(&self) -> (r: String)
        ensures
            r@ == validation_text(*self),
    {
        match self {
            BlockValidationError::InvalidTxRoot { expected, computed } => {
                let mut s = String::from_str("Invalid transaction root: expected ");
                s.append(expected.as_str());
                s.append(", computed ");
                s.append(computed.as_str());
                s
            },
            BlockValidationError::UnknownParent(m) => prefixed_text("Unknown parent hash: ", m),
            BlockValidationError::NoParents => String::from_str("No parents specified for non-genesis block"),
            BlockValidationError::DuplicateTransaction(m) => prefixed_text("Duplicate transaction: ", m),
            BlockValidationError::TimestampTooFarInFuture { timestamp, current, max_future } => {
                let mut s = two_numbers(
                    "Block timestamp too far in future: ",
                    *timestamp,
                    " (current: ",
                    *current,
                    ", max_future: ",
                );
                let m = decimal(*max_future);
                s.append(m.as_str());
                s.append(")");
                s
            },
            BlockValidationError::TimestampTooOld { timestamp, minimum } => two_numbers(
                "Block timestamp too old: ",
                *timestamp,
                " (minimum: ",
                *minimum,
                ")",
            ),
            BlockValidationError::InvalidBlockNumber { block_number, expected } => two_numbers(
                "Invalid block number: ",
                *block_number,
                " (expected: ",
                *expected,
                ")",
            ),
            BlockValidationError::MaxTransactionsExceeded { count, max } => two_numbers(
                "Block exceeds maximum transaction count: ",
                *count as u64,
                " (max: ",
                *max as u64,
                ")",
            ),
            BlockValidationError::BlockSizeExceeded { size, max } => two_numbers(
                "Block size exceeds maximum: ",
                *size as u64,
                " bytes (max: ",
                *max as u64,
                " bytes)",
            ),
            BlockValidationError::TooManyParentHashes { count, max } => two_numbers(
                "Parent hash count exceeds maximum: ",
                *count as u64,
                " (max: ",
                *max as u64,
                ")",
            ),
            BlockValidationError::InvalidBlockHash { expected, computed } => {
                let mut s = String::from_str("Block hash mismatch: expected ");
                s.append(expected.as_str());
                s.append(", computed ");
                s.append(computed.as_str());
                s
            },
            BlockValidationError::GenesisNotFirst => String::from_str("Genesis block must be first"),
            BlockValidationError::DuplicateBlock => String::from_str("Block already exists"),
        }
    }
}

} // verus!
