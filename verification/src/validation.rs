//! Transaction and block validation rules. The chain state each rule reads
//! (account nonce and balances, known blocks, recent timestamps, the clock)
//! is passed in as plain values.
use vstd::prelude::*;

use crate::block::{spec_block_hash, spec_tx_hash, Block, Transaction};
use crate::collections::{first_where, lemma_first_where_skip, Key, KeyMap, KeySet};
use crate::signature::{signature_checkable, signature_outcome};
use crate::types::{Address, Hash32};
use crate::error::{validation_text, BlockValidationError, BlockchainError};
use crate::text::{decimal, decimal_u128, hex, spec_decimal, spec_hex};

verus! {

/// Maximum transaction data size in bytes (128 KiB).
pub const MAX_TX_DATA_SIZE: usize = 131072;

/// Maximum transaction value, so that balance arithmetic cannot overflow.
pub const MAX_TX_VALUE: u128 = 170141183460469231731687303715884105727;

/// Maximum gas limit per transaction.
pub const MAX_GAS_LIMIT: u64 = 30_000_000;

/// Minimum gas for a transaction carrying contract data.
pub const MIN_CONTRACT_GAS: u64 = 21_000;

/// Maximum distance between a transaction nonce and the account nonce.
pub const MAX_NONCE_GAP: u64 = 16;

/// The error is `InvalidTransaction` with message `m`.
pub open spec fn is_invalid_tx(r: Result<(), BlockchainError>, m: Seq<char>) -> bool {
    r matches Err(BlockchainError::InvalidTransaction(s)) && s@ == m
}

/// The error is `Validation` with message `m`.
pub open spec fn is_validation(r: Result<(), BlockchainError>, m: Seq<char>) -> bool {
    r matches Err(BlockchainError::Validation(s)) && s@ == m
}

/// Every byte of the address is zero (the system sender).
pub open spec fn zero_address(a: [u8; 20]) -> bool {
    forall|i: int| 0 <= i < 20 ==> #[trigger] a@[i] == 0
}

/// The first stateless rule `tx` breaks, as (true for `InvalidTransaction`,
/// false for `Validation`; message).
pub open spec fn stateless_error(
    tx: Transaction,
    chain_id: u64,
    evm_enabled: bool,
    signature_valid: bool,
) -> Option<(bool, Seq<char>)> {
    if !signature_valid {
        Some((true, "Invalid transaction signature"@))
    } else if tx.fee == 0 && !zero_address(tx.from.0) {
        Some((true, "transaction fee must be greater than zero"@))
    } else if tx.data@.len() > MAX_TX_DATA_SIZE {
        Some(
            (
                true,
                "transaction data size "@ + spec_decimal(tx.data@.len()) + " exceeds maximum "@
                    + spec_decimal(MAX_TX_DATA_SIZE as nat),
            ),
        )
    } else if tx.value > MAX_TX_VALUE {
        Some((true, "transaction value exceeds maximum allowed"@))
    } else if tx.value + tx.fee > u128::MAX {
        Some((true, "transaction value + fee overflows"@))
    } else if tx.gas_limit > MAX_GAS_LIMIT {
        Some(
            (
                true,
                "gas_limit "@ + spec_decimal(tx.gas_limit as nat) + " exceeds maximum "@
                    + spec_decimal(MAX_GAS_LIMIT as nat),
            ),
        )
    } else if tx.gas_limit == 0 {
        Some((false, "Gas limit cannot be zero"@))
    } else if tx.chain_id is Some && tx.chain_id->0 != chain_id {
        Some(
            (
                true,
                "Invalid chain ID: expected "@ + spec_decimal(chain_id as nat) + ", got "@
                    + spec_decimal(tx.chain_id->0 as nat),
            ),
        )
    } else if tx.hash.0@ != spec_tx_hash(tx) {
        Some((true, "Invalid transaction hash"@))
    } else if evm_enabled && tx.data@.len() > 0 && tx.gas_limit < MIN_CONTRACT_GAS {
        Some((false, "Gas limit too low for contract interaction"@))
    } else {
        None
    }
}

/// The result matches the outcome: `Ok` for none, else the error of that
/// kind with that message.
pub open spec fn matches_outcome(r: Result<(), BlockchainError>, o: Option<(bool, Seq<char>)>) -> bool {
    match o {
        None => r is Ok,
        Some((true, m)) => is_invalid_tx(r, m),
        Some((false, m)) => is_validation(r, m),
    }
}

fn text3(a: &str, b: String, c: &str) -> (r: String)
    ensures
        r@ == a@ + b@ + c@,
{
    let mut s = String::from_str(a);
    s.append(b.as_str());
    s.append(c);
    s
}

fn text4(a: &str, b: String, c: &str, d: String) -> (r: String)
    ensures
        r@ == a@ + b@ + c@ + d@,
{
    let mut s = text3(a, b, c);
    s.append(d.as_str());
    s
}

/// Whether every byte of the address is zero.
pub fn all_zero(a: &[u8; 20]) -> (r: bool)
    ensures
        r == zero_address(*a),
{
    let mut i: usize = 0;
    while i < 20
        invariant
            i <= 20,
            forall|j: int| 0 <= j < i ==> a@[j] == 0,
        decreases 20 - i,
    {
        if a[i] != 0 {
            return false;
        }
        i = i + 1;
    }
    true
}

/// Checks a transaction on its own (no chain state): its signature at
/// `current_block`, fee, data size, value bounds, gas limit, chain ID, hash,
/// and the gas needed for contract data; reports the first rule broken.
pub fn verify_tx_stateless(
    tx: &Transaction,
    chain_id: u64,
    evm_enabled: bool,
    current_block: u64,
) -> (r: Result<(), BlockchainError>)
    requires
        signature_checkable(*tx),
    ensures
        matches_outcome(
            r,
            stateless_error(*tx, chain_id, evm_enabled, signature_outcome(*tx, current_block) == Ok::<bool, Seq<char>>(true)),
        ),
{
    let signature_valid = match tx.verify_signature(current_block) {
        Ok(b) => b,
        Err(_) => false,
    };
    if !signature_valid {
        return Err(BlockchainError::InvalidTransaction(String::from_str("Invalid transaction signature")));
    }
    if tx.fee == 0 && !all_zero(&tx.from.0) {
        return Err(
            BlockchainError::InvalidTransaction(
                String::from_str("transaction fee must be greater than zero"),
            ),
        );
    }
    if tx.data.len() > MAX_TX_DATA_SIZE {
        return Err(
            BlockchainError::InvalidTransaction(
                text4(
                    "transaction data size ",
                    decimal(tx.data.len() as u64),
                    " exceeds maximum ",
                    decimal(MAX_TX_DATA_SIZE as u64),
                ),
            ),
        );
    }
    if tx.value > MAX_TX_VALUE {
        return Err(
            BlockchainError::InvalidTransaction(
                String::from_str("transaction value exceeds maximum allowed"),
            ),
        );
    }
    if tx.value.checked_add(tx.fee).is_none() {
        return Err(BlockchainError::InvalidTransaction(String::from_str("transaction value + fee overflows")));
    }
    if tx.gas_limit > MAX_GAS_LIMIT {
        return Err(
            BlockchainError::InvalidTransaction(
                text4("gas_limit ", decimal(tx.gas_limit), " exceeds maximum ", decimal(MAX_GAS_LIMIT)),
            ),
        );
    }
    if tx.gas_limit == 0 {
        return Err(BlockchainError::Validation(String::from_str("Gas limit cannot be zero")));
    }
    match tx.chain_id {
        Some(tx_chain_id) => {
            if tx_chain_id != chain_id {
                return Err(
                    BlockchainError::InvalidTransaction(
                        text4("Invalid chain ID: expected ", decimal(chain_id), ", got ", decimal(tx_chain_id)),
                    ),
                );
            }
        },
        None => {},
    }
    let calculated_hash = tx.calculate_hash();
    if tx.hash != calculated_hash {
        proof {
            if tx.hash.0@ == calculated_hash.0@ {
                vstd::array::axiom_array_ext_equal(tx.hash.0, calculated_hash.0);
                assert(tx.hash.0 =~= calculated_hash.0);
            }
        }
        return Err(BlockchainError::InvalidTransaction(String::from_str("Invalid transaction hash")));
    }
    if evm_enabled && tx.data.len() != 0 && tx.gas_limit < MIN_CONTRACT_GAS {
        return Err(
            BlockchainError::Validation(String::from_str("Gas limit too low for contract interaction")),
        );
    }
    Ok(())
}

/// The first funding rule `tx` breaks against the account nonce and the
/// balances of the sender and (for a sponsored transaction) the sponsor.
pub open spec fn funds_error(
    tx: Transaction,
    current_nonce: u64,
    sender_balance: u128,
    sponsor_balance: u128,
) -> Option<Seq<char>> {
    let gap_limit: int = if current_nonce + MAX_NONCE_GAP > u64::MAX {
        u64::MAX as int
    } else {
        current_nonce + MAX_NONCE_GAP
    };
    let total: int = if tx.value + tx.fee > u128::MAX {
        u128::MAX as int
    } else {
        tx.value + tx.fee
    };
    if tx.nonce != current_nonce && tx.nonce > gap_limit {
        Some(
            "Nonce gap too large: tx nonce "@ + spec_decimal(tx.nonce as nat) + " but account nonce is "@
                + spec_decimal(current_nonce as nat) + ". Max gap is "@ + spec_decimal(
                MAX_NONCE_GAP as nat,
            ) + "."@,
        )
    } else if tx.nonce != current_nonce {
        Some(
            "Invalid nonce: expected "@ + spec_decimal(current_nonce as nat) + ", got "@ + spec_decimal(
                tx.nonce as nat,
            ),
        )
    } else if sender_balance < tx.value {
        Some(
            "Insufficient balance: have "@ + spec_decimal(sender_balance as nat) + ", need "@
                + spec_decimal(tx.value as nat) + " (value)"@,
        )
    } else if tx.sponsor is Some && sponsor_balance < tx.fee {
        Some(
            "Insufficient sponsor balance: sponsor has "@ + spec_decimal(sponsor_balance as nat)
                + ", needs "@ + spec_decimal(tx.fee as nat) + " (fee)"@,
        )
    } else if tx.sponsor is None && sender_balance < total {
        Some(
            "Insufficient balance: have "@ + spec_decimal(sender_balance as nat) + ", need "@
                + spec_decimal(total as nat) + " (value: "@ + spec_decimal(tx.value as nat)
                + " + fee: "@ + spec_decimal(tx.fee as nat) + ")"@,
        )
    } else {
        None
    }
}

/// Checks a transaction against the sender's account nonce (which it must
/// equal, with a distinct message beyond the allowed gap) and the balances:
/// the sender covers the value, and the fee is covered by the sponsor when
/// there is one, else by the sender together with the value.
pub fn check_nonce_and_balance(
    tx: &Transaction,
    current_nonce: u64,
    sender_balance: u128,
    sponsor_balance: u128,
) -> (r: Result<(), BlockchainError>)
    ensures
        match funds_error(*tx, current_nonce, sender_balance, sponsor_balance) {
            None => r is Ok,
            Some(m) => is_invalid_tx(r, m),
        },
{
    if tx.nonce != current_nonce {
        if tx.nonce > current_nonce.saturating_add(MAX_NONCE_GAP) {
            let mut s = text4(
                "Nonce gap too large: tx nonce ",
                decimal(tx.nonce),
                " but account nonce is ",
                decimal(current_nonce),
            );
            s.append(". Max gap is ");
            let g = decimal(MAX_NONCE_GAP);
            s.append(g.as_str());
            s.append(".");
            return Err(BlockchainError::InvalidTransaction(s));
        }
        return Err(
            BlockchainError::InvalidTransaction(
                text4("Invalid nonce: expected ", decimal(current_nonce), ", got ", decimal(tx.nonce)),
            ),
        );
    }
    if sender_balance < tx.value {
        let mut s = text4(
            "Insufficient balance: have ",
            decimal_u128(sender_balance),
            ", need ",
            decimal_u128(tx.value),
        );
        s.append(" (value)");
        return Err(BlockchainError::InvalidTransaction(s));
    }
    match tx.sponsor {
        Some(_) => {
            if sponsor_balance < tx.fee {
                let mut s = text4(
                    "Insufficient sponsor balance: sponsor has ",
                    decimal_u128(sponsor_balance),
                    ", needs ",
                    decimal_u128(tx.fee),
                );
                s.append(" (fee)");
                return Err(BlockchainError::InvalidTransaction(s));
            }
        },
        None => {
            let total_required = tx.value.saturating_add(tx.fee);
            if sender_balance < total_required {
                let mut s = text4(
                    "Insufficient balance: have ",
                    decimal_u128(sender_balance),
                    ", need ",
                    decimal_u128(total_required),
                );
                s.append(" (value: ");
                let v = decimal_u128(tx.value);
                s.append(v.as_str());
                s.append(" + fee: ");
                let f = decimal_u128(tx.fee);
                s.append(f.as_str());
                s.append(")");
                return Err(BlockchainError::InvalidTransaction(s));
            }
        },
    }
    Ok(())
}

/// Blocks after which a spent output is final and forgotten.
pub const FINALITY_DEPTH: u64 = 100;

/// The double-spend error message for `(from, nonce)` already spent in `block`.
pub open spec fn double_spend_text(from: Address, nonce: u64, block: Hash32) -> Seq<char> {
    "Double-spend detected: (address="@ + spec_hex(from.0@) + ", nonce="@ + spec_decimal(nonce as nat)
        + ") already spent in block "@ + spec_hex(block.0@)
}

/// A spent output: a sender and the nonce it used.
#[derive(Clone, Copy, Debug)]
pub struct SpentKey {
    pub sender: Address,
    pub nonce: u64,
}

impl Key for SpentKey {
    fn same(&self, other: &Self) -> (r: bool) {
        self.sender.same(&other.sender) && self.nonce == other.nonce
    }
}

/// The spent-output key of a transaction.
pub open spec fn key_of(tx: Transaction) -> SpentKey {
    SpentKey { sender: tx.from, nonce: tx.nonce }
}

/// Outputs spent by recent blocks: each `(sender, nonce)` with the hash and
/// number of the block that spent it.
pub struct SpentOutputs {
    spent: KeyMap<SpentKey, (Hash32, u64)>,
}

impl SpentOutputs {
    pub closed spec fn wf(&self) -> bool {
        self.spent.wf()
    }

    /// The recorded outputs.
    pub closed spec fn view(&self) -> Map<SpentKey, (Hash32, u64)> {
        self.spent@
    }

    /// No output recorded.
    pub fn new() -> (s: Self)
        ensures
            s.wf(),
            s@ == Map::<SpentKey, (Hash32, u64)>::empty(),
    {
        SpentOutputs { spent: KeyMap::new() }
    }

    /// The number of recorded outputs.
    pub fn len(&self) -> (r: usize)
        requires
            self.wf(),
        ensures
            r == self@.len(),
    {
        self.spent.len()
    }

    /// Refuses `tx` when its `(sender, nonce)` was already spent by a block
    /// other than `current_block_hash`.
    pub fn check_double_spend(&self, tx: &Transaction, current_block_hash: &Hash32) -> (r: Result<(), BlockchainError>)
        requires
            self.wf(),
        ensures
            (self@.contains_key(key_of(*tx)) && self@[key_of(*tx)].0 != *current_block_hash)
                ==> is_invalid_tx(r, double_spend_text(tx.from, tx.nonce, self@[key_of(*tx)].0)),
            !(self@.contains_key(key_of(*tx)) && self@[key_of(*tx)].0 != *current_block_hash)
                ==> r is Ok,
    {
        match self.spent.get_copy(&SpentKey { sender: tx.from, nonce: tx.nonce }) {
            Some((existing_block_hash, _)) => {
                if !existing_block_hash.same(current_block_hash) {
                    let mut s = String::from_str("Double-spend detected: (address=");
                    let a = hex(&tx.from.0);
                    s.append(a.as_str());
                    s.append(", nonce=");
                    let n = decimal(tx.nonce);
                    s.append(n.as_str());
                    s.append(") already spent in block ");
                    let b = hex(&existing_block_hash.0);
                    s.append(b.as_str());
                    return Err(BlockchainError::InvalidTransaction(s));
                }
                Ok(())
            },
            None => Ok(()),
        }
    }

    /// Records that `tx` spent `(sender, nonce)` in the given block.
    pub fn record_spent_output(&mut self, tx: &Transaction, block_hash: Hash32, block_number: u64)
        requires
            old(self).wf(),
        ensures
            final(self).wf(),
            final(self)@ == old(self)@.insert(key_of(*tx), (block_hash, block_number)),
    {
        self.spent.insert(SpentKey { sender: tx.from, nonce: tx.nonce }, (block_hash, block_number));
    }

    /// Forgets the outputs spent by the block `block_hash` (used when that
    /// block is rolled back).
    pub fn rollback_spent_outputs(&mut self, block_hash: &Hash32)
        requires
            old(self).wf(),
        ensures
            final(self).wf(),
            final(self)@ == old(self)@.restrict(
                old(self)@.dom().filter(|k: SpentKey| old(self)@[k].0 != *block_hash),
            ),
    {
        let keys = self.spent.keys();
        let ghost old_map = self.spent@;
        let ghost keep = old_map.dom().filter(|k: SpentKey| old_map[k].0 != *block_hash);
        let mut i: usize = 0;
        proof {
            assert(old_map.restrict(old_map.dom()) =~= old_map);
        }
        while i < keys.len()
            invariant
                i <= keys@.len(),
                keys@.to_set() == old_map.dom(),
                keys@.no_duplicates(),
                self.spent.wf(),
                old_map == old(self)@,
                keep == old_map.dom().filter(|k: SpentKey| old_map[k].0 != *block_hash),
                self.spent@ == old_map.restrict(
                    old_map.dom().filter(
                        |k: SpentKey| keys@.take(i as int).contains(k) ==> keep.contains(k),
                    ),
                ),
            decreases keys@.len() - i,
        {
            let k = keys[i];
            proof {
                crate::collections::lemma_take_succ(keys@, i as int);
            }
            match self.spent.get_copy(&k) {
                Some((h, _)) => {
                    if h.same(block_hash) {
                        self.spent.remove(&k);
                    }
                },
                None => {},
            }
            i = i + 1;
            proof {
                assert(self.spent@ =~= old_map.restrict(
                    old_map.dom().filter(
                        |x: SpentKey| keys@.take(i as int).contains(x) ==> keep.contains(x),
                    ),
                ));
            }
        }
        proof {
            assert(keys@.take(keys@.len() as int) =~= keys@);
            assert(self.spent@ =~= old_map.restrict(keep));
        }
    }

    /// Forgets outputs spent at or below `current_height - FINALITY_DEPTH`
    /// (nothing while the chain is not deeper than that).
    pub fn prune_spent_outputs(&mut self, current_height: u64)
        requires
            old(self).wf(),
        ensures
            final(self).wf(),
            current_height <= FINALITY_DEPTH ==> final(self)@ == old(self)@,
            current_height > FINALITY_DEPTH ==> final(self)@ == old(self)@.restrict(
                old(self)@.dom().filter(
                    |k: SpentKey| old(self)@[k].1 > current_height - FINALITY_DEPTH,
                ),
            ),
    {
        if current_height <= FINALITY_DEPTH {
            return ;
        }
        let cutoff = current_height - FINALITY_DEPTH;
        let keys = self.spent.keys();
        let ghost old_map = self.spent@;
        let ghost keep = old_map.dom().filter(|k: SpentKey| old_map[k].1 > cutoff);
        let mut i: usize = 0;
        proof {
            assert(old_map.restrict(old_map.dom()) =~= old_map);
        }
        while i < keys.len()
            invariant
                i <= keys@.len(),
                keys@.to_set() == old_map.dom(),
                keys@.no_duplicates(),
                self.spent.wf(),
                old_map == old(self)@,
                keep == old_map.dom().filter(|k: SpentKey| old_map[k].1 > cutoff),
                self.spent@ == old_map.restrict(
                    old_map.dom().filter(
                        |k: SpentKey| keys@.take(i as int).contains(k) ==> keep.contains(k),
                    ),
                ),
            decreases keys@.len() - i,
        {
            let k = keys[i];
            proof {
                crate::collections::lemma_take_succ(keys@, i as int);
            }
            match self.spent.get_copy(&k) {
                Some((_, n)) => {
                    if n <= cutoff {
                        self.spent.remove(&k);
                    }
                },
                None => {},
            }
            i = i + 1;
            proof {
                assert(self.spent@ =~= old_map.restrict(
                    old_map.dom().filter(
                        |x: SpentKey| keys@.take(i as int).contains(x) ==> keep.contains(x),
                    ),
                ));
            }
        }
        proof {
            assert(keys@.take(keys@.len() as int) =~= keys@);
            assert(self.spent@ =~= old_map.restrict(keep));
        }
    }
}

/// Maximum serialized block size (4 MiB).
pub const MAX_BLOCK_SIZE: usize = 4194304;

/// Maximum number of parent hashes in a block.
pub const MAX_PARENT_HASHES: usize = 10;

/// Maximum number of transactions in a block.
pub const MAX_TRANSACTIONS_PER_BLOCK: usize = 10_000;

/// How far (seconds) a block timestamp may run ahead of the local clock.
pub const MAX_TIMESTAMP_DRIFT: u64 = 15;

/// Earliest acceptable block timestamp (2020-01-01T00:00:00Z).
pub const MIN_TIMESTAMP: u64 = 1577836800;

/// Oldest parent (in blocks) a block may reference.
pub const MAX_PARENT_AGE: u64 = 100_000;

/// Checks the block timestamp against the local clock `current_time`: at
/// most `MAX_TIMESTAMP_DRIFT` ahead, and not before `MIN_TIMESTAMP`.
pub fn validate_block_timestamp(block: &Block, current_time: u64) -> (r: Result<(), BlockValidationError>)
    requires
        current_time <= u64::MAX - MAX_TIMESTAMP_DRIFT,
    ensures
        block.header.timestamp > current_time + MAX_TIMESTAMP_DRIFT ==> r == Err::<(), BlockValidationError>(
            BlockValidationError::TimestampTooFarInFuture {
                timestamp: block.header.timestamp,
                current: current_time,
                max_future: MAX_TIMESTAMP_DRIFT,
            },
        ),
        block.header.timestamp <= current_time + MAX_TIMESTAMP_DRIFT && block.header.timestamp
            < MIN_TIMESTAMP ==> r == Err::<(), BlockValidationError>(
            BlockValidationError::TimestampTooOld {
                timestamp: block.header.timestamp,
                minimum: MIN_TIMESTAMP,
            },
        ),
        block.header.timestamp <= current_time + MAX_TIMESTAMP_DRIFT && block.header.timestamp
            >= MIN_TIMESTAMP ==> r is Ok,
{
    if block.header.timestamp > current_time + MAX_TIMESTAMP_DRIFT {
        return Err(
            BlockValidationError::TimestampTooFarInFuture {
                timestamp: block.header.timestamp,
                current: current_time,
                max_future: MAX_TIMESTAMP_DRIFT,
            },
        );
    }
    if block.header.timestamp < MIN_TIMESTAMP {
        return Err(
            BlockValidationError::TimestampTooOld {
                timestamp: block.header.timestamp,
                minimum: MIN_TIMESTAMP,
            },
        );
    }
    Ok(())
}

/// Checks the transaction count and the serialized size (`None` when the
/// block could not be serialized, reported with size `usize::MAX`).
pub fn validate_block_limits(block: &Block, serialized_size: Option<usize>) -> (r: Result<
    (),
    BlockValidationError,
>)
    ensures
        block.transactions@.len() > MAX_TRANSACTIONS_PER_BLOCK ==> r == Err::<(), BlockValidationError>(
            BlockValidationError::MaxTransactionsExceeded {
                count: block.transactions@.len() as usize,
                max: MAX_TRANSACTIONS_PER_BLOCK,
            },
        ),
        block.transactions@.len() <= MAX_TRANSACTIONS_PER_BLOCK ==> match serialized_size {
            None => r == Err::<(), BlockValidationError>(
                BlockValidationError::BlockSizeExceeded { size: usize::MAX, max: MAX_BLOCK_SIZE },
            ),
            Some(size) => if size > MAX_BLOCK_SIZE {
                r == Err::<(), BlockValidationError>(
                    BlockValidationError::BlockSizeExceeded { size, max: MAX_BLOCK_SIZE },
                )
            } else {
                r is Ok
            },
        },
{
    if block.transactions.len() > MAX_TRANSACTIONS_PER_BLOCK {
        return Err(
            BlockValidationError::MaxTransactionsExceeded {
                count: block.transactions.len(),
                max: MAX_TRANSACTIONS_PER_BLOCK,
            },
        );
    }
    match serialized_size {
        Some(size) => {
            if size > MAX_BLOCK_SIZE {
                return Err(BlockValidationError::BlockSizeExceeded { size, max: MAX_BLOCK_SIZE });
            }
        },
        None => {
            return Err(BlockValidationError::BlockSizeExceeded { size: usize::MAX, max: MAX_BLOCK_SIZE });
        },
    }
    Ok(())
}

/// Whether the transaction at `i` repeats the hash of an earlier one.
pub open spec fn repeats_earlier(txs: Seq<Transaction>) -> spec_fn(int) -> bool {
    |i: int| exists|j: int| 0 <= j < i && txs[j].hash == txs[i].hash
}

/// Refuses a block listing the same transaction hash twice, naming the
/// first repeated hash.
pub fn check_duplicate_transactions(block: &Block) -> (r: Result<(), BlockValidationError>)
    ensures
        match first_where(repeats_earlier(block.transactions@), 0, block.transactions@.len() as int) {
            None => r is Ok,
            Some(i) => r matches Err(BlockValidationError::DuplicateTransaction(s)) && s@ == spec_hex(
                block.transactions@[i].hash.0@,
            ),
        },
{
    let txs = &block.transactions;
    let ghost p = repeats_earlier(txs@);
    let mut seen: KeySet<Hash32> = KeySet::new();
    let mut i: usize = 0;
    while i < txs.len()
        invariant
            i <= txs@.len(),
            txs@ == block.transactions@,
            p == repeats_earlier(txs@),
            seen.wf(),
            forall|h: Hash32| #[trigger] seen@.contains(h) <==> exists|j: int| 0 <= j < i && txs@[j].hash == h,
            forall|k: int| 0 <= k < i ==> !#[trigger] p(k),
        decreases txs@.len() - i,
    {
        let h = txs[i].hash;
        if !seen.insert(h) {
            proof {
                lemma_first_where_skip(p, 0, i as int, txs@.len() as int);
                let j = choose|j: int| 0 <= j < i && txs@[j].hash == h;
                assert(txs@[j].hash == txs@[i as int].hash);
                assert(p(i as int));
                assert(first_where(p, i as int, txs@.len() as int) == Some(i as int));
            }
            return Err(BlockValidationError::DuplicateTransaction(hex(&h.0)));
        }
        proof {
            assert(!p(i as int));
            assert forall|x: Hash32| #[trigger] seen@.contains(x) <==> exists|j: int| 0 <= j < i + 1 && txs@[j].hash == x by {
                if x == h {
                    assert(txs@[i as int].hash == x);
                }
            }
        }
        i = i + 1;
    }
    proof {
        lemma_first_where_skip(p, 0, txs@.len() as int, txs@.len() as int);
    }
    Ok(())
}

/// The parent `p` is usable: known locally, and either of unknown number,
/// the genesis, or at most `MAX_PARENT_AGE` blocks older than `number`.
pub open spec fn usable_parent(known: Set<Hash32>, numbers: Map<Hash32, u64>, number: u64, p: Hash32) -> bool {
    &&& known.contains(p)
    &&& (!numbers.contains_key(p) || numbers[p] == 0 || (if number >= numbers[p] {
        number - numbers[p]
    } else {
        0
    }) <= MAX_PARENT_AGE)
}

/// Checks the parents of a non-genesis block: at least one, at most
/// `MAX_PARENT_HASHES`, and one of them usable (`known` holds the local
/// block hashes, `numbers` the block number of each local block).
pub fn validate_parent_hashes_enhanced(
    block: &Block,
    known: &KeySet<Hash32>,
    numbers: &KeyMap<Hash32, u64>,
) -> (r: Result<(), BlockValidationError>)
    requires
        numbers.wf(),
    ensures
        ({
            let ps = block.header.parent_hashes@;
            let n = block.header.block_number;
            if n == 0 {
                r is Ok
            } else if ps.len() == 0 {
                r == Err::<(), BlockValidationError>(BlockValidationError::NoParents)
            } else if ps.len() > MAX_PARENT_HASHES {
                r == Err::<(), BlockValidationError>(
                    BlockValidationError::TooManyParentHashes { count: ps.len() as usize, max: MAX_PARENT_HASHES },
                )
            } else if exists|i: int| 0 <= i < ps.len() && usable_parent(known@, numbers@, n, #[trigger] ps[i]) {
                r is Ok
            } else {
                r matches Err(BlockValidationError::UnknownParent(s)) && s@ == "no valid parent in local chain"@
            }
        }),
{
    if block.header.block_number == 0 {
        return Ok(());
    }
    if block.header.parent_hashes.len() == 0 {
        return Err(BlockValidationError::NoParents);
    }
    if block.header.parent_hashes.len() > MAX_PARENT_HASHES {
        return Err(
            BlockValidationError::TooManyParentHashes {
                count: block.header.parent_hashes.len(),
                max: MAX_PARENT_HASHES,
            },
        );
    }
    let current_block_number = block.header.block_number;
    let ps = &block.header.parent_hashes;
    let mut i: usize = 0;
    while i < ps.len()
        invariant
            i <= ps@.len(),
            ps@ == block.header.parent_hashes@,
            0 < ps@.len() <= MAX_PARENT_HASHES,
            block.header.block_number != 0,
            numbers.wf(),
            current_block_number == block.header.block_number,
            forall|j: int| 0 <= j < i ==> !usable_parent(known@, numbers@, current_block_number, #[trigger] ps@[j]),
        decreases ps@.len() - i,
    {
        let parent_hash = ps[i];
        if known.contains(&parent_hash) {
            match numbers.get_copy(&parent_hash) {
                Some(parent_number) => {
                    if parent_number == 0 {
                        proof {
                            assert(usable_parent(known@, numbers@, current_block_number, ps@[i as int]));
                        }
                        return Ok(());
                    }
                    let parent_age = current_block_number.saturating_sub(parent_number);
                    if parent_age <= MAX_PARENT_AGE {
                        proof {
                            assert(usable_parent(known@, numbers@, current_block_number, ps@[i as int]));
                        }
                        return Ok(());
                    }
                },
                None => {
                    proof {
                        assert(usable_parent(known@, numbers@, current_block_number, ps@[i as int]));
                    }
                    return Ok(());
                },
            }
        }
        i = i + 1;
    }
    Err(BlockValidationError::UnknownParent(String::from_str("no valid parent in local chain")))
}

/// Refuses a block whose stored hash differs from the hash recomputed from
/// its header and transactions, reporting both in hexadecimal.
pub fn verify_tx_root(block: &Block) -> (r: Result<(), BlockValidationError>)
    ensures
        block.hash.0@ == spec_block_hash(block.header, block.transactions@) ==> r is Ok,
        block.hash.0@ != spec_block_hash(block.header, block.transactions@) ==> (r matches Err(
            BlockValidationError::InvalidBlockHash { expected, computed },
        ) && expected@ == spec_hex(block.hash.0@) && computed@ == spec_hex(
            spec_block_hash(block.header, block.transactions@),
        )),
{
    let expected_hash = block.calculate_hash();
    if !block.hash.same(&expected_hash) {
        proof {
            if block.hash.0@ == expected_hash.0@ {
                vstd::array::axiom_array_ext_equal(block.hash.0, expected_hash.0);
                assert(block.hash.0 =~= expected_hash.0);
            }
        }
        return Err(
            BlockValidationError::InvalidBlockHash {
                expected: hex(&block.hash.0),
                computed: hex(&expected_hash.0),
            },
        );
    }
    Ok(())
}

/// The text of the first limit a block breaks (transaction count, then
/// serialized size; a block that could not be serialized counts as
/// `usize::MAX` bytes).
pub open spec fn limits_error(block: Block, serialized_size: Option<usize>) -> Option<Seq<char>> {
    if block.transactions@.len() > MAX_TRANSACTIONS_PER_BLOCK {
        Some(
            validation_text(
                BlockValidationError::MaxTransactionsExceeded {
                    count: block.transactions@.len() as usize,
                    max: MAX_TRANSACTIONS_PER_BLOCK,
                },
            ),
        )
    } else {
        match serialized_size {
            None => Some(
                validation_text(
                    BlockValidationError::BlockSizeExceeded { size: usize::MAX, max: MAX_BLOCK_SIZE },
                ),
            ),
            Some(size) => if size > MAX_BLOCK_SIZE {
                Some(validation_text(BlockValidationError::BlockSizeExceeded { size, max: MAX_BLOCK_SIZE }))
            } else {
                None
            },
        }
    }
}

/// The text of the timestamp rule a block breaks against `current_time`.
pub open spec fn timestamp_error(block: Block, current_time: u64) -> Option<Seq<char>> {
    if block.header.timestamp > current_time + MAX_TIMESTAMP_DRIFT {
        Some(
            validation_text(
                BlockValidationError::TimestampTooFarInFuture {
                    timestamp: block.header.timestamp,
                    current: current_time,
                    max_future: MAX_TIMESTAMP_DRIFT,
                },
            ),
        )
    } else if block.header.timestamp < MIN_TIMESTAMP {
        Some(
            validation_text(
                BlockValidationError::TimestampTooOld { timestamp: block.header.timestamp, minimum: MIN_TIMESTAMP },
            ),
        )
    } else {
        None
    }
}

/// The text of the parent rule a block breaks (see
/// `validate_parent_hashes_enhanced`).
pub open spec fn parents_error(block: Block, known: Set<Hash32>, numbers: Map<Hash32, u64>) -> Option<Seq<char>> {
    let ps = block.header.parent_hashes@;
    let n = block.header.block_number;
    if n == 0 {
        None
    } else if ps.len() == 0 {
        Some(validation_text(BlockValidationError::NoParents))
    } else if ps.len() > MAX_PARENT_HASHES {
        Some(
            validation_text(
                BlockValidationError::TooManyParentHashes { count: ps.len() as usize, max: MAX_PARENT_HASHES },
            ),
        )
    } else if exists|i: int| 0 <= i < ps.len() && usable_parent(known, numbers, n, #[trigger] ps[i]) {
        None
    } else {
        Some("Unknown parent hash: "@ + "no valid parent in local chain"@)
    }
}

/// The text naming the first repeated transaction hash of a block.
pub open spec fn duplicate_error(block: Block) -> Option<Seq<char>> {
    match first_where(repeats_earlier(block.transactions@), 0, block.transactions@.len() as int) {
        None => None,
        Some(i) => Some("Duplicate transaction: "@ + spec_hex(block.transactions@[i].hash.0@)),
    }
}

/// The text reporting a block hash that differs from the recomputed one.
pub open spec fn hash_error(block: Block) -> Option<Seq<char>> {
    let computed = spec_block_hash(block.header, block.transactions@);
    if block.hash.0@ == computed {
        None
    } else {
        Some("Block hash mismatch: expected "@ + spec_hex(block.hash.0@) + ", computed "@ + spec_hex(computed))
    }
}

} // verus!
