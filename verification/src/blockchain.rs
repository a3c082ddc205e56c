//! The chain state: accounts (balance and nonce), replay protection over
//! recent blocks, spent outputs, sponsor policies, and the rules that move
//! value between accounts when a transaction is processed.
use vstd::prelude::*;

use crate::block::{Block, Transaction};
use crate::chain::{add_burned_fees, AccountState};
use crate::collections::{Key, KeyMap, KeySet};
use crate::consensus::{dag_added, old_blocks_pruned, GhostDAG};
use crate::error::{validation_text, BlockValidationError, BlockchainError};
use crate::gas_sponsorship::{sponsor_error, SponsorPolicy, SponsorRegistry};
use crate::types::{Address, Hash32};
use crate::evm::{EvmLog, ExecutionResult};
use crate::block::{same_block, same_tx, spec_block_hash, spec_tx_hash, tx_hashes};
use crate::consensus::sort::{ascending, sort_u64};
use crate::text::spec_hex;
use crate::gas_sponsorship::spend_recorded;
use crate::signature::{signature_checkable, signature_outcome};
use crate::text::{decimal, hex, spec_decimal};
use crate::validation::{
    all_zero, check_nonce_and_balance, double_spend_text, funds_error, is_invalid_tx, key_of,
    matches_outcome, stateless_error, verify_tx_stateless, zero_address, SpentKey, SpentOutputs,
    FINALITY_DEPTH, MAX_BLOCK_SIZE, MAX_GAS_LIMIT, MAX_PARENT_HASHES, MAX_TX_DATA_SIZE, MAX_TX_VALUE,
    MIN_CONTRACT_GAS, MAX_TIMESTAMP_DRIFT, check_duplicate_transactions, duplicate_error,
    hash_error, limits_error, parents_error, timestamp_error, validate_block_limits,
    validate_block_timestamp, validate_parent_hashes_enhanced, verify_tx_root,
};
use dashmap::DashMap;

verus! {

/// The chain id used when none is configured (EIP-155).
pub const DEFAULT_CHAIN_ID: u64 = 1338;

/// Account states by address.
pub type AccountMap = DashMap<Address, AccountState>;

/// The account states an account map holds, by address.
pub uninterp spec fn account_states(m: AccountMap) -> Map<Address, AccountState>;

/// An empty account map, by `dashmap::DashMap::new`.
///
/// Trusted: the new map holds no entry.
#[verifier::external_body]
fn accounts_new() -> (r: AccountMap)
    ensures
        account_states(r).dom() == Set::<Address>::empty(),
{
    DashMap::new()
}

/// Stores `state` for `address`, by `dashmap::DashMap::insert`.
///
/// Trusted: the entry of `address` becomes `state` and no other entry
/// changes (the map is reached through `&mut`, so no other thread writes).
#[verifier::external_body]
fn accounts_insert(m: &mut AccountMap, address: Address, state: AccountState)
    ensures
        account_states(*final(m)) == account_states(*old(m)).insert(address, state),
{
    m.insert(address, state);
}

/// The state of `address`, by `dashmap::DashMap::get`.
///
/// Trusted: present exactly when the map holds `address`, with its state.
#[verifier::external_body]
fn accounts_get(m: &AccountMap, address: &Address) -> (r: Option<AccountState>)
    ensures
        r is Some == account_states(*m).contains_key(*address),
        r matches Some(s) ==> s == account_states(*m)[*address],
{
    m.get(address).map(|s| *s)
}

/// Every account with its state, by `dashmap::DashMap::iter`.
///
/// Trusted: each entry once; the order is the map's own and is left open.
#[verifier::external_body]
fn accounts_entries(m: &AccountMap) -> (r: Vec<(Address, AccountState)>)
    ensures
        forall|i: int|
            0 <= i < r@.len() ==> account_states(*m).contains_key((#[trigger] r@[i]).0) && r@[i].1
                == account_states(*m)[r@[i].0],
        forall|a: Address| #[trigger]
            account_states(*m).contains_key(a) ==> exists|i: int| 0 <= i < r@.len() && r@[i].0 == a,
        forall|i: int, j: int| 0 <= i < j < r@.len() ==> r@[i].0 != r@[j].0,
{
    m.iter().map(|e| (*e.key(), *e.value())).collect()
}

/// The balance of `a` (zero for an unknown account).
pub open spec fn balance_in(m: Map<Address, AccountState>, a: Address) -> u128 {
    if m.contains_key(a) {
        m[a].balance
    } else {
        0
    }
}

/// The nonce of `a` (zero for an unknown account).
pub open spec fn nonce_in(m: Map<Address, AccountState>, a: Address) -> u64 {
    if m.contains_key(a) {
        m[a].nonce
    } else {
        0
    }
}

/// `n + 1`, saturating at the maximum.
pub open spec fn next_nonce(n: u64) -> u64 {
    if n == u64::MAX {
        n
    } else {
        (n + 1) as u64
    }
}

/// The accounts after the value and fee of `tx` are debited (the fee from
/// the sponsor when there is one, keeping the sponsor's nonce; the sender's
/// nonce advances), or the reason the debit is refused. The sender's new
/// state is computed from its balance before any debit.
pub open spec fn debited(m: Map<Address, AccountState>, tx: Transaction) -> Result<
    Map<Address, AccountState>,
    Seq<char>,
> {
    let from_balance = balance_in(m, tx.from);
    let new_nonce = next_nonce(nonce_in(m, tx.from));
    if from_balance < tx.value {
        Err("Insufficient balance for transaction value"@)
    } else {
        let new_from = (from_balance - tx.value) as u128;
        match tx.sponsor {
            Some(s) => if balance_in(m, s) < tx.fee {
                Err("Insufficient sponsor balance for transaction fee"@)
            } else {
                Ok(
                    m.insert(
                        s,
                        AccountState { balance: (balance_in(m, s) - tx.fee) as u128, nonce: nonce_in(m, s) },
                    ).insert(tx.from, AccountState { balance: new_from, nonce: new_nonce }),
                )
            },
            None => if new_from < tx.fee {
                Err("Insufficient balance for transaction fee"@)
            } else {
                Ok(
                    m.insert(
                        tx.from,
                        AccountState { balance: (new_from - tx.fee) as u128, nonce: new_nonce },
                    ),
                )
            },
        }
    }
}

/// The value of `tx` is credited to its receiver (nothing for the zero
/// address) without overflow.
pub open spec fn credit_fits(m: Map<Address, AccountState>, tx: Transaction) -> bool {
    debited(m, tx) matches Ok(m2) ==> (zero_address(tx.to.0) || balance_in(m2, tx.to) + tx.value
        <= u128::MAX)
}

/// The accounts after the native transfer of `tx`: debited, then the value
/// credited to the receiver unless it is the zero address.
pub open spec fn native_transfer(m: Map<Address, AccountState>, tx: Transaction) -> Result<
    Map<Address, AccountState>,
    Seq<char>,
> {
    match debited(m, tx) {
        Err(e) => Err(e),
        Ok(m2) => if zero_address(tx.to.0) {
            Ok(m2)
        } else {
            Ok(
                m2.insert(
                    tx.to,
                    AccountState {
                        balance: (balance_in(m2, tx.to) + tx.value) as u128,
                        nonce: nonce_in(m2, tx.to),
                    },
                ),
            )
        },
    }
}

/// Whether `h` is among the transaction hashes of the recent blocks.
pub open spec fn replayed(recent: Seq<Seq<Hash32>>, h: Hash32) -> bool {
    exists|i: int| 0 <= i < recent.len() && #[trigger] recent[i].contains(h)
}

/// Blocks whose transaction hashes are kept for replay protection.
pub const MAX_RECENT_BLOCKS: usize = 1000;

/// The chain state that transactions are validated against and applied to.
pub struct Blockchain {
    accounts: AccountMap,
    /// Transaction hashes of the most recent blocks, oldest first.
    recent_tx_hashes: Vec<Vec<Hash32>>,
    spent_outputs: SpentOutputs,
    sponsor_registry: SponsorRegistry,
    chain_id: u64,
    /// Whether contract rules apply to transactions carrying data (they need
    /// at least the minimum contract gas). This state holds no EVM executor:
    /// `process_transaction` moves their value natively, and the fee and
    /// receipt of an execution done elsewhere are settled by
    /// `settle_evm_execution`.
    evm_enabled: bool,
    total_fees_burned: u128,
    /// Blocks in the order they were added.
    blocks: Vec<Block>,
    /// Hashes of the added blocks.
    block_hashes: KeySet<Hash32>,
    /// Consensus over the added blocks.
    ghostdag: GhostDAG,
    /// Highest block number added so far.
    latest_block_number: u64,
    /// Whether loading has finished and the chain is ready to sync and mine.
    ready: bool,
}

impl Blockchain {
    pub closed spec fn wf(&self) -> bool {
        &&& self.spent_outputs.wf()
        &&& self.block_hashes.wf()
        &&& self.ghostdag.wf()
    }

    /// Blocks in the order they were added.
    pub closed spec fn blocks(&self) -> Seq<Block> {
        self.blocks@
    }

    /// Hashes of the added blocks.
    pub closed spec fn hashes(&self) -> Set<Hash32> {
        self.block_hashes@
    }

    /// The consensus state.
    pub closed spec fn dag(&self) -> GhostDAG {
        self.ghostdag
    }

    /// Highest block number added so far.
    pub closed spec fn latest(&self) -> u64 {
        self.latest_block_number
    }

    /// Account states by address.
    pub closed spec fn accounts(&self) -> Map<Address, AccountState> {
        account_states(self.accounts)
    }

    /// Transaction hashes of the recent blocks, oldest first.
    pub closed spec fn recent(&self) -> Seq<Seq<Hash32>> {
        self.recent_tx_hashes@.map_values(|v: Vec<Hash32>| v@)
    }

    /// The spent outputs.
    pub closed spec fn spent(&self) -> SpentOutputs {
        self.spent_outputs
    }

    /// The sponsor policies.
    pub closed spec fn sponsors(&self) -> SponsorRegistry {
        self.sponsor_registry
    }

    pub closed spec fn chain_id_spec(&self) -> u64 {
        self.chain_id
    }

    pub closed spec fn burned(&self) -> u128 {
        self.total_fees_burned
    }

    /// Whether contract rules apply to transactions carrying data.
    pub closed spec fn evm_on(&self) -> bool {
        self.evm_enabled
    }

    /// An empty chain state with the default chain id, ready at once (it
    /// has no storage to load).
    pub fn new() -> (b: Self)
        ensures
            b.wf(),
            b.accounts() == Map::<Address, AccountState>::empty(),
            b.recent() == Seq::<Seq<Hash32>>::empty(),
            b.spent()@ == Map::<crate::validation::SpentKey, (Hash32, u64)>::empty(),
            b.sponsors()@ == Map::<Address, crate::gas_sponsorship::SponsorPolicy>::empty(),
            b.chain_id_spec() == DEFAULT_CHAIN_ID,
            !b.evm_on(),
            b.burned() == 0,
            b.blocks() == Seq::<Block>::empty(),
            b.hashes() == Set::<Hash32>::empty(),
            b.latest() == 0,
            b.ready_spec(),
    {
        let b = Blockchain {
            accounts: accounts_new(),
            recent_tx_hashes: Vec::new(),
            spent_outputs: SpentOutputs::new(),
            sponsor_registry: SponsorRegistry::new(),
            chain_id: DEFAULT_CHAIN_ID,
            evm_enabled: false,
            total_fees_burned: 0,
            blocks: Vec::new(),
            block_hashes: KeySet::new(),
            ghostdag: GhostDAG::new(),
            latest_block_number: 0,
            ready: true,
        };
        proof {
            assert(b.accounts() =~= Map::<Address, AccountState>::empty());
            assert(b.recent() =~= Seq::<Seq<Hash32>>::empty());
        }
        b
    }

    /// The chain id transactions must carry (EIP-155).
    pub fn chain_id(&self) -> (r: u64)
        ensures
            r == self.chain_id_spec(),
    {
        self.chain_id
    }

    /// Sets the chain id.
    pub fn set_chain_id(&mut self, chain_id: u64)
        ensures
            final(self).chain_id_spec() == chain_id,
            final(self).accounts() == old(self).accounts(),
            final(self).recent() == old(self).recent(),
            final(self).spent() == old(self).spent(),
            final(self).sponsors() == old(self).sponsors(),
            final(self).evm_on() == old(self).evm_on(),
            final(self).burned() == old(self).burned(),
            final(self).wf() == old(self).wf(),
    {
        self.chain_id = chain_id;
    }

    /// The balance of `address` (zero for an unknown account).
    pub fn get_balance(&self, address: Address) -> (r: u128)
        ensures
            r == balance_in(self.accounts(), address),
    {
        match accounts_get(&self.accounts, &address) {
            Some(s) => s.balance,
            None => 0,
        }
    }

    /// The nonce of `address` (zero for an unknown account).
    pub fn get_nonce(&self, address: Address) -> (r: u64)
        ensures
            r == nonce_in(self.accounts(), address),
    {
        match accounts_get(&self.accounts, &address) {
            Some(s) => s.nonce,
            None => 0,
        }
    }

    /// Sets the balance of `address`, keeping its nonce.
    pub fn set_balance(&mut self, address: Address, balance: u128) -> (r: Result<(), BlockchainError>)
        ensures
            r is Ok,
            final(self).accounts() == old(self).accounts().insert(
                address,
                AccountState { balance, nonce: nonce_in(old(self).accounts(), address) },
            ),
            same_chain(*old(self), *final(self)),
            final(self).spent() == old(self).spent(),
            final(self).sponsors() == old(self).sponsors(),
    {
        let nonce = self.get_nonce(address);
        accounts_insert(&mut self.accounts, address, AccountState { balance, nonce });
        Ok(())
    }

    /// Sets the nonce of `address`, keeping its balance.
    pub fn set_nonce(&mut self, address: Address, nonce: u64) -> (r: Result<(), BlockchainError>)
        ensures
            r is Ok,
            final(self).accounts() == old(self).accounts().insert(
                address,
                AccountState { balance: balance_in(old(self).accounts(), address), nonce },
            ),
            same_chain(*old(self), *final(self)),
            final(self).spent() == old(self).spent(),
            final(self).sponsors() == old(self).sponsors(),
    {
        let balance = self.get_balance(address);
        accounts_insert(&mut self.accounts, address, AccountState { balance, nonce });
        Ok(())
    }

    /// Every account with its balance and nonce, each once.
    pub fn get_all_accounts(&self) -> (r: Vec<(Address, (u128, u64))>)
        ensures
            forall|i: int|
                0 <= i < r@.len() ==> self.accounts().contains_key((#[trigger] r@[i]).0) && r@[i].1 == (
                    self.accounts()[r@[i].0].balance,
                    self.accounts()[r@[i].0].nonce,
                ),
            forall|a: Address| #[trigger]
                self.accounts().contains_key(a) ==> exists|i: int| 0 <= i < r@.len() && r@[i].0 == a,
            forall|i: int, j: int| 0 <= i < j < r@.len() ==> r@[i].0 != r@[j].0,
    {
        let entries = accounts_entries(&self.accounts);
        let mut out: Vec<(Address, (u128, u64))> = Vec::new();
        let mut i: usize = 0;
        while i < entries.len()
            invariant
                i <= entries@.len(),
                out@.len() == i,
                forall|j: int|
                    0 <= j < i ==> (#[trigger] out@[j]).0 == entries@[j].0 && out@[j].1 == (
                        entries@[j].1.balance,
                        entries@[j].1.nonce,
                    ),
            decreases entries@.len() - i,
        {
            let (a, s) = entries[i];
            out.push((a, (s.balance, s.nonce)));
            i = i + 1;
        }
        proof {
            assert forall|a: Address| #[trigger] self.accounts().contains_key(a) implies exists|i: int|
                0 <= i < out@.len() && out@[i].0 == a by {
                let j = choose|j: int| 0 <= j < entries@.len() && entries@[j].0 == a;
                assert(out@[j].0 == a);
            }
            assert forall|p: int, q: int| 0 <= p < q < out@.len() implies out@[p].0 != out@[q].0 by {
                assert(out@[p].0 == entries@[p].0);
                assert(out@[q].0 == entries@[q].0);
            }
        }
        out
    }

    /// Total fees burned so far.
    pub fn get_total_fees_burned(&self) -> (r: u128)
        ensures
            r == self.burned(),
    {
        self.total_fees_burned
    }

    /// Adds `amount` to the fees burned, saturating at the maximum.
    pub fn add_burned_fees(&mut self, amount: u128)
        ensures
            final(self).burned() == (if old(self).burned() + amount > u128::MAX {
                u128::MAX as int
            } else {
                old(self).burned() + amount
            }),
            final(self).accounts() == old(self).accounts(),
            final(self).recent() == old(self).recent(),
            final(self).spent() == old(self).spent(),
            final(self).sponsors() == old(self).sponsors(),
            final(self).chain_id_spec() == old(self).chain_id_spec(),
            final(self).evm_on() == old(self).evm_on(),
            final(self).wf() == old(self).wf(),
    {
        self.total_fees_burned = add_burned_fees(self.total_fees_burned, amount);
    }

    /// Whether `h` is among the transaction hashes of the recent blocks.
    fn is_replayed(&self, h: &Hash32) -> (r: bool)
        ensures
            r == replayed(self.recent(), *h),
    {
        let mut i: usize = 0;
        while i < self.recent_tx_hashes.len()
            invariant
                i <= self.recent_tx_hashes@.len(),
                forall|j: int| 0 <= j < i ==> !(#[trigger] self.recent()[j]).contains(*h),
            decreases self.recent_tx_hashes@.len() - i,
        {
            if crate::consensus::storage::hash_in(self.recent_tx_hashes[i].as_slice(), h) {
                proof {
                    assert(self.recent()[i as int].contains(*h));
                }
                return true;
            }
            i = i + 1;
        }
        false
    }
}

/// The first rule a transaction breaks against the chain state: the
/// sponsor's policy (when sponsored), then the account nonce and balances.
pub open spec fn stateful_error(
    accounts: Map<Address, AccountState>,
    sponsors: Map<Address, SponsorPolicy>,
    tx: Transaction,
    current_block: u64,
) -> Option<Seq<char>> {
    let policy_error = match tx.sponsor {
        Some(s) => sponsor_error(
            if sponsors.contains_key(s) {
                Some(sponsors[s])
            } else {
                None
            },
            tx.from,
            tx.fee,
            current_block,
        ),
        None => None,
    };
    match policy_error {
        Some(m) => Some("Sponsor policy violation: "@ + m),
        None => funds_error(
            tx,
            nonce_in(accounts, tx.from),
            balance_in(accounts, tx.from),
            match tx.sponsor {
                Some(s) => balance_in(accounts, s),
                None => 0,
            },
        ),
    }
}

impl Blockchain {
    /// Checks a transaction against the chain state: the sponsor's policy
    /// (when sponsored), then the sender's nonce and the balances that pay
    /// its value and fee. The checks that need no state are made apart
    /// (`validation::verify_tx_stateless`).
    pub fn validate_tx_stateful_only(&self, tx: &Transaction, current_block: u64) -> (r: Result<
        (),
        BlockchainError,
    >)
        ensures
            match stateful_error(self.accounts(), self.sponsors()@, *tx, current_block) {
                None => r is Ok,
                Some(m) => is_invalid_tx(r, m),
            },
    {
        match tx.sponsor {
            Some(sponsor) => {
                match self.sponsor_registry.check(&sponsor, &tx.from, tx.fee, current_block) {
                    Ok(()) => {},
                    Err(e) => {
                        let mut s = String::from_str("Sponsor policy violation: ");
                        s.append(e.as_str());
                        return Err(BlockchainError::InvalidTransaction(s));
                    },
                }
            },
            None => {},
        }
        let current_nonce = self.get_nonce(tx.from);
        let sender_balance = self.get_balance(tx.from);
        let sponsor_balance = match tx.sponsor {
            Some(s) => self.get_balance(s),
            None => 0,
        };
        check_nonce_and_balance(tx, current_nonce, sender_balance, sponsor_balance)
    }

    /// Applies a transaction to the accounts: refused when its hash is
    /// among the recent blocks' (a replay); otherwise the native transfer
    /// (value from the sender to the receiver, fee from the sponsor or the
    /// sender, sender nonce advanced), refused without a change when a
    /// balance does not cover what it pays.
    pub fn process_transaction(&mut self, tx: &Transaction) -> (r: Result<(), BlockchainError>)
        requires
            credit_fits(old(self).accounts(), *tx),
        ensures
            replayed(old(self).recent(), tx.hash) ==> is_invalid_tx(
                r,
                "Transaction already processed (replay detected)"@,
            ) && final(self).accounts() == old(self).accounts(),
            !replayed(old(self).recent(), tx.hash) ==> match native_transfer(old(self).accounts(), *tx) {
                Err(m) => is_invalid_tx(r, m) && final(self).accounts() == old(self).accounts(),
                Ok(m2) => r is Ok && final(self).accounts() == m2,
            },
            same_chain(*old(self), *final(self)),
            final(self).spent() == old(self).spent(),
            final(self).sponsors() == old(self).sponsors(),
    {
        if self.is_replayed(&tx.hash) {
            return Err(
                BlockchainError::InvalidTransaction(
                    String::from_str("Transaction already processed (replay detected)"),
                ),
            );
        }
        let ghost m = self.accounts();
        let current_nonce = self.get_nonce(tx.from);
        let new_nonce = current_nonce.saturating_add(1);
        let from_balance = self.get_balance(tx.from);
        if from_balance < tx.value {
            return Err(
                BlockchainError::InvalidTransaction(
                    String::from_str("Insufficient balance for transaction value"),
                ),
            );
        }
        let new_from_balance = from_balance - tx.value;
        match tx.sponsor {
            Some(sponsor) => {
                let sponsor_balance = self.get_balance(sponsor);
                if sponsor_balance < tx.fee {
                    return Err(
                        BlockchainError::InvalidTransaction(
                            String::from_str("Insufficient sponsor balance for transaction fee"),
                        ),
                    );
                }
                let new_sponsor_balance = sponsor_balance - tx.fee;
                let sponsor_nonce = self.get_nonce(sponsor);
                accounts_insert(
                    &mut self.accounts,
                    sponsor,
                    AccountState { balance: new_sponsor_balance, nonce: sponsor_nonce },
                );
                accounts_insert(
                    &mut self.accounts,
                    tx.from,
                    AccountState { balance: new_from_balance, nonce: new_nonce },
                );
            },
            None => {
                if new_from_balance < tx.fee {
                    return Err(
                        BlockchainError::InvalidTransaction(
                            String::from_str("Insufficient balance for transaction fee"),
                        ),
                    );
                }
                accounts_insert(
                    &mut self.accounts,
                    tx.from,
                    AccountState { balance: new_from_balance - tx.fee, nonce: new_nonce },
                );
            },
        }
        proof {
            assert(debited(m, *tx) == Ok::<Map<Address, AccountState>, Seq<char>>(self.accounts()));
        }
        if !all_zero(&tx.to.0) {
            let new_to_balance = self.get_balance(tx.to) + tx.value;
            let to_nonce = self.get_nonce(tx.to);
            accounts_insert(&mut self.accounts, tx.to, AccountState { balance: new_to_balance, nonce: to_nonce });
        }
        Ok(())
    }
}

/// Receipt of a processed transaction.
#[derive(Debug, Clone)]
pub struct TxReceipt {
    pub success: bool,
    pub gas_used: u64,
    pub logs: Vec<EvmLog>,
    /// Set for contract deployments (the receiver is the zero address).
    pub contract_address: Option<[u8; 20]>,
}

/// The numbers of `b` in decimal, separated by `, `.
pub open spec fn debug_items(b: Seq<u8>) -> Seq<char>
    decreases b.len(),
{
    if b.len() == 0 {
        Seq::empty()
    } else if b.len() == 1 {
        spec_decimal(b[0] as nat)
    } else {
        debug_items(b.drop_last()) + ", "@ + spec_decimal(b.last() as nat)
    }
}

/// How a byte list prints for debugging: `[1, 2, 3]`.
pub open spec fn debug_bytes(b: Seq<u8>) -> Seq<char> {
    "["@ + debug_items(b) + "]"@
}

/// The address that a deployment created: the last 20 bytes of the
/// output, when the receiver is the zero address, the transaction carries
/// data and the output holds at least 20 bytes.
pub open spec fn deployed_address(tx: Transaction, output: Seq<u8>) -> Option<Seq<u8>> {
    if zero_address(tx.to.0) && tx.data@.len() > 0 && output.len() >= 20 {
        Some(output.subrange(output.len() - 20, output.len() as int))
    } else {
        None
    }
}

fn debug_byte_list(b: &Vec<u8>) -> (s: String)
    ensures
        s@ == debug_bytes(b@),
{
    let mut s = String::from_str("[");
    let mut i: usize = 0;
    proof {
        assert(b@.take(0) =~= Seq::<u8>::empty());
        assert(s@ =~= "["@ + debug_items(b@.take(0)));
    }
    while i < b.len()
        invariant
            i <= b@.len(),
            s@ == "["@ + debug_items(b@.take(i as int)),
        decreases b@.len() - i,
    {
        let ghost pre = s@;
        if i > 0 {
            s.append(", ");
        }
        let d = decimal(b[i] as u64);
        s.append(d.as_str());
        proof {
            let t = b@.take(i + 1);
            assert(t.drop_last() =~= b@.take(i as int));
            assert(t.last() == b@[i as int]);
            if i == 0 {
                assert(t.len() == 1);
                assert(s@ =~= "["@ + debug_items(t));
            } else {
                assert(s@ =~= "["@ + debug_items(t));
            }
        }
        i = i + 1;
    }
    s.append("]");
    proof {
        assert(b@.take(b@.len() as int) =~= b@);
    }
    s
}

impl Blockchain {
    /// Settles a data transaction after the EVM has executed it (the EVM
    /// moved the value and advanced the nonce): a failed execution is
    /// refused; otherwise the sender pays the fee, refused with no change
    /// when its balance does not cover it, and the receipt is returned, with
    /// the deployed contract's address for a deployment.
    pub fn settle_evm_execution(&mut self, tx: &Transaction, result: ExecutionResult) -> (r: Result<
        TxReceipt,
        BlockchainError,
    >)
        ensures
            !result.success ==> (r matches Err(BlockchainError::Evm(m)) && m@ == "EVM execution failed: "@
                + debug_bytes(result.output@)) && final(self).accounts() == old(self).accounts(),
            result.success && tx.fee > 0 && balance_in(old(self).accounts(), tx.from) < tx.fee ==> (r matches Err(
                BlockchainError::InvalidTransaction(m),
            ) && m@ == "Insufficient balance for transaction fee after EVM execution"@) && final(self).accounts()
                == old(self).accounts(),
            result.success && !(tx.fee > 0 && balance_in(old(self).accounts(), tx.from) < tx.fee) ==> (r matches Ok(
                rc,
            ) && rc.success && rc.gas_used == result.gas_used && rc.logs@ == result.logs@ && (match deployed_address(
                *tx,
                result.output@,
            ) {
                Some(a) => rc.contract_address matches Some(c) && c@ == a,
                None => rc.contract_address is None,
            })) && final(self).accounts() == (if tx.fee > 0 {
                old(self).accounts().insert(
                    tx.from,
                    AccountState {
                        balance: (balance_in(old(self).accounts(), tx.from) - tx.fee) as u128,
                        nonce: nonce_in(old(self).accounts(), tx.from),
                    },
                )
            } else {
                old(self).accounts()
            }),
            same_chain(*old(self), *final(self)),
            final(self).spent() == old(self).spent(),
            final(self).sponsors() == old(self).sponsors(),
    {
        if !result.success {
            let mut m = String::from_str("EVM execution failed: ");
            let d = debug_byte_list(&result.output);
            m.append(d.as_str());
            return Err(BlockchainError::Evm(m));
        }
        let n = result.output.len();
        let contract_address = if all_zero(&tx.to.0) && tx.data.len() > 0 && n >= 20 {
            let mut addr = [0u8; 20];
            let mut i: usize = 0;
            while i < 20
                invariant
                    i <= 20,
                    n == result.output@.len(),
                    n >= 20,
                    addr@.len() == 20,
                    forall|j: int| 0 <= j < i ==> addr@[j] == result.output@[n - 20 + j],
                decreases 20 - i,
            {
                addr[i] = result.output[n - 20 + i];
                i = i + 1;
            }
            proof {
                assert(addr@ =~= result.output@.subrange(n - 20, n as int));
            }
            Some(addr)
        } else {
            None
        };
        if tx.fee > 0 {
            let sender_balance = self.get_balance(tx.from);
            if sender_balance < tx.fee {
                return Err(
                    BlockchainError::InvalidTransaction(
                        String::from_str("Insufficient balance for transaction fee after EVM execution"),
                    ),
                );
            }
            let nonce = self.get_nonce(tx.from);
            accounts_insert(
                &mut self.accounts,
                tx.from,
                AccountState { balance: sender_balance - tx.fee, nonce },
            );
        }
        Ok(TxReceipt { success: true, gas_used: result.gas_used, logs: result.logs, contract_address })
    }
}

/// How an optional number prints for debugging: `Some(n)` or `None`.
pub open spec fn opt_debug(o: Option<u64>) -> Seq<char> {
    match o {
        Some(n) => "Some("@ + spec_decimal(n as nat) + ")"@,
        None => "None"@,
    }
}

/// The message refusing a time-locked transaction that is not yet due.
pub open spec fn timelock_text(tx: Transaction, current_block: u64, current_timestamp: u64) -> Seq<char> {
    "Time-locked transaction not ready: execute_at_block="@ + opt_debug(tx.execute_at_block)
        + ", execute_at_timestamp="@ + opt_debug(tx.execute_at_timestamp) + ", current_block="@
        + spec_decimal(current_block as nat) + ", current_timestamp="@ + spec_decimal(
        current_timestamp as nat,
    )
}

/// The transaction is due at `current_block` and `current_timestamp`.
pub open spec fn due(tx: Transaction, current_block: u64, current_timestamp: u64) -> bool {
    (tx.execute_at_block matches Some(b) ==> current_block >= b) && (tx.execute_at_timestamp matches Some(
        t,
    ) ==> current_timestamp >= t)
}

fn opt_debug_string(o: Option<u64>) -> (s: String)
    ensures
        s@ == opt_debug(o),
{
    match o {
        Some(n) => {
            let mut s = String::from_str("Some(");
            let d = decimal(n);
            s.append(d.as_str());
            s.append(")");
            s
        },
        None => String::from_str("None"),
    }
}

fn timelock_message(tx: &Transaction, current_block: u64, current_timestamp: u64) -> (s: String)
    ensures
        s@ == timelock_text(*tx, current_block, current_timestamp),
{
    let mut s = String::from_str("Time-locked transaction not ready: execute_at_block=");
    let a = opt_debug_string(tx.execute_at_block);
    s.append(a.as_str());
    s.append(", execute_at_timestamp=");
    let b = opt_debug_string(tx.execute_at_timestamp);
    s.append(b.as_str());
    s.append(", current_block=");
    let c = decimal(current_block);
    s.append(c.as_str());
    s.append(", current_timestamp=");
    let d = decimal(current_timestamp);
    s.append(d.as_str());
    s
}

/// The first rule a transaction breaks under full validation: the
/// signature (unless multi-signature approvals stand in for it), fee, data
/// size, value bounds, gas ceiling, chain id, hash, nonce and balances, a
/// zero gas limit, and the gas needed for contract data.
pub open spec fn full_error(
    accounts: Map<Address, AccountState>,
    chain_id: u64,
    evm_enabled: bool,
    tx: Transaction,
    current_block: u64,
) -> Option<(bool, Seq<char>)> {
    if tx.multisig_signatures is None && signature_outcome(tx, current_block) != Ok::<bool, Seq<char>>(true) {
        Some((true, "Invalid transaction signature"@))
    } else if tx.fee == 0 && !zero_address(tx.from.0) {
        Some((true, "transaction fee must be greater than zero"@))
    } else if tx.data@.len() > MAX_TX_DATA_SIZE {
        Some(
            (
                true,
                "transaction data size "@ + spec_decimal(tx.data@.len()) + " exceeds maximum "@
                    + spec_decimal(MAX_TX_DATA_SIZE as nat),
            ),
        )
    } else if tx.value > MAX_TX_VALUE {
        Some((true, "transaction value exceeds maximum allowed"@))
    } else if tx.value + tx.fee > u128::MAX {
        Some((true, "transaction value + fee overflows"@))
    } else if tx.gas_limit > MAX_GAS_LIMIT {
        Some(
            (
                true,
                "gas_limit "@ + spec_decimal(tx.gas_limit as nat) + " exceeds maximum "@
                    + spec_decimal(MAX_GAS_LIMIT as nat),
            ),
        )
    } else if tx.chain_id is Some && tx.chain_id->0 != chain_id {
        Some(
            (
                true,
                "Invalid chain ID: expected "@ + spec_decimal(chain_id as nat) + ", got "@
                    + spec_decimal(tx.chain_id->0 as nat),
            ),
        )
    } else if tx.hash.0@ != spec_tx_hash(tx) {
        Some((true, "Invalid transaction hash"@))
    } else {
        match funds_error(
            tx,
            nonce_in(accounts, tx.from),
            balance_in(accounts, tx.from),
            match tx.sponsor {
                Some(s) => balance_in(accounts, s),
                None => 0,
            },
        ) {
            Some(m) => Some((true, m)),
            None => if tx.gas_limit == 0 {
                Some((false, "Gas limit cannot be zero"@))
            } else if evm_enabled && tx.data@.len() > 0 && tx.gas_limit < MIN_CONTRACT_GAS {
                Some((false, "Gas limit too low for contract interaction"@))
            } else {
                None
            },
        }
    }
}

/// What the transaction rules read and write of the chain state: the
/// accounts, the spent outputs and the sponsor policies.
pub open spec fn view_of(b: Blockchain) -> (
    Map<Address, AccountState>,
    Map<SpentKey, (Hash32, u64)>,
    Map<Address, SponsorPolicy>,
) {
    (b.accounts(), b.spent()@, b.sponsors()@)
}

/// One transaction of a block applied to the state `v`: refused (with the
/// error) when it is not due, double-spends, fails validation (full for a
/// multi-signature transaction, else against the state only), is a replay,
/// or cannot be paid; otherwise the transfer, the spent output and the
/// sponsor's spend are recorded.
pub open spec fn tx_step(
    v: (Map<Address, AccountState>, Map<SpentKey, (Hash32, u64)>, Map<Address, SponsorPolicy>),
    recent: Seq<Seq<Hash32>>,
    chain_id: u64,
    evm_enabled: bool,
    tx: Transaction,
    block_hash: Hash32,
    current_block: u64,
    current_timestamp: u64,
) -> Result<
    (Map<Address, AccountState>, Map<SpentKey, (Hash32, u64)>, Map<Address, SponsorPolicy>),
    (bool, Seq<char>),
> {
    if !due(tx, current_block, current_timestamp) {
        Err((true, timelock_text(tx, current_block, current_timestamp)))
    } else if v.1.contains_key(key_of(tx)) && v.1[key_of(tx)].0 != block_hash {
        Err((true, double_spend_text(tx.from, tx.nonce, v.1[key_of(tx)].0)))
    } else {
        let verr = if tx.multisig_signatures is Some {
            full_error(v.0, chain_id, evm_enabled, tx, current_block)
        } else {
            match stateful_error(v.0, v.2, tx, current_block) {
                Some(m) => Some((true, m)),
                None => None,
            }
        };
        match verr {
            Some(e) => Err(e),
            None => if replayed(recent, tx.hash) {
                Err((true, "Transaction already processed (replay detected)"@))
            } else {
                match native_transfer(v.0, tx) {
                    Err(m) => Err((true, m)),
                    Ok(accounts) => Ok(
                        (
                            accounts,
                            v.1.insert(key_of(tx), (block_hash, current_block)),
                            match tx.sponsor {
                                Some(s) => if v.2.contains_key(s) {
                                    v.2.insert(s, spend_recorded(v.2[s], tx.fee, current_block))
                                } else {
                                    v.2
                                },
                                None => v.2,
                            },
                        ),
                    ),
                }
            },
        }
    }
}

/// The transactions `txs` applied in order from `v`: the final state, or
/// the first error with the state reached before the refused transaction.
pub open spec fn tx_run(
    v: (Map<Address, AccountState>, Map<SpentKey, (Hash32, u64)>, Map<Address, SponsorPolicy>),
    recent: Seq<Seq<Hash32>>,
    chain_id: u64,
    evm_enabled: bool,
    txs: Seq<Transaction>,
    block_hash: Hash32,
    current_block: u64,
    current_timestamp: u64,
) -> Result<
    (Map<Address, AccountState>, Map<SpentKey, (Hash32, u64)>, Map<Address, SponsorPolicy>),
    (
        (bool, Seq<char>),
        (Map<Address, AccountState>, Map<SpentKey, (Hash32, u64)>, Map<Address, SponsorPolicy>),
    ),
>
    decreases txs.len(),
{
    if txs.len() == 0 {
        Ok(v)
    } else {
        match tx_run(
            v,
            recent,
            chain_id,
            evm_enabled,
            txs.drop_last(),
            block_hash,
            current_block,
            current_timestamp,
        ) {
            Err(e) => Err(e),
            Ok(v2) => match tx_step(
                v2,
                recent,
                chain_id,
                evm_enabled,
                txs.last(),
                block_hash,
                current_block,
                current_timestamp,
            ) {
                Ok(v3) => Ok(v3),
                Err(e) => Err((e, v2)),
            },
        }
    }
}

/// The first transaction from `i` on (multi-signature ones aside) that
/// fails the checks needing no state, with its error.
pub open spec fn prepass_error(
    txs: Seq<Transaction>,
    i: int,
    chain_id: u64,
    evm_enabled: bool,
    current_block: u64,
) -> Option<(bool, Seq<char>)>
    decreases txs.len() - i,
{
    if i >= txs.len() || i < 0 {
        None
    } else if txs[i].multisig_signatures is None && stateless_error(
        txs[i],
        chain_id,
        evm_enabled,
        signature_outcome(txs[i], current_block) == Ok::<bool, Seq<char>>(true),
    ) is Some {
        stateless_error(
            txs[i],
            chain_id,
            evm_enabled,
            signature_outcome(txs[i], current_block) == Ok::<bool, Seq<char>>(true),
        )
    } else {
        prepass_error(txs, i + 1, chain_id, evm_enabled, current_block)
    }
}

/// Every native transfer that a run of `txs` from `v` reaches credits its
/// receiver without overflow: whenever the transactions before `txs[k]`
/// all apply, the receiver of `txs[k]` has room for its value after the
/// debit.
pub open spec fn credits_fit(
    v: (Map<Address, AccountState>, Map<SpentKey, (Hash32, u64)>, Map<Address, SponsorPolicy>),
    recent: Seq<Seq<Hash32>>,
    chain_id: u64,
    evm_enabled: bool,
    txs: Seq<Transaction>,
    block_hash: Hash32,
    current_block: u64,
    current_timestamp: u64,
) -> bool {
    forall|k: int|
        0 <= k < txs.len() ==> (#[trigger] tx_run(
            v,
            recent,
            chain_id,
            evm_enabled,
            txs.take(k),
            block_hash,
            current_block,
            current_timestamp,
        ) matches Ok(w) ==> credit_fits(w.0, txs[k]))
}

/// The spent outputs after pruning at `current_height`.
pub open spec fn pruned(m: Map<SpentKey, (Hash32, u64)>, current_height: u64) -> Map<SpentKey, (Hash32, u64)> {
    if current_height <= FINALITY_DEPTH {
        m
    } else {
        m.restrict(m.dom().filter(|k: SpentKey| m[k].1 > current_height - FINALITY_DEPTH))
    }
}

impl Blockchain {
    /// Full validation of a transaction against the chain state (used for
    /// multi-signature transactions): the signature (unless approvals stand
    /// in for it), fee, data size, value bounds, gas ceiling, chain id, hash,
    /// nonce and balances, a zero gas limit, and the gas contract data needs.
    pub fn validate_transaction(&self, tx: &Transaction, current_block: u64, current_timestamp: u64) -> (r:
        Result<(), BlockchainError>)
        requires
            signature_checkable(*tx),
        ensures
            matches_outcome(r, full_error(self.accounts(), self.chain_id_spec(), self.evm_on(), *tx, current_block)),
    {
        if tx.multisig_signatures.is_none() {
            let ok = match tx.verify_signature(current_block) {
                Ok(b) => b,
                Err(_) => false,
            };
            if !ok {
                return Err(BlockchainError::InvalidTransaction(String::from_str("Invalid transaction signature")));
            }
        }
        if tx.fee == 0 && !all_zero(&tx.from.0) {
            return Err(
                BlockchainError::InvalidTransaction(
                    String::from_str("transaction fee must be greater than zero"),
                ),
            );
        }
        if tx.data.len() > MAX_TX_DATA_SIZE {
            let mut s = String::from_str("transaction data size ");
            let a = decimal(tx.data.len() as u64);
            s.append(a.as_str());
            s.append(" exceeds maximum ");
            let b = decimal(MAX_TX_DATA_SIZE as u64);
            s.append(b.as_str());
            return Err(BlockchainError::InvalidTransaction(s));
        }
        if tx.value > MAX_TX_VALUE {
            return Err(
                BlockchainError::InvalidTransaction(
                    String::from_str("transaction value exceeds maximum allowed"),
                ),
            );
        }
        if tx.value.checked_add(tx.fee).is_none() {
            return Err(BlockchainError::InvalidTransaction(String::from_str("transaction value + fee overflows")));
        }
        if tx.gas_limit > MAX_GAS_LIMIT {
            let mut s = String::from_str("gas_limit ");
            let a = decimal(tx.gas_limit);
            s.append(a.as_str());
            s.append(" exceeds maximum ");
            let b = decimal(MAX_GAS_LIMIT);
            s.append(b.as_str());
            return Err(BlockchainError::InvalidTransaction(s));
        }
        match tx.chain_id {
            Some(tx_chain_id) => {
                if tx_chain_id != self.chain_id {
                    let mut s = String::from_str("Invalid chain ID: expected ");
                    let a = decimal(self.chain_id);
                    s.append(a.as_str());
                    s.append(", got ");
                    let b = decimal(tx_chain_id);
                    s.append(b.as_str());
                    return Err(BlockchainError::InvalidTransaction(s));
                }
            },
            None => {},
        }
        let calculated_hash = tx.calculate_hash();
        if tx.hash != calculated_hash {
            proof {
                if tx.hash.0@ == calculated_hash.0@ {
                    vstd::array::axiom_array_ext_equal(tx.hash.0, calculated_hash.0);
                    assert(tx.hash.0 =~= calculated_hash.0);
                }
            }
            return Err(BlockchainError::InvalidTransaction(String::from_str("Invalid transaction hash")));
        }
        let current_nonce = self.get_nonce(tx.from);
        let sender_balance = self.get_balance(tx.from);
        let sponsor_balance = match tx.sponsor {
            Some(s) => self.get_balance(s),
            None => 0,
        };
        match check_nonce_and_balance(tx, current_nonce, sender_balance, sponsor_balance) {
            Ok(()) => {},
            Err(e) => {
                return Err(e);
            },
        }
        if tx.gas_limit == 0 {
            return Err(BlockchainError::Validation(String::from_str("Gas limit cannot be zero")));
        }
        if self.evm_enabled && tx.data.len() != 0 && tx.gas_limit < MIN_CONTRACT_GAS {
            return Err(
                BlockchainError::Validation(String::from_str("Gas limit too low for contract interaction")),
            );
        }
        Ok(())
    }

    /// Refuses `tx` when its `(sender, nonce)` was already spent by a block
    /// other than `current_block_hash`.
    pub fn check_double_spend(&self, tx: &Transaction, current_block_hash: &Hash32) -> (r: Result<(), BlockchainError>)
        requires
            self.wf(),
        ensures
            (self.spent()@.contains_key(key_of(*tx)) && self.spent()@[key_of(*tx)].0 != *current_block_hash)
                ==> is_invalid_tx(r, double_spend_text(tx.from, tx.nonce, self.spent()@[key_of(*tx)].0)),
            !(self.spent()@.contains_key(key_of(*tx)) && self.spent()@[key_of(*tx)].0 != *current_block_hash)
                ==> r is Ok,
    {
        self.spent_outputs.check_double_spend(tx, current_block_hash)
    }

    /// Records that `tx` spent `(sender, nonce)` in the given block.
    pub fn record_spent_output(&mut self, tx: &Transaction, block_hash: Hash32, block_number: u64)
        requires
            old(self).wf(),
        ensures
            final(self).wf(),
            final(self).spent()@ == old(self).spent()@.insert(key_of(*tx), (block_hash, block_number)),
            final(self).accounts() == old(self).accounts(),
            final(self).sponsors() == old(self).sponsors(),
            same_chain(*old(self), *final(self)),
    {
        self.spent_outputs.record_spent_output(tx, block_hash, block_number);
    }

    /// Forgets outputs spent at or below `current_height - FINALITY_DEPTH`.
    pub fn prune_spent_outputs(&mut self, current_height: u64)
        requires
            old(self).wf(),
        ensures
            final(self).wf(),
            final(self).spent()@ == pruned(old(self).spent()@, current_height),
            final(self).accounts() == old(self).accounts(),
            final(self).sponsors() == old(self).sponsors(),
            same_chain(*old(self), *final(self)),
    {
        self.spent_outputs.prune_spent_outputs(current_height);
    }

    /// Forgets the outputs spent by the block `block_hash`.
    pub fn rollback_spent_outputs(&mut self, block_hash: &Hash32)
        requires
            old(self).wf(),
        ensures
            final(self).wf(),
            final(self).spent()@ == old(self).spent()@.restrict(
                old(self).spent()@.dom().filter(|k: SpentKey| old(self).spent()@[k].0 != *block_hash),
            ),
            final(self).accounts() == old(self).accounts(),
            final(self).sponsors() == old(self).sponsors(),
            same_chain(*old(self), *final(self)),
    {
        self.spent_outputs.rollback_spent_outputs(block_hash);
    }
}

/// Once a run of the first `k` transactions is refused, every longer
/// prefix ends with the same refusal.
pub(crate) proof fn lemma_run_refused(
    v: (Map<Address, AccountState>, Map<SpentKey, (Hash32, u64)>, Map<Address, SponsorPolicy>),
    recent: Seq<Seq<Hash32>>,
    chain_id: u64,
    evm_enabled: bool,
    txs: Seq<Transaction>,
    block_hash: Hash32,
    current_block: u64,
    current_timestamp: u64,
    k: int,
    m: int,
)
    requires
        0 <= k <= m <= txs.len(),
        tx_run(v, recent, chain_id, evm_enabled, txs.take(k), block_hash, current_block, current_timestamp) is Err,
    ensures
        tx_run(v, recent, chain_id, evm_enabled, txs.take(m), block_hash, current_block, current_timestamp)
            == tx_run(v, recent, chain_id, evm_enabled, txs.take(k), block_hash, current_block, current_timestamp),
    decreases m - k,
{
    if m > k {
        lemma_run_refused(v, recent, chain_id, evm_enabled, txs, block_hash, current_block, current_timestamp, k, m - 1);
        assert(txs.take(m).drop_last() =~= txs.take(m - 1));
    }
}

/// Checks every transaction (multi-signature ones aside) for the rules
/// needing no state; the first failure is reported.
fn prepass(txs: &Vec<Transaction>, chain_id: u64, evm_enabled: bool, current_block: u64) -> (r: Result<
    (),
    BlockchainError,
>)
    requires
        forall|k: int| 0 <= k < txs@.len() ==> signature_checkable(#[trigger] txs@[k]),
    ensures
        match prepass_error(txs@, 0, chain_id, evm_enabled, current_block) {
            None => r is Ok,
            Some(e) => matches_outcome(r, Some(e)),
        },
{
    let n = txs.len();
    let mut i: usize = 0;
    while i < n
        invariant
            n == txs@.len(),
            i <= n,
            forall|k: int| 0 <= k < txs@.len() ==> signature_checkable(#[trigger] txs@[k]),
            prepass_error(txs@, 0, chain_id, evm_enabled, current_block) == prepass_error(
                txs@,
                i as int,
                chain_id,
                evm_enabled,
                current_block,
            ),
        decreases n - i,
    {
        let tx = &txs[i];
        if tx.multisig_signatures.is_none() {
            match verify_tx_stateless(tx, chain_id, evm_enabled, current_block) {
                Ok(()) => {},
                Err(e) => {
                    return Err(e);
                },
            }
        }
        i = i + 1;
    }
    Ok(())
}

impl Blockchain {
    /// Applies one transaction of a block (see `tx_step`): refused without
    /// a change, or applied with its spent output and sponsor spend.
    fn apply_block_tx(&mut self, tx: &Transaction, block_hash: Hash32, current_block: u64, current_timestamp: u64) -> (r:
        Result<(), BlockchainError>)
        requires
            old(self).wf(),
            signature_checkable(*tx),
            credit_fits(old(self).accounts(), *tx),
        ensures
            final(self).wf(),
            same_chain(*old(self), *final(self)),
            match tx_step(
                view_of(*old(self)),
                old(self).recent(),
                old(self).chain_id_spec(),
                old(self).evm_on(),
                *tx,
                block_hash,
                current_block,
                current_timestamp,
            ) {
                Ok(v) => r is Ok && view_of(*final(self)) == v,
                Err(e) => matches_outcome(r, Some(e)) && view_of(*final(self)) == view_of(*old(self)),
            },
    {
        if !tx.is_ready_to_execute(current_block, current_timestamp) {
            return Err(
                BlockchainError::InvalidTransaction(timelock_message(tx, current_block, current_timestamp)),
            );
        }
        match self.check_double_spend(tx, &block_hash) {
            Ok(()) => {},
            Err(e) => {
                return Err(e);
            },
        }
        let validated = if tx.multisig_signatures.is_some() {
            self.validate_transaction(tx, current_block, current_timestamp)
        } else {
            self.validate_tx_stateful_only(tx, current_block)
        };
        match validated {
            Ok(()) => {},
            Err(e) => {
                return Err(e);
            },
        }
        match self.process_transaction(tx) {
            Ok(()) => {},
            Err(e) => {
                return Err(e);
            },
        }
        self.record_spent_output(tx, block_hash, current_block);
        match tx.sponsor {
            Some(sponsor) => {
                self.sponsor_registry.record_spend(&sponsor, tx.fee, current_block);
            },
            None => {},
        }
        Ok(())
    }

    /// Validates and applies the transactions of `block` in order. First
    /// every transaction (multi-signature ones aside) must pass the checks
    /// needing no state, else nothing changes; then each in turn must be
    /// due, not double-spend, pass validation (full for multi-signature
    /// transactions, else against the state) and be paid, and is applied,
    /// recording its spent output and its sponsor's spend. The first refusal
    /// ends the run, keeping what the earlier transactions did; after a
    /// complete run old spent outputs are pruned.
    pub fn validate_and_process_transactions(&mut self, block: &Block) -> (r: Result<(), BlockchainError>)
        requires
            old(self).wf(),
            forall|i: int| 0 <= i < block.transactions@.len() ==> signature_checkable(#[trigger] block.transactions@[i]),
            credits_fit(
                view_of(*old(self)),
                old(self).recent(),
                old(self).chain_id_spec(),
                old(self).evm_on(),
                block.transactions@,
                block.hash,
                block.header.block_number,
                block.header.timestamp,
            ),
        ensures
            final(self).wf(),
            same_chain(*old(self), *final(self)),
            match prepass_error(block.transactions@, 0, old(self).chain_id_spec(), old(self).evm_on(), block.header.block_number) {
                Some(e) => matches_outcome(r, Some(e)) && view_of(*final(self)) == view_of(*old(self)),
                None => match tx_run(
                    view_of(*old(self)),
                    old(self).recent(),
                    old(self).chain_id_spec(),
                    old(self).evm_on(),
                    block.transactions@,
                    block.hash,
                    block.header.block_number,
                    block.header.timestamp,
                ) {
                    Ok(v) => r is Ok && view_of(*final(self)) == (v.0, pruned(v.1, block.header.block_number), v.2),
                    Err((e, v)) => matches_outcome(r, Some(e)) && view_of(*final(self)) == v,
                },
            },
    {
        let current_block = block.header.block_number;
        let current_timestamp = block.header.timestamp;
        let block_hash = block.hash;
        let txs = &block.transactions;
        let n = txs.len();
        let chain_id = self.chain_id;
        let evm_enabled = self.evm_enabled;
        match prepass(txs, chain_id, evm_enabled, current_block) {
            Ok(()) => {},
            Err(e) => {
                return Err(e);
            },
        }
        let ghost v0 = view_of(*self);
        let ghost recent = self.recent();
        let mut j: usize = 0;
        proof {
            assert(txs@.take(0) =~= Seq::<Transaction>::empty());
        }
        while j < n
            invariant
                n == txs@.len(),
                txs@ == block.transactions@,
                j <= n,
                self.wf(),
                chain_id == old(self).chain_id_spec(),
                evm_enabled == old(self).evm_on(),
                self.chain_id_spec() == chain_id,
                self.evm_on() == evm_enabled,
                self.recent() == recent,
                recent == old(self).recent(),
                same_chain(*old(self), *self),
                v0 == view_of(*old(self)),
                current_block == block.header.block_number,
                current_timestamp == block.header.timestamp,
                block_hash == block.hash,
                prepass_error(txs@, 0, chain_id, evm_enabled, current_block) is None,
                forall|k: int| 0 <= k < txs@.len() ==> signature_checkable(#[trigger] txs@[k]),
                credits_fit(v0, recent, chain_id, evm_enabled, txs@, block_hash, current_block, current_timestamp),
                tx_run(v0, recent, chain_id, evm_enabled, txs@.take(j as int), block_hash, current_block, current_timestamp)
                    == Ok::<
                    (Map<Address, AccountState>, Map<SpentKey, (Hash32, u64)>, Map<Address, SponsorPolicy>),
                    ((bool, Seq<char>), (Map<Address, AccountState>, Map<SpentKey, (Hash32, u64)>, Map<Address, SponsorPolicy>)),
                >(view_of(*self)),
            decreases n - j,
        {
            let tx = &txs[j];
            let ghost before = view_of(*self);
            proof {
                assert(txs@.take(j + 1).drop_last() =~= txs@.take(j as int));
                assert(txs@.take(j + 1).last() == txs@[j as int]);
                assert(credit_fits(self.accounts(), *tx));
                assert(tx_run(v0, recent, chain_id, evm_enabled, txs@.take(j + 1), block_hash, current_block, current_timestamp)
                    == match tx_step(before, recent, chain_id, evm_enabled, txs@[j as int], block_hash, current_block, current_timestamp) {
                        Ok(v3) => Ok(v3),
                        Err(e) => Err((e, before)),
                    });
            }
            let applied = self.apply_block_tx(tx, block_hash, current_block, current_timestamp);
            match applied {
                Ok(()) => {},
                Err(_) => {
                    proof {
                        let st = tx_step(before, recent, chain_id, evm_enabled, txs@[j as int], block_hash, current_block, current_timestamp);
                        assert(st is Err);
                        let err = st->Err_0;
                        assert(matches_outcome(applied, Some(err)));
                        assert(view_of(*self) == before);
                        lemma_run_refused(v0, recent, chain_id, evm_enabled, txs@, block_hash, current_block, current_timestamp, j + 1, n as int);
                        assert(txs@.take(n as int) =~= txs@);
                        assert(tx_run(v0, recent, chain_id, evm_enabled, txs@, block_hash, current_block, current_timestamp) == Err::<
                            (Map<Address, AccountState>, Map<SpentKey, (Hash32, u64)>, Map<Address, SponsorPolicy>),
                            ((bool, Seq<char>), (Map<Address, AccountState>, Map<SpentKey, (Hash32, u64)>, Map<Address, SponsorPolicy>)),
                        >((err, before)));
                    }
                    return applied;
                },
            }
            j = j + 1;
        }
        proof {
            assert(txs@.take(n as int) =~= txs@);
        }
        self.prune_spent_outputs(current_block);
        Ok(())
    }
}

/// `a` and `b` hold the same blocks, consensus, replay protection and
/// settings; only accounts, spent outputs and sponsor policies may differ.
pub open spec fn same_chain(a: Blockchain, b: Blockchain) -> bool {
    &&& a.blocks() == b.blocks()
    &&& a.hashes() == b.hashes()
    &&& a.dag() == b.dag()
    &&& a.latest() == b.latest()
    &&& a.recent() == b.recent()
    &&& a.chain_id_spec() == b.chain_id_spec()
    &&& a.evm_on() == b.evm_on()
    &&& a.burned() == b.burned()
    &&& a.wf() == b.wf()
}

/// The kinds of error the block rules report.
pub enum RefusalKind {
    InvalidBlock,
    InvalidTransaction,
    Validation,
    Serialization,
}

/// `r` reports the refusal `o` (its kind and message), or success for none.
pub open spec fn reports(r: Result<(), BlockchainError>, o: Option<(RefusalKind, Seq<char>)>) -> bool {
    match o {
        None => r is Ok,
        Some((RefusalKind::InvalidBlock, m)) => r matches Err(BlockchainError::InvalidBlock(s)) && s@ == m,
        Some((RefusalKind::InvalidTransaction, m)) => r matches Err(BlockchainError::InvalidTransaction(s))
            && s@ == m,
        Some((RefusalKind::Validation, m)) => r matches Err(BlockchainError::Validation(s)) && s@ == m,
        Some((RefusalKind::Serialization, m)) => r matches Err(BlockchainError::Serialization(s)) && s@
            == m,
    }
}

/// A transaction rule's error as a refusal.
pub open spec fn as_refusal(e: (bool, Seq<char>)) -> (RefusalKind, Seq<char>) {
    if e.0 {
        (RefusalKind::InvalidTransaction, e.1)
    } else {
        (RefusalKind::Validation, e.1)
    }
}

/// How far (seconds) a new block's timestamp may run ahead of the clock.
pub const MAX_FUTURE_SECS: u64 = 600;


/// How many recent blocks the median timestamp is taken over.
pub const MEDIAN_WINDOW: usize = 11;

/// Blocks committed between prunings of spent outputs and red blocks.
pub const PRUNE_INTERVAL: u64 = 100;

/// The timestamps of the last (up to `MEDIAN_WINDOW`) blocks, newest first.
pub open spec fn recent_timestamps(blocks: Seq<Block>) -> Seq<u64> {
    let k: int = if blocks.len() < MEDIAN_WINDOW {
        blocks.len() as int
    } else {
        MEDIAN_WINDOW as int
    };
    Seq::new(k as nat, |i: int| blocks[blocks.len() - 1 - i].header.timestamp)
}

/// `m` is the median of `ts`: the middle element (index `len / 2`) of `ts`
/// in ascending order.
pub open spec fn is_median(ts: Seq<u64>, m: u64) -> bool {
    exists|s: Seq<u64>|
        s.len() == ts.len() && #[trigger] s.to_multiset() == ts.to_multiset() && ascending(s) && s[(s.len()
            / 2) as int] == m
}

/// The refusal `o` (or none) of the structural checks of a new block:
/// its serialized size, parent count, genesis first, a parent for every
/// other block, a timestamp not too far ahead of `current_time` and not
/// before the median of the recent blocks' timestamps.
pub open spec fn structure_rel(
    blocks: Seq<Block>,
    block: Block,
    serialized_size: Result<usize, String>,
    current_time: u64,
    o: Option<(RefusalKind, Seq<char>)>,
) -> bool {
    let ps = block.header.parent_hashes@;
    let ts = block.header.timestamp;
    match serialized_size {
        Err(e) => o == Some((RefusalKind::Serialization, e@)),
        Ok(size) => if size > MAX_BLOCK_SIZE {
            o == Some(
                (
                    RefusalKind::InvalidBlock,
                    "Block size "@ + spec_decimal(size as nat) + " exceeds maximum "@ + spec_decimal(
                        MAX_BLOCK_SIZE as nat,
                    ),
                ),
            )
        } else if ps.len() > MAX_PARENT_HASHES {
            o == Some(
                (
                    RefusalKind::InvalidBlock,
                    "Too many parent hashes: "@ + spec_decimal(ps.len()) + " (max: "@ + spec_decimal(
                        MAX_PARENT_HASHES as nat,
                    ) + ")"@,
                ),
            )
        } else if block.header.block_number == 0 {
            if blocks.len() > 0 {
                o == Some((RefusalKind::InvalidBlock, "Genesis block must be first"@))
            } else {
                o is None
            }
        } else if ps.len() == 0 {
            o == Some((RefusalKind::InvalidBlock, "Non-genesis block must have at least one parent"@))
        } else if ts > current_time + MAX_FUTURE_SECS {
            o == Some((RefusalKind::Validation, "Block timestamp too far in future"@))
        } else if blocks.len() == 0 {
            o is None
        } else {
            exists|m: u64|
                #[trigger] is_median(recent_timestamps(blocks), m) && o == (if ts < m {
                    Some(
                        (
                            RefusalKind::Validation,
                            "Block timestamp "@ + spec_decimal(ts as nat) + " is before median timestamp "@
                                + spec_decimal(m as nat) + " of recent blocks"@,
                        ),
                    )
                } else {
                    None
                })
        },
    }
}

/// The last `n` elements of `s` (all of them when there are fewer).
pub open spec fn keep_last<A>(s: Seq<A>, n: nat) -> Seq<A> {
    if s.len() > n {
        s.skip(s.len() - n)
    } else {
        s
    }
}

/// `after` is `before` with `block` committed: appended to the blocks,
/// its hash known, the latest block number raised to it, and its
/// transaction hashes recorded for replay protection (the most recent
/// `MAX_RECENT_BLOCKS` blocks kept).
pub open spec fn committed(before: Blockchain, after: Blockchain, block: Block) -> bool {
    &&& after.blocks() == before.blocks().push(block)
    &&& after.hashes() == before.hashes().insert(block.hash)
    &&& after.latest() == if block.header.block_number > before.latest() {
        block.header.block_number
    } else {
        before.latest()
    }
    &&& after.recent() == keep_last(
        before.recent().push(tx_hashes(block.transactions@)),
        MAX_RECENT_BLOCKS as nat,
    )
    &&& after.chain_id_spec() == before.chain_id_spec()
    &&& after.evm_on() == before.evm_on()
    &&& after.burned() == before.burned()
}

/// Whether some parent of `block` is a known block.
pub open spec fn has_known_parent(hashes: Set<Hash32>, block: Block) -> bool {
    exists|i: int|
        0 <= i < block.header.parent_hashes@.len() && hashes.contains(
            #[trigger] block.header.parent_hashes@[i],
        )
}

/// The consensus after `add_block` commits `block`: the block added (see
/// `dag_added`), then, when its number is a multiple of `PRUNE_INTERVAL`,
/// the old red blocks pruned at that height.
pub open spec fn dag_after_add(before: GhostDAG, after: GhostDAG, block: Block) -> bool {
    exists|mid: GhostDAG|
        #[trigger] dag_added(before, mid, block) && if block.header.block_number % PRUNE_INTERVAL == 0 {
            old_blocks_pruned(mid, after, block.header.block_number)
        } else {
            after == mid
        }
}

/// The outcome of adding `block` to `before`, giving `after` and `r`:
/// refused without a change by the structural checks, a wrong hash (for a
/// block past genesis), a known block, or no known parent; then the
/// transactions run (see `validate_and_process_transactions`) and, when
/// they all pass, the block is committed, spent outputs being pruned again
/// at every `PRUNE_INTERVAL`th block number.
pub open spec fn block_added(
    before: Blockchain,
    after: Blockchain,
    block: Block,
    serialized_size: Result<usize, String>,
    current_time: u64,
    r: Result<(), BlockchainError>,
) -> bool {
    let n = block.header.block_number;
    let computed = spec_block_hash(block.header, block.transactions@);
    exists|o: Option<(RefusalKind, Seq<char>)>|
        #[trigger] structure_rel(before.blocks(), block, serialized_size, current_time, o) && match o {
            Some(e) => reports(r, Some(e)) && after == before,
            None => if n > 0 && block.hash.0@ != computed {
                reports(
                    r,
                    Some(
                        (
                            RefusalKind::InvalidBlock,
                            "Invalid block hash. Expected: "@ + spec_hex(computed) + ", Got: "@ + spec_hex(
                                block.hash.0@,
                            ),
                        ),
                    ),
                ) && after == before
            } else if before.hashes().contains(block.hash) {
                reports(r, Some((RefusalKind::InvalidBlock, "Block already exists"@))) && after == before
            } else if n != 0 && !has_known_parent(before.hashes(), block) {
                reports(r, Some((RefusalKind::InvalidBlock, "No valid parent hash found"@))) && after
                    == before
            } else {
                match prepass_error(block.transactions@, 0, before.chain_id_spec(), before.evm_on(), n) {
                    Some(e) => reports(r, Some(as_refusal(e))) && view_of(after) == view_of(before)
                        && after.blocks() == before.blocks() && after.hashes() == before.hashes()
                        && after.recent() == before.recent() && after.latest() == before.latest()
                        && after.dag() == before.dag(),
                    None => match tx_run(
                        view_of(before),
                        before.recent(),
                        before.chain_id_spec(),
                        before.evm_on(),
                        block.transactions@,
                        block.hash,
                        n,
                        block.header.timestamp,
                    ) {
                        Err((e, v)) => reports(r, Some(as_refusal(e))) && view_of(after) == v
                            && after.blocks() == before.blocks() && after.hashes() == before.hashes()
                            && after.recent() == before.recent() && after.latest() == before.latest()
                        && after.dag() == before.dag(),
                        Ok(v) => r is Ok && committed(before, after, block) && dag_after_add(
                            before.dag(),
                            after.dag(),
                            block,
                        ) && after.accounts() == v.0
                            && after.spent()@ == pruned(pruned(v.1, n), if n % PRUNE_INTERVAL == 0 {
                            n
                        } else {
                            0
                        }) && after.sponsors()@ == v.2,
                    },
                }
            }
        }
}

/// The timestamps of the last (up to `MEDIAN_WINDOW`) blocks, newest first.
fn recent_timestamps_of(blocks: &Vec<Block>) -> (r: Vec<u64>)
    ensures
        r@ == recent_timestamps(blocks@),
{
    let n = blocks.len();
    let k = if n < MEDIAN_WINDOW {
        n
    } else {
        MEDIAN_WINDOW
    };
    let mut out: Vec<u64> = Vec::new();
    let mut i: usize = 0;
    while i < k
        invariant
            n == blocks@.len(),
            k <= n,
            k == (if n < MEDIAN_WINDOW { n } else { MEDIAN_WINDOW }),
            i <= k,
            out@.len() == i,
            forall|j: int| 0 <= j < i ==> out@[j] == blocks@[n - 1 - j].header.timestamp,
        decreases k - i,
    {
        out.push(blocks[n - 1 - i].header.timestamp);
        i = i + 1;
    }
    proof {
        assert(out@ =~= recent_timestamps(blocks@));
    }
    out
}

impl Blockchain {
    /// The structural checks of a new block (see `structure_rel`), given
    /// its serialized size (or the serialization error) and the clock.
    pub fn validate_block_structure(
        &self,
        block: &Block,
        serialized_size: &Result<usize, String>,
        current_time: u64,
    ) -> (r: Result<(), BlockchainError>)
        requires
            block.header.block_number != 0 ==> current_time <= u64::MAX - MAX_FUTURE_SECS,
        ensures
            exists|o: Option<(RefusalKind, Seq<char>)>|
                #[trigger] structure_rel(self.blocks(), *block, *serialized_size, current_time, o) && reports(r, o),
    {
        let block_size = match serialized_size {
            Ok(size) => *size,
            Err(e) => {
                let r = Err(BlockchainError::Serialization(e.clone()));
                proof {
                    assert(structure_rel(self.blocks(), *block, *serialized_size, current_time, Some((RefusalKind::Serialization, e@))));
                }
                return r;
            },
        };
        if block_size > MAX_BLOCK_SIZE {
            let mut s = String::from_str("Block size ");
            let a = decimal(block_size as u64);
            s.append(a.as_str());
            s.append(" exceeds maximum ");
            let b = decimal(MAX_BLOCK_SIZE as u64);
            s.append(b.as_str());
            let ghost m = s@;
            proof {
                assert(structure_rel(self.blocks(), *block, *serialized_size, current_time, Some((RefusalKind::InvalidBlock, m))));
            }
            return Err(BlockchainError::InvalidBlock(s));
        }
        if block.header.parent_hashes.len() > MAX_PARENT_HASHES {
            let mut s = String::from_str("Too many parent hashes: ");
            let a = decimal(block.header.parent_hashes.len() as u64);
            s.append(a.as_str());
            s.append(" (max: ");
            let b = decimal(MAX_PARENT_HASHES as u64);
            s.append(b.as_str());
            s.append(")");
            let ghost m = s@;
            proof {
                assert(structure_rel(self.blocks(), *block, *serialized_size, current_time, Some((RefusalKind::InvalidBlock, m))));
            }
            return Err(BlockchainError::InvalidBlock(s));
        }
        if block.header.block_number == 0 {
            if self.blocks.len() != 0 {
                let s = String::from_str("Genesis block must be first");
                proof {
                    assert(structure_rel(self.blocks(), *block, *serialized_size, current_time, Some((RefusalKind::InvalidBlock, s@))));
                }
                return Err(BlockchainError::InvalidBlock(s));
            }
            proof {
                assert(structure_rel(self.blocks(), *block, *serialized_size, current_time, None));
            }
            return Ok(());
        }
        if block.header.parent_hashes.len() == 0 {
            let s = String::from_str("Non-genesis block must have at least one parent");
            proof {
                assert(structure_rel(self.blocks(), *block, *serialized_size, current_time, Some((RefusalKind::InvalidBlock, s@))));
            }
            return Err(BlockchainError::InvalidBlock(s));
        }
        if block.header.timestamp > current_time + MAX_FUTURE_SECS {
            let s = String::from_str("Block timestamp too far in future");
            proof {
                assert(structure_rel(self.blocks(), *block, *serialized_size, current_time, Some((RefusalKind::Validation, s@))));
            }
            return Err(BlockchainError::Validation(s));
        }
        if self.blocks.len() == 0 {
            proof {
                assert(structure_rel(self.blocks(), *block, *serialized_size, current_time, None));
            }
            return Ok(());
        }
        let timestamps = recent_timestamps_of(&self.blocks);
        let sorted = sort_u64(&timestamps);
        let median_timestamp = sorted[sorted.len() / 2];
        proof {
            assert(is_median(recent_timestamps(self.blocks()), median_timestamp));
        }
        if block.header.timestamp < median_timestamp {
            let mut s = String::from_str("Block timestamp ");
            let a = decimal(block.header.timestamp);
            s.append(a.as_str());
            s.append(" is before median timestamp ");
            let b = decimal(median_timestamp);
            s.append(b.as_str());
            s.append(" of recent blocks");
            let ghost m = s@;
            proof {
                assert(structure_rel(self.blocks(), *block, *serialized_size, current_time, Some((RefusalKind::Validation, m))));
            }
            return Err(BlockchainError::Validation(s));
        }
        proof {
            assert(structure_rel(self.blocks(), *block, *serialized_size, current_time, None));
        }
        Ok(())
    }

    /// A block past genesis must have a known parent.
    pub fn validate_parent_hashes(&self, block: &Block) -> (r: Result<(), BlockchainError>)
        requires
            self.wf(),
        ensures
            block.header.block_number == 0 || has_known_parent(self.hashes(), *block) ==> r is Ok,
            !(block.header.block_number == 0 || has_known_parent(self.hashes(), *block)) ==> reports(
                r,
                Some((RefusalKind::InvalidBlock, "No valid parent hash found"@)),
            ),
    {
        if block.header.block_number == 0 {
            return Ok(());
        }
        let ps = &block.header.parent_hashes;
        let mut i: usize = 0;
        while i < ps.len()
            invariant
                i <= ps@.len(),
                ps@ == block.header.parent_hashes@,
                forall|j: int| 0 <= j < i ==> !self.hashes().contains(#[trigger] ps@[j]),
            decreases ps@.len() - i,
        {
            if self.block_hashes.contains(&ps[i]) {
                proof {
                    assert(self.hashes().contains(block.header.parent_hashes@[i as int]));
                }
                return Ok(());
            }
            i = i + 1;
        }
        Err(BlockchainError::InvalidBlock(String::from_str("No valid parent hash found")))
    }

    /// Commits a validated block: consensus, the block list and its hash,
    /// the latest block number, and replay protection.
    fn commit_block(&mut self, block: Block)
        requires
            old(self).wf(),
        ensures
            final(self).wf(),
            committed(*old(self), *final(self), block),
            dag_added(old(self).dag(), final(self).dag(), block),
            view_of(*final(self)) == view_of(*old(self)),
    {
        let _ = self.ghostdag.add_block(&block);
        let mut hashes: Vec<Hash32> = Vec::new();
        let mut i: usize = 0;
        while i < block.transactions.len()
            invariant
                i <= block.transactions@.len(),
                hashes@ == tx_hashes(block.transactions@).take(i as int),
            decreases block.transactions@.len() - i,
        {
            hashes.push(block.transactions[i].hash);
            i = i + 1;
            proof {
                assert(hashes@ =~= tx_hashes(block.transactions@).take(i as int));
            }
        }
        proof {
            assert(tx_hashes(block.transactions@).take(block.transactions@.len() as int) =~= tx_hashes(
                block.transactions@,
            ));
        }
        let _ = self.block_hashes.insert(block.hash);
        if block.header.block_number > self.latest_block_number {
            self.latest_block_number = block.header.block_number;
        }
        let mut recent: Vec<Vec<Hash32>> = Vec::new();
        std::mem::swap(&mut recent, &mut self.recent_tx_hashes);
        let ghost old_recent = recent@.map_values(|v: Vec<Hash32>| v@);
        recent.push(hashes);
        let ghost pushed = recent@.map_values(|v: Vec<Hash32>| v@);
        proof {
            assert(pushed =~= old_recent.push(tx_hashes(block.transactions@)));
            assert(pushed.skip(0) =~= pushed);
        }
        while recent.len() > MAX_RECENT_BLOCKS
            invariant
                pushed.len() >= recent@.len(),
                recent@.map_values(|v: Vec<Hash32>| v@) == pushed.skip(pushed.len() - recent@.len()),
                pushed.len() > MAX_RECENT_BLOCKS ==> recent@.len() >= MAX_RECENT_BLOCKS,
                pushed.len() <= MAX_RECENT_BLOCKS ==> recent@.len() == pushed.len(),
            decreases recent@.len(),
        {
            let ghost before = recent@.map_values(|v: Vec<Hash32>| v@);
            recent.remove(0);
            proof {
                assert(recent@.map_values(|v: Vec<Hash32>| v@) =~= before.skip(1));
                assert(recent@.map_values(|v: Vec<Hash32>| v@) =~= pushed.skip(pushed.len() - recent@.len()));
            }
        }
        self.recent_tx_hashes = recent;
        self.blocks.push(block);
    }
}

impl Blockchain {
    /// Adds a block (see `block_added`): structural checks against the
    /// clock and its serialized size, its hash, not known already, a known
    /// parent, then its transactions; a block whose transactions all pass
    /// is committed, with spent outputs and red blocks pruned at every
    /// `PRUNE_INTERVAL`th block number.
    pub fn add_block(&mut self, block: Block, serialized_size: Result<usize, String>, current_time: u64) -> (r:
        Result<(), BlockchainError>)
        requires
            old(self).wf(),
            block.header.block_number != 0 ==> current_time <= u64::MAX - MAX_FUTURE_SECS,
            forall|i: int| 0 <= i < block.transactions@.len() ==> signature_checkable(#[trigger] block.transactions@[i]),
            credits_fit(
                view_of(*old(self)),
                old(self).recent(),
                old(self).chain_id_spec(),
                old(self).evm_on(),
                block.transactions@,
                block.hash,
                block.header.block_number,
                block.header.timestamp,
            ),
        ensures
            final(self).wf(),
            block_added(*old(self), *final(self), block, serialized_size, current_time, r),
    {
        let checked = self.validate_block_structure(&block, &serialized_size, current_time);
        let ghost o = choose|o: Option<(RefusalKind, Seq<char>)>|
            #[trigger] structure_rel(self.blocks(), block, serialized_size, current_time, o) && reports(checked, o);
        match checked {
            Ok(()) => {},
            Err(e) => {
                return Err(e);
            },
        }
        proof {
            assert(o is None);
        }
        if block.header.block_number > 0 {
            let calculated = block.calculate_hash();
            if !calculated.same(&block.hash) {
                let mut s = String::from_str("Invalid block hash. Expected: ");
                let a = hex(&calculated.0);
                s.append(a.as_str());
                s.append(", Got: ");
                let b = hex(&block.hash.0);
                s.append(b.as_str());
                proof {
                    if block.hash.0@ == calculated.0@ {
                        vstd::array::axiom_array_ext_equal(block.hash.0, calculated.0);
                        assert(block.hash.0 =~= calculated.0);
                    }
                }
                return Err(BlockchainError::InvalidBlock(s));
            }
        }
        if self.block_hashes.contains(&block.hash) {
            return Err(BlockchainError::InvalidBlock(String::from_str("Block already exists")));
        }
        match self.validate_parent_hashes(&block) {
            Ok(()) => {},
            Err(e) => {
                return Err(e);
            },
        }
        let ghost before = *self;
        match self.validate_and_process_transactions(&block) {
            Ok(()) => {},
            Err(e) => {
                return Err(e);
            },
        }
        let n = block.header.block_number;
        let ghost processed = *self;
        self.commit_block(block);
        let ghost mid = self.dag();
        if n % PRUNE_INTERVAL == 0 {
            self.prune_spent_outputs(n);
            self.ghostdag.prune_old_blocks(n);
        }
        proof {
            assert(committed(before, *self, block));
            assert(dag_added(before.dag(), mid, block));
            assert(dag_after_add(before.dag(), self.dag(), block));
        }
        Ok(())
    }
}

/// The block number of the first block with each hash.
pub open spec fn first_numbers(blocks: Seq<Block>) -> Map<Hash32, u64>
    decreases blocks.len(),
{
    if blocks.len() == 0 {
        Map::empty()
    } else {
        let m = first_numbers(blocks.drop_last());
        if m.contains_key(blocks.last().hash) {
            m
        } else {
            m.insert(blocks.last().hash, blocks.last().header.block_number)
        }
    }
}

/// The text of the first rule of the enhanced validation (for blocks
/// received from peers) that a block breaks: limits, timestamp, parents,
/// repeated transactions, hash.
pub open spec fn enhanced_error(
    blocks: Seq<Block>,
    hashes: Set<Hash32>,
    block: Block,
    serialized_size: Option<usize>,
    current_time: u64,
) -> Option<Seq<char>> {
    match limits_error(block, serialized_size) {
        Some(m) => Some(m),
        None => match timestamp_error(block, current_time) {
            Some(m) => Some(m),
            None => match parents_error(block, hashes, first_numbers(blocks)) {
                Some(m) => Some(m),
                None => match duplicate_error(block) {
                    Some(m) => Some(m),
                    None => hash_error(block),
                },
            },
        },
    }
}

/// A result that is `Ok` whatever it carries.
pub open spec fn unit_of(r: Result<bool, BlockchainError>) -> Result<(), BlockchainError> {
    match r {
        Ok(_) => Ok(()),
        Err(e) => Err(e),
    }
}

/// The outcome of adding `block` during sync, giving `after` and `r`:
/// refused by the enhanced validation (reported as a validation error)
/// without a change; `Ok(false)` for a known block; then the transactions
/// run, and a block whose transactions all pass is committed (`Ok(true)`).
pub open spec fn block_synced(
    before: Blockchain,
    after: Blockchain,
    block: Block,
    serialized_size: Option<usize>,
    current_time: u64,
    r: Result<bool, BlockchainError>,
) -> bool {
    let n = block.header.block_number;
    match enhanced_error(before.blocks(), before.hashes(), block, serialized_size, current_time) {
        Some(m) => (r matches Err(BlockchainError::Validation(s)) && s@ == m) && after == before,
        None => if before.hashes().contains(block.hash) {
            r == Ok::<bool, BlockchainError>(false) && after == before
        } else {
            match prepass_error(block.transactions@, 0, before.chain_id_spec(), before.evm_on(), n) {
                Some(e) => reports(unit_of(r), Some(as_refusal(e))) && view_of(after) == view_of(before)
                    && after.blocks() == before.blocks() && after.hashes() == before.hashes()
                    && after.recent() == before.recent() && after.latest() == before.latest()
                        && after.dag() == before.dag(),
                None => match tx_run(
                    view_of(before),
                    before.recent(),
                    before.chain_id_spec(),
                    before.evm_on(),
                    block.transactions@,
                    block.hash,
                    n,
                    block.header.timestamp,
                ) {
                    Err((e, v)) => reports(unit_of(r), Some(as_refusal(e))) && view_of(after) == v
                        && after.blocks() == before.blocks() && after.hashes() == before.hashes()
                        && after.recent() == before.recent() && after.latest() == before.latest()
                        && after.dag() == before.dag(),
                    Ok(v) => r == Ok::<bool, BlockchainError>(true) && committed(before, after, block)
                        && dag_added(before.dag(), after.dag(), block) && after.accounts() == v.0 && after.spent()@ == pruned(v.1, n) && after.sponsors()@
                        == v.2,
                },
            }
        }
    }
}

impl Blockchain {
    /// The block number of the first block with each hash.
    fn block_numbers(&self) -> (r: KeyMap<Hash32, u64>)
        ensures
            r.wf(),
            r@ == first_numbers(self.blocks()),
    {
        let mut m: KeyMap<Hash32, u64> = KeyMap::new();
        let mut i: usize = 0;
        proof {
            assert(self.blocks().take(0) =~= Seq::<Block>::empty());
        }
        while i < self.blocks.len()
            invariant
                i <= self.blocks@.len(),
                m.wf(),
                m@ == first_numbers(self.blocks().take(i as int)),
            decreases self.blocks@.len() - i,
        {
            let b = &self.blocks[i];
            proof {
                assert(self.blocks().take(i + 1).drop_last() =~= self.blocks().take(i as int));
            }
            if !m.contains_key(&b.hash) {
                m.insert(b.hash, b.header.block_number);
            }
            i = i + 1;
        }
        proof {
            assert(self.blocks().take(self.blocks@.len() as int) =~= self.blocks());
        }
        m
    }

    /// Blocks may reference parents at any height in the DAG; no block is
    /// refused for its number.
    pub fn validate_block_number(&self, block: &Block) -> (r: Result<(), BlockValidationError>)
        ensures
            r is Ok,
    {
        Ok(())
    }

    /// The enhanced validation of a block received from a peer (see
    /// `enhanced_error`), given its serialized size (none when it could not
    /// be serialized) and the clock.
    pub fn validate_block_enhanced(&self, block: &Block, serialized_size: Option<usize>, current_time: u64) -> (r:
        Result<(), BlockValidationError>)
        requires
            self.wf(),
            current_time <= u64::MAX - MAX_TIMESTAMP_DRIFT,
        ensures
            match enhanced_error(self.blocks(), self.hashes(), *block, serialized_size, current_time) {
                None => r is Ok,
                Some(m) => r matches Err(e) && validation_text(e) == m,
            },
    {
        match validate_block_limits(block, serialized_size) {
            Ok(()) => {},
            Err(e) => {
                return Err(e);
            },
        }
        match validate_block_timestamp(block, current_time) {
            Ok(()) => {},
            Err(e) => {
                return Err(e);
            },
        }
        let numbers = self.block_numbers();
        match validate_parent_hashes_enhanced(block, &self.block_hashes, &numbers) {
            Ok(()) => {},
            Err(e) => {
                return Err(e);
            },
        }
        match self.validate_block_number(block) {
            Ok(()) => {},
            Err(e) => {
                return Err(e);
            },
        }
        match check_duplicate_transactions(block) {
            Ok(()) => {},
            Err(e) => {
                return Err(e);
            },
        }
        verify_tx_root(block)
    }

    /// Adds a block received during sync (see `block_synced`).
    pub fn add_block_for_sync(&mut self, block: Block, serialized_size: Option<usize>, current_time: u64) -> (r:
        Result<bool, BlockchainError>)
        requires
            old(self).wf(),
            current_time <= u64::MAX - MAX_TIMESTAMP_DRIFT,
            forall|i: int| 0 <= i < block.transactions@.len() ==> signature_checkable(#[trigger] block.transactions@[i]),
            credits_fit(
                view_of(*old(self)),
                old(self).recent(),
                old(self).chain_id_spec(),
                old(self).evm_on(),
                block.transactions@,
                block.hash,
                block.header.block_number,
                block.header.timestamp,
            ),
        ensures
            final(self).wf(),
            block_synced(*old(self), *final(self), block, serialized_size, current_time, r),
    {
        match self.validate_block_enhanced(&block, serialized_size, current_time) {
            Ok(()) => {},
            Err(e) => {
                return Err(BlockchainError::Validation(e.to_string()));
            },
        }
        if self.block_hashes.contains(&block.hash) {
            return Ok(false);
        }
        let ghost before = *self;
        match self.validate_and_process_transactions(&block) {
            Ok(()) => {},
            Err(e) => {
                return Err(e);
            },
        }
        self.commit_block(block);
        proof {
            assert(committed(before, *self, block));
        }
        Ok(true)
    }

    /// Registers `block` as a trusted checkpoint without validation, so
    /// later blocks can name it as a parent; false if it is known already.
    pub fn install_sync_checkpoint(&mut self, block: Block) -> (r: bool)
        requires
            old(self).wf(),
        ensures
            final(self).wf(),
            r == !old(self).hashes().contains(block.hash),
            !r ==> *final(self) == *old(self),
            r ==> {
                &&& final(self).blocks() == old(self).blocks().push(block)
                &&& final(self).hashes() == old(self).hashes().insert(block.hash)
                &&& final(self).latest() == if block.header.block_number > old(self).latest() {
                    block.header.block_number
                } else {
                    old(self).latest()
                }
                &&& view_of(*final(self)) == view_of(*old(self))
                &&& final(self).recent() == old(self).recent()
                &&& final(self).dag() == old(self).dag()
            },
    {
        if self.block_hashes.contains(&block.hash) {
            return false;
        }
        let _ = self.block_hashes.insert(block.hash);
        if block.header.block_number > self.latest_block_number {
            self.latest_block_number = block.header.block_number;
        }
        self.blocks.push(block);
        true
    }

    /// The highest block number added so far.
    pub fn latest_block_number(&self) -> (r: u64)
        ensures
            r == self.latest(),
    {
        self.latest_block_number
    }

    /// A copy of the first block with hash `hash`, if any.
    pub fn get_block_by_hash(&self, hash: &Hash32) -> (r: Option<Block>)
        ensures
            match r {
                Some(b) => exists|i: int|
                    0 <= i < self.blocks().len() && (#[trigger] self.blocks()[i]).hash == *hash && same_block(
                        b,
                        self.blocks()[i],
                    ) && forall|j: int| 0 <= j < i ==> self.blocks()[j].hash != *hash,
                None => forall|i: int| 0 <= i < self.blocks().len() ==> (#[trigger] self.blocks()[i]).hash != *hash,
            },
    {
        let mut i: usize = 0;
        while i < self.blocks.len()
            invariant
                i <= self.blocks@.len(),
                forall|j: int| 0 <= j < i ==> (#[trigger] self.blocks()[j]).hash != *hash,
            decreases self.blocks@.len() - i,
        {
            if self.blocks[i].hash.same(hash) {
                let b = self.blocks[i].duplicate();
                proof {
                    assert(self.blocks()[i as int].hash == *hash && same_block(b, self.blocks()[i as int]));
                }
                return Some(b);
            }
            i = i + 1;
        }
        None
    }

    /// A copy of the last block added, if any.
    pub fn get_latest_block(&self) -> (r: Option<Block>)
        ensures
            self.blocks().len() == 0 ==> r is None,
            self.blocks().len() > 0 ==> (r matches Some(b) && same_block(b, self.blocks().last())),
    {
        let n = self.blocks.len();
        if n == 0 {
            None
        } else {
            Some(self.blocks[n - 1].duplicate())
        }
    }
}


/// `v` holds copies of `src`, block by block.
pub open spec fn copies(v: Seq<Block>, src: Seq<Block>) -> bool {
    &&& v.len() == src.len()
    &&& forall|i: int| 0 <= i < v.len() ==> same_block(#[trigger] v[i], src[i])
}

/// The number of transactions over `blocks`.
pub open spec fn tx_total(blocks: Seq<Block>) -> nat
    decreases blocks.len(),
{
    if blocks.len() == 0 {
        0
    } else {
        tx_total(blocks.drop_last()) + blocks.last().transactions@.len()
    }
}

/// Block `b` holds a transaction with hash `h`.
pub open spec fn holds_tx(b: Block, h: Hash32) -> bool {
    exists|m: int| 0 <= m < b.transactions@.len() && (#[trigger] b.transactions@[m]).hash == h
}

/// `after` is `before` with all consensus state and storage cleared.
pub open spec fn dag_cleared(before: GhostDAG, after: GhostDAG) -> bool {
    &&& after.wf()
    &&& after.genesis() is None
    &&& after.blue() == Set::<Hash32>::empty()
    &&& after.red() == Set::<Hash32>::empty()
    &&& after.scores() == Map::<Hash32, u64>::empty()
    &&& after.timestamps() == Map::<Hash32, u64>::empty()
    &&& after.ordering() == Seq::<Hash32>::empty()
    &&& after.store().blocks() == Map::<Hash32, Block>::empty()
    &&& after.store().children() == Map::<Hash32, Seq<Hash32>>::empty()
    &&& after.store().blue() == Set::<Hash32>::empty()
    &&& after.store().scores() == Map::<Hash32, u64>::empty()
    &&& after.store().finalized() == Set::<Hash32>::empty()
    &&& after.store().counter() == 0
    &&& after.store().cache_size() == before.store().cache_size()
    &&& after.store().checkpoint_confirmations() == before.store().checkpoint_confirmations()
    &&& after.k_spec() == before.k_spec()
    &&& after.stale_rebuilt() == before.stale_rebuilt()
}

impl Blockchain {
    /// An empty chain state whose contract rules apply when `enable` holds
    /// (see the `evm_enabled` field: no EVM executor is attached).
    pub fn with_evm(enable: bool) -> (b: Self)
        ensures
            b.wf(),
            b.accounts() == Map::<Address, AccountState>::empty(),
            b.recent() == Seq::<Seq<Hash32>>::empty(),
            b.spent()@ == Map::<SpentKey, (Hash32, u64)>::empty(),
            b.sponsors()@ == Map::<Address, SponsorPolicy>::empty(),
            b.chain_id_spec() == DEFAULT_CHAIN_ID,
            b.evm_on() == enable,
            b.burned() == 0,
            b.blocks() == Seq::<Block>::empty(),
            b.hashes() == Set::<Hash32>::empty(),
            b.latest() == 0,
            b.ready_spec(),
    {
        let mut b = Self::new();
        b.evm_enabled = enable;
        b
    }

    /// Copies of the blocks at positions `start` up to `end`.
    fn copy_range(&self, start: usize, end: usize) -> (r: Vec<Block>)
        requires
            start <= end <= self.blocks().len(),
        ensures
            copies(r@, self.blocks().subrange(start as int, end as int)),
    {
        let mut v: Vec<Block> = Vec::new();
        let mut i: usize = start;
        while i < end
            invariant
                start <= i <= end <= self.blocks@.len(),
                v@.len() == i - start,
                forall|j: int| 0 <= j < v@.len() ==> same_block(#[trigger] v@[j], self.blocks@[start + j]),
            decreases end - i,
        {
            v.push(self.blocks[i].duplicate());
            i = i + 1;
        }
        v
    }

    /// Copies of all blocks, in the order they were added.
    pub fn get_blocks(&self) -> (r: Vec<Block>)
        ensures
            copies(r@, self.blocks()),
    {
        let r = self.copy_range(0, self.blocks.len());
        proof {
            assert(self.blocks().subrange(0, self.blocks@.len() as int) =~= self.blocks());
        }
        r
    }

    /// The number of blocks added.
    pub fn get_block_count(&self) -> (r: usize)
        ensures
            r == self.blocks().len(),
    {
        self.blocks.len()
    }

    /// Whether a block with hash `hash` was added.
    pub fn has_block_hash(&self, hash: &Hash32) -> (r: bool)
        requires
            self.wf(),
        ensures
            r == self.hashes().contains(*hash),
    {
        self.block_hashes.contains(hash)
    }

    /// The highest block number added so far.
    pub fn get_max_block_number(&self) -> (r: u64)
        ensures
            r == self.latest(),
    {
        self.latest_block_number
    }

    /// Copies of the last `n` blocks (all of them when there are fewer).
    pub fn get_blocks_tail(&self, n: usize) -> (r: Vec<Block>)
        ensures
            copies(
                r@,
                self.blocks().subrange(
                    if n >= self.blocks().len() { 0 } else { self.blocks().len() - n },
                    self.blocks().len() as int,
                ),
            ),
    {
        let len = self.blocks.len();
        let start = len.saturating_sub(n);
        self.copy_range(start, len)
    }

    /// Copies of the blocks from position `start_index` on.
    pub fn get_blocks_from(&self, start_index: usize) -> (r: Vec<Block>)
        requires
            start_index <= self.blocks().len(),
        ensures
            copies(r@, self.blocks().subrange(start_index as int, self.blocks().len() as int)),
    {
        self.copy_range(start_index, self.blocks.len())
    }

    /// The number of transactions over all blocks.
    pub fn transaction_count(&self) -> (r: usize)
        requires
            tx_total(self.blocks()) <= usize::MAX,
        ensures
            r == tx_total(self.blocks()),
    {
        let mut total: usize = 0;
        let mut i: usize = 0;
        while i < self.blocks.len()
            invariant
                i <= self.blocks@.len(),
                total == tx_total(self.blocks().take(i as int)),
                tx_total(self.blocks()) <= usize::MAX,
            decreases self.blocks@.len() - i,
        {
            proof {
                assert(self.blocks().take(i + 1).drop_last() =~= self.blocks().take(i as int));
                lemma_tx_total_prefix(self.blocks(), i + 1);
            }
            total = total + self.blocks[i].transactions.len();
            i = i + 1;
        }
        proof {
            assert(self.blocks().take(self.blocks@.len() as int) =~= self.blocks());
        }
        total
    }

    /// A copy of the last block added with number `number`, if any.
    pub fn get_block_by_number(&self, number: u64) -> (r: Option<Block>)
        ensures
            match r {
                Some(b) => exists|i: int|
                    0 <= i < self.blocks().len() && (#[trigger] self.blocks()[i]).header.block_number == number
                        && same_block(b, self.blocks()[i]) && forall|j: int|
                        i < j < self.blocks().len() ==> self.blocks()[j].header.block_number != number,
                None => forall|i: int|
                    0 <= i < self.blocks().len() ==> (#[trigger] self.blocks()[i]).header.block_number != number,
            },
    {
        let mut i: usize = self.blocks.len();
        while i > 0
            invariant
                i <= self.blocks@.len(),
                forall|j: int| i <= j < self.blocks@.len() ==> (#[trigger] self.blocks()[j]).header.block_number != number,
            decreases i,
        {
            i = i - 1;
            if self.blocks[i].header.block_number == number {
                let b = self.blocks[i].duplicate();
                proof {
                    assert(self.blocks()[i as int].header.block_number == number && same_block(b, self.blocks()[i as int]));
                }
                return Some(b);
            }
        }
        None
    }

    /// The last block holding a transaction with hash `hash`, and copies of
    /// that block, of the last such transaction in it, and its position.
    pub fn get_transaction_by_hash(&self, hash: &Hash32) -> (r: Option<(Block, Transaction, usize)>)
        ensures
            match r {
                Some((b, t, k)) => exists|i: int|
                    0 <= i < self.blocks().len() && same_block(b, #[trigger] self.blocks()[i]) && k
                        < self.blocks()[i].transactions@.len() && self.blocks()[i].transactions@[k as int].hash
                        == *hash && same_tx(t, self.blocks()[i].transactions@[k as int]) && (forall|m: int|
                        k < m < self.blocks()[i].transactions@.len() ==> (#[trigger] self.blocks()[i].transactions@[m]).hash
                            != *hash) && forall|j: int| i < j < self.blocks().len() ==> !holds_tx(self.blocks()[j], *hash),
                None => forall|i: int| 0 <= i < self.blocks().len() ==> !holds_tx(#[trigger] self.blocks()[i], *hash),
            },
    {
        let mut i: usize = self.blocks.len();
        while i > 0
            invariant
                i <= self.blocks@.len(),
                forall|j: int| i <= j < self.blocks@.len() ==> !holds_tx(#[trigger] self.blocks()[j], *hash),
            decreases i,
        {
            i = i - 1;
            let txs = &self.blocks[i].transactions;
            let mut k: usize = txs.len();
            while k > 0
                invariant
                    i < self.blocks@.len(),
                    txs@ == self.blocks()[i as int].transactions@,
                    k <= txs@.len(),
                    forall|m: int| k <= m < txs@.len() ==> (#[trigger] txs@[m]).hash != *hash,
                    forall|j: int| i < j < self.blocks@.len() ==> !holds_tx(#[trigger] self.blocks()[j], *hash),
                decreases k,
            {
                k = k - 1;
                if txs[k].hash.same(hash) {
                    let b = self.blocks[i].duplicate();
                    let t = txs[k].duplicate();
                    proof {
                        let ii = i as int;
                        assert(same_block(b, self.blocks()[ii]) && k < self.blocks()[ii].transactions@.len()
                            && self.blocks()[ii].transactions@[k as int].hash == *hash && same_tx(
                            t,
                            self.blocks()[ii].transactions@[k as int],
                        ) && (forall|m: int|
                            k < m < self.blocks()[ii].transactions@.len() ==> (#[trigger] self.blocks()[ii].transactions@[m]).hash
                                != *hash) && forall|j: int| ii < j < self.blocks().len() ==> !holds_tx(self.blocks()[j], *hash));
                    }
                    return Some((b, t, k));
                }
            }
            proof {
                assert(!holds_tx(self.blocks()[i as int], *hash));
            }
        }
        None
    }

    /// Whether the block is blue in the consensus.
    pub fn is_blue_block(&self, hash: &Hash32) -> (r: bool)
        ensures
            r == self.dag().blue().contains(*hash),
    {
        self.ghostdag.is_blue(hash)
    }

    /// The hash of the finalized tip of the consensus ordering.
    pub fn get_finalized_block_hash(&self) -> (r: Result<Option<Hash32>, BlockchainError>)
        ensures
            r matches Ok(o) && o == (if self.dag().ordering().len() > crate::consensus::finality_depth_of(
                self.dag().store().checkpoint_confirmations(),
            ) {
                Some(self.dag().ordering()[crate::consensus::finality_depth_of(self.dag().store().checkpoint_confirmations()) as int])
            } else {
                None
            }),
    {
        self.ghostdag.get_finalized_block_hash()
    }

    /// The block number of the finalized tip, when it is known and stored.
    pub fn get_finalized_block_number(&self) -> (r: Result<Option<u64>, BlockchainError>)
        requires
            self.wf(),
        ensures
            r matches Ok(o) && o == (if self.dag().ordering().len() > crate::consensus::finality_depth_of(
                self.dag().store().checkpoint_confirmations(),
            ) && self.dag().store().blocks().contains_key(
                self.dag().ordering()[crate::consensus::finality_depth_of(self.dag().store().checkpoint_confirmations()) as int],
            ) {
                Some(
                    self.dag().store().blocks()[self.dag().ordering()[crate::consensus::finality_depth_of(
                        self.dag().store().checkpoint_confirmations(),
                    ) as int]].header.block_number,
                )
            } else {
                None
            }),
    {
        self.ghostdag.get_finalized_block_number()
    }

    /// Copies of the stored blocks of the consensus ordering, in order.
    pub fn get_ordered_blocks(&self) -> (r: Result<Vec<Block>, BlockchainError>)
        requires
            self.wf(),
        ensures
            r matches Ok(v) && ({
                let stored = self.dag().ordering().filter(
                    |h: Hash32| self.dag().store().blocks().contains_key(h),
                );
                &&& v@.len() == stored.len()
                &&& forall|i: int|
                    0 <= i < v@.len() ==> same_block(
                        #[trigger] v@[i],
                        self.dag().store().blocks()[stored[i]],
                    )
            }),
    {
        self.ghostdag.get_ordered_blocks()
    }

    /// Clears the blocks, their hashes, the consensus state and the spent
    /// outputs, to sync a new chain from genesis; accounts, replay
    /// protection, sponsors and settings are kept.
    pub fn clear_for_resync(&mut self)
        requires
            old(self).wf(),
        ensures
            final(self).wf(),
            final(self).blocks() == Seq::<Block>::empty(),
            final(self).hashes() == Set::<Hash32>::empty(),
            final(self).latest() == 0,
            final(self).spent()@ == Map::<SpentKey, (Hash32, u64)>::empty(),
            dag_cleared(old(self).dag(), final(self).dag()),
            final(self).accounts() == old(self).accounts(),
            final(self).sponsors() == old(self).sponsors(),
            final(self).recent() == old(self).recent(),
            final(self).chain_id_spec() == old(self).chain_id_spec(),
            final(self).evm_on() == old(self).evm_on(),
            final(self).burned() == old(self).burned(),
    {
        self.blocks.clear();
        self.block_hashes.clear();
        self.latest_block_number = 0;
        self.ghostdag.clear();
        self.spent_outputs = SpentOutputs::new();
    }
}

/// The transactions of a prefix, and one more block.
proof fn lemma_tx_total_prefix(blocks: Seq<Block>, n: int)
    requires
        0 < n <= blocks.len(),
    ensures
        tx_total(blocks.take(n)) == tx_total(blocks.take(n - 1)) + blocks[n - 1].transactions@.len(),
        tx_total(blocks.take(n)) <= tx_total(blocks),
    decreases blocks.len() - n,
{
    assert(blocks.take(n).drop_last() =~= blocks.take(n - 1));
    if n < blocks.len() {
        lemma_tx_total_prefix(blocks, n + 1);
    } else {
        assert(blocks.take(n) =~= blocks);
    }
}


impl Blockchain {
    /// Whether loading has finished (see `set_ready`).
    pub closed spec fn ready_spec(&self) -> bool {
        self.ready
    }

    /// Marks the chain ready for sync and mining, once loading has finished.
    pub fn set_ready(&mut self)
        ensures
            final(self).ready_spec(),
            final(self).wf() == old(self).wf(),
            final(self).blocks() == old(self).blocks(),
            final(self).hashes() == old(self).hashes(),
            final(self).dag() == old(self).dag(),
            final(self).latest() == old(self).latest(),
            final(self).accounts() == old(self).accounts(),
            final(self).recent() == old(self).recent(),
            final(self).spent() == old(self).spent(),
            final(self).sponsors() == old(self).sponsors(),
            final(self).chain_id_spec() == old(self).chain_id_spec(),
            final(self).evm_on() == old(self).evm_on(),
            final(self).burned() == old(self).burned(),
    {
        self.ready = true;
    }

    /// Whether the chain is ready for sync and mining (an in-memory chain
    /// is ready from the start).
    pub fn is_ready(&self) -> (r: bool)
        ensures
            r == self.ready_spec(),
    {
        self.ready
    }

    /// The consensus engine.
    pub fn ghostdag(&self) -> (r: &GhostDAG)
        ensures
            *r == self.dag(),
    {
        &self.ghostdag
    }

    /// The sponsor policies.
    pub fn sponsor_registry(&self) -> (r: &SponsorRegistry)
        ensures
            *r == self.sponsors(),
    {
        &self.sponsor_registry
    }
}

} // verus!
