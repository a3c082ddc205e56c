//! EVM account state and execution records.
use vstd::prelude::*;

use crate::block::{copy_bytes, push_all};
use crate::crypto::{derive_eth_address, spec_eth_address};
use crate::signature::{be_trimmed, rlp_bytes, rlp_put_bytes, rlp_put_u64, rlp_uint};
use crate::collections::KeyMap;
use crate::types::Address;

verus! {

/// EVM account state: contract code, balances and nonces by address.
pub struct EvmState {
    contracts: KeyMap<Address, Vec<u8>>,
    balances: KeyMap<Address, u128>,
    nonces: KeyMap<Address, u64>,
}

impl EvmState {
    /// The three tables are well formed.
    pub closed spec fn wf(&self) -> bool {
        &&& self.contracts.wf()
        &&& self.balances.wf()
        &&& self.nonces.wf()
    }

    /// Contract code by address.
    pub closed spec fn code(&self) -> Map<Address, Seq<u8>> {
        Map::new(|a: Address| self.contracts@.contains_key(a), |a: Address| self.contracts@[a]@)
    }

    /// Recorded balances.
    pub closed spec fn balances(&self) -> Map<Address, u128> {
        self.balances@
    }

    /// Recorded nonces.
    pub closed spec fn nonces(&self) -> Map<Address, u64> {
        self.nonces@
    }

    /// An empty state.
    pub fn new() -> (s: Self)
        ensures
            s.wf(),
            s.code() == Map::<Address, Seq<u8>>::empty(),
            s.balances() == Map::<Address, u128>::empty(),
            s.nonces() == Map::<Address, u64>::empty(),
    {
        let s = EvmState { contracts: KeyMap::new(), balances: KeyMap::new(), nonces: KeyMap::new() };
        proof {
            assert(s.code() =~= Map::<Address, Seq<u8>>::empty());
        }
        s
    }

    /// The balance of `address` (0 when none is recorded).
    pub fn get_balance(&self, address: Address) -> (r: u128)
        requires
            self.wf(),
        ensures
            r == (if self.balances().contains_key(address) {
                self.balances()[address]
            } else {
                0
            }),
    {
        match self.balances.get_copy(&address) {
            Some(b) => b,
            None => 0,
        }
    }

    /// Sets the balance of `address`.
    pub fn set_balance(&mut self, address: Address, balance: u128)
        requires
            old(self).wf(),
        ensures
            final(self).wf(),
            final(self).balances() == old(self).balances().insert(address, balance),
            final(self).nonces() == old(self).nonces(),
            final(self).code() == old(self).code(),
    {
        self.balances.insert(address, balance);
    }

    /// The nonce of `address` (0 when none is recorded).
    pub fn get_nonce(&self, address: Address) -> (r: u64)
        requires
            self.wf(),
        ensures
            r == (if self.nonces().contains_key(address) {
                self.nonces()[address]
            } else {
                0
            }),
    {
        match self.nonces.get_copy(&address) {
            Some(n) => n,
            None => 0,
        }
    }

    /// Sets the nonce of `address`.
    pub fn set_nonce(&mut self, address: Address, nonce: u64)
        requires
            old(self).wf(),
        ensures
            final(self).wf(),
            final(self).nonces() == old(self).nonces().insert(address, nonce),
            final(self).balances() == old(self).balances(),
            final(self).code() == old(self).code(),
    {
        self.nonces.insert(address, nonce);
    }

    /// Stores contract bytecode at `address`, replacing any previous code.
    pub fn store_contract(&mut self, address: Address, code: Vec<u8>)
        requires
            old(self).wf(),
        ensures
            final(self).wf(),
            final(self).code() == old(self).code().insert(address, code@),
            final(self).balances() == old(self).balances(),
            final(self).nonces() == old(self).nonces(),
    {
        let ghost c = code@;
        self.contracts.insert(address, code);
        proof {
            assert(self.code() =~= old(self).code().insert(address, c));
        }
    }

    /// A copy of the contract bytecode at `address`, if any.
    pub fn get_contract_code(&self, address: Address) -> (r: Option<Vec<u8>>)
        requires
            self.wf(),
        ensures
            r is Some <==> self.code().contains_key(address),
            r matches Some(c) ==> c@ == self.code()[address],
    {
        match self.contracts.get(&address) {
            Some(c) => Some(copy_bytes(c)),
            None => None,
        }
    }

    /// Whether `address` holds contract code.
    pub fn is_contract(&self, address: Address) -> (r: bool)
        ensures
            r == self.code().contains_key(address),
    {
        self.contracts.contains_key(&address)
    }
}

/// Block environment for EVM execution.
#[derive(Clone, Debug)]
pub struct SputnikVicinity {
    pub block_number: u64,
    pub block_timestamp: u64,
    pub block_gas_limit: u64,
    pub block_coinbase: Address,
    pub chain_id: u64,
    pub origin: Address,
    pub gas_price: u128,
}

/// An event log emitted by a contract.
#[derive(Debug, Clone)]
pub struct EvmLog {
    /// Address of the contract that emitted the log.
    pub address: Address,
    /// Indexed topics (up to 4, 32 bytes each); topic 0 is usually the event signature hash.
    pub topics: Vec<[u8; 32]>,
    /// Non-indexed log data (ABI-encoded).
    pub data: Vec<u8>,
}

/// Result of an EVM execution.
#[derive(Debug, Clone)]
pub struct ExecutionResult {
    /// Whether execution succeeded.
    pub success: bool,
    /// Gas used during execution.
    pub gas_used: u64,
    /// Output data (return value or contract address).
    pub output: Vec<u8>,
    /// Event logs emitted during execution.
    pub logs: Vec<EvmLog>,
}


/// `256` to the power `k`.
pub open spec fn pow256(k: nat) -> nat
    decreases k,
{
    if k == 0 {
        1
    } else {
        256 * pow256((k - 1) as nat)
    }
}

/// A number below `256^k` has at most `k` significant bytes.
pub proof fn lemma_be_trimmed_len(x: nat, k: nat)
    requires
        x < pow256(k),
    ensures
        be_trimmed(x).len() <= k,
    decreases k,
{
    if x > 0 {
        let p = pow256((k - 1) as nat);
        assert(x / 256 < p) by (nonlinear_arith)
            requires
                x < 256 * p,
        ;
        lemma_be_trimmed_len(x / 256, (k - 1) as nat);
    }
}

/// The RLP list `[sender, nonce]` that the address of a contract created
/// by `sender` at `nonce` is derived from (Ethereum CREATE).
pub open spec fn create_preimage(sender: Address, nonce: u64) -> Seq<u8> {
    let payload = rlp_bytes(sender.0@) + rlp_uint(nonce as nat);
    seq![(0xc0 + payload.len()) as u8] + payload
}

/// The address of a contract created by `sender` at `nonce` (Ethereum
/// CREATE): the last 20 bytes of the Keccak-256 hash of the RLP list
/// `[sender, nonce]`.
pub fn generate_contract_address(sender: Address, nonce: u64) -> (a: Address)
    ensures
        a.0@ == spec_eth_address(create_preimage(sender, nonce)),
{
    let mut payload: Vec<u8> = Vec::new();
    rlp_put_bytes(&mut payload, &sender.0);
    rlp_put_u64(&mut payload, nonce);
    proof {
        reveal_with_fuel(pow256, 9);
        assert(pow256(8) == 0x1_0000_0000_0000_0000);
        lemma_be_trimmed_len(nonce as nat, 8);
        assert(payload@.len() <= 30);
    }
    let mut buf: Vec<u8> = Vec::new();
    buf.push((0xc0 + payload.len()) as u8);
    push_all(&mut buf, payload.as_slice());
    proof {
        assert(buf@ =~= create_preimage(sender, nonce));
    }
    derive_eth_address(buf.as_slice())
}

} // verus!
