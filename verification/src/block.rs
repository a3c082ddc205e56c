//! Block and transaction structures.
use vstd::prelude::*;

use crate::crypto::{keccak256, keccak256_digest};
use crate::types::{Address, Hash32};

verus! {

/// Little-endian encoding of `x` on `n` bytes (higher bytes dropped).
pub open spec fn le_bytes(x: nat, n: nat) -> Seq<u8>
    decreases n,
{
    if n == 0 {
        Seq::empty()
    } else {
        seq![(x % 256) as u8] + le_bytes(x / 256, (n - 1) as nat)
    }
}

/// Appends the little-endian encoding of `x` on `n` bytes.
pub fn push_le(out: &mut Vec<u8>, x: u128, n: usize)
    ensures
        final(out)@ == old(out)@ + le_bytes(x as nat, n as nat),
    decreases n,
{
    if n == 0 {
        proof {
            assert(old(out)@ + le_bytes(x as nat, 0) =~= old(out)@);
        }
        return ;
    }
    out.push((x % 256) as u8);
    push_le(out, x / 256, n - 1);
    proof {
        assert(old(out)@ + le_bytes(x as nat, n as nat) =~= old(out)@.push((x % 256) as u8)
            + le_bytes((x / 256) as nat, (n - 1) as nat));
    }
}

/// Appends all of `bytes`.
pub fn push_all(out: &mut Vec<u8>, bytes: &[u8])
    ensures
        final(out)@ == old(out)@ + bytes@,
{
    let mut i: usize = 0;
    while i < bytes.len()
        invariant
            i <= bytes@.len(),
            out@ == old(out)@ + bytes@.subrange(0, i as int),
        decreases bytes@.len() - i,
    {
        out.push(bytes[i]);
        i = i + 1;
        proof {
            assert(out@ =~= old(out)@ + bytes@.subrange(0, i as int));
        }
    }
    proof {
        assert(bytes@.subrange(0, bytes@.len() as int) =~= bytes@);
    }
}

/// ECDSA signature components (for Ethereum/Metamask compatibility).
#[derive(Debug, Clone, Copy)]
pub struct EcdsaSignature {
    pub r: [u8; 32],
    pub s: [u8; 32],
    /// Recovery id with EIP-155 chain id encoding, as sent.
    pub v: u64,
}

/// A transaction.
#[derive(Debug, Clone)]
pub struct Transaction {
    pub from: Address,
    pub to: Address,
    pub value: u128,
    pub fee: u128,
    pub nonce: u64,
    pub data: Vec<u8>,
    pub gas_limit: u64,
    pub hash: Hash32,
    /// EIP-1559: maximum fee per gas; None for a legacy transaction.
    pub max_fee_per_gas: Option<u128>,
    /// EIP-1559: maximum priority fee per gas; None for a legacy transaction.
    pub max_priority_fee_per_gas: Option<u128>,
    /// Ed25519 signature (64 bytes) or ECDSA signature bytes; empty when unsigned.
    pub signature: Vec<u8>,
    /// Public key for signature verification; empty when unsigned.
    pub public_key: Vec<u8>,
    /// ECDSA signature components, when the transaction is ECDSA-signed.
    pub ecdsa_signature: Option<EcdsaSignature>,
    /// EIP-155 chain id for replay protection.
    pub chain_id: Option<u64>,
    /// Time lock: earliest block number of execution.
    pub execute_at_block: Option<u64>,
    /// Time lock: earliest block timestamp of execution.
    pub execute_at_timestamp: Option<u64>,
    /// Address that pays this transaction's fee, if sponsored.
    pub sponsor: Option<Address>,
    /// Multi-signature approvals: (signer, signature, public key).
    pub multisig_signatures: Option<Vec<(Address, Vec<u8>, Vec<u8>)>>,
}

/// A copy of a byte vector.
pub fn copy_bytes(v: &Vec<u8>) -> (r: Vec<u8>)
    ensures
        r@ == v@,
{
    let mut out: Vec<u8> = Vec::new();
    let mut i: usize = 0;
    while i < v.len()
        invariant
            i <= v@.len(),
            out@ == v@.subrange(0, i as int),
        decreases v@.len() - i,
    {
        out.push(v[i]);
        i = i + 1;
        proof {
            assert(out@ =~= v@.subrange(0, i as int));
        }
    }
    proof {
        assert(out@ =~= v@);
    }
    out
}

/// A copy of a list of hashes.
pub fn copy_hashes(v: &Vec<Hash32>) -> (r: Vec<Hash32>)
    ensures
        r@ == v@,
{
    let mut out: Vec<Hash32> = Vec::new();
    let mut i: usize = 0;
    while i < v.len()
        invariant
            i <= v@.len(),
            out@ == v@.subrange(0, i as int),
        decreases v@.len() - i,
    {
        out.push(v[i]);
        i = i + 1;
        proof {
            assert(out@ =~= v@.subrange(0, i as int));
        }
    }
    proof {
        assert(out@ =~= v@);
    }
    out
}

/// The contents of multi-signature approvals, with byte vectors by their views.
pub open spec fn approvals_view(a: Option<Vec<(Address, Vec<u8>, Vec<u8>)>>) -> Option<
    Seq<(Address, Seq<u8>, Seq<u8>)>,
> {
    match a {
        Some(v) => Some(v@.map_values(|e: (Address, Vec<u8>, Vec<u8>)| (e.0, e.1@, e.2@))),
        None => None,
    }
}

fn copy_approvals(a: &Option<Vec<(Address, Vec<u8>, Vec<u8>)>>) -> (r: Option<
    Vec<(Address, Vec<u8>, Vec<u8>)>,
>)
    ensures
        approvals_view(r) == approvals_view(*a),
{
    match a {
        None => None,
        Some(v) => {
            let mut out: Vec<(Address, Vec<u8>, Vec<u8>)> = Vec::new();
            let mut i: usize = 0;
            while i < v.len()
                invariant
                    i <= v@.len(),
                    out@.len() == i,
                    forall|j: int|
                        0 <= j < i ==> (#[trigger] out@[j]).0 == v@[j].0 && out@[j].1@ == v@[j].1@
                            && out@[j].2@ == v@[j].2@,
                decreases v@.len() - i,
            {
                let e = &v[i];
                out.push((e.0, copy_bytes(&e.1), copy_bytes(&e.2)));
                i = i + 1;
            }
            proof {
                assert(out@.map_values(|e: (Address, Vec<u8>, Vec<u8>)| (e.0, e.1@, e.2@))
                    =~= v@.map_values(|e: (Address, Vec<u8>, Vec<u8>)| (e.0, e.1@, e.2@)));
            }
            Some(out)
        },
    }
}

/// Two transactions hold the same contents (byte vectors compared by view).
pub open spec fn same_tx(a: Transaction, b: Transaction) -> bool {
    &&& a.from == b.from
    &&& a.to == b.to
    &&& a.value == b.value
    &&& a.fee == b.fee
    &&& a.nonce == b.nonce
    &&& a.data@ == b.data@
    &&& a.gas_limit == b.gas_limit
    &&& a.hash == b.hash
    &&& a.max_fee_per_gas == b.max_fee_per_gas
    &&& a.max_priority_fee_per_gas == b.max_priority_fee_per_gas
    &&& a.signature@ == b.signature@
    &&& a.public_key@ == b.public_key@
    &&& a.ecdsa_signature == b.ecdsa_signature
    &&& a.chain_id == b.chain_id
    &&& a.execute_at_block == b.execute_at_block
    &&& a.execute_at_timestamp == b.execute_at_timestamp
    &&& a.sponsor == b.sponsor
    &&& approvals_view(a.multisig_signatures) == approvals_view(b.multisig_signatures)
}

pub open spec fn opt_le(x: Option<u128>, n: nat) -> Seq<u8> {
    match x {
        Some(v) => le_bytes(v as nat, n),
        None => Seq::empty(),
    }
}

pub open spec fn opt_le64(x: Option<u64>) -> Seq<u8> {
    match x {
        Some(v) => le_bytes(v as nat, 8),
        None => Seq::empty(),
    }
}

/// The bytes a transaction hash is computed over: every field that the
/// signature commits to, signatures excluded.
pub open spec fn spec_tx_preimage(tx: Transaction) -> Seq<u8> {
    tx.from.0@ + tx.to.0@ + le_bytes(tx.value as nat, 16) + le_bytes(tx.fee as nat, 16) + le_bytes(
        tx.nonce as nat,
        8,
    ) + tx.data@ + le_bytes(tx.gas_limit as nat, 8) + opt_le(tx.max_fee_per_gas, 16) + opt_le(
        tx.max_priority_fee_per_gas,
        16,
    ) + opt_le64(tx.chain_id) + opt_le64(tx.execute_at_block) + opt_le64(tx.execute_at_timestamp)
        + match tx.sponsor {
        Some(s) => s.0@,
        None => Seq::empty(),
    }
}

/// The hash of a transaction.
pub open spec fn spec_tx_hash(tx: Transaction) -> Seq<u8> {
    keccak256_digest(spec_tx_preimage(tx))
}

fn push_opt_u128(out: &mut Vec<u8>, x: Option<u128>)
    ensures
        final(out)@ == old(out)@ + opt_le(x, 16),
{
    match x {
        Some(v) => push_le(out, v, 16),
        None => {
            assert(old(out)@ + opt_le(x, 16) =~= old(out)@);
        },
    }
}

fn push_opt_u64(out: &mut Vec<u8>, x: Option<u64>)
    ensures
        final(out)@ == old(out)@ + opt_le64(x),
{
    match x {
        Some(v) => push_le(out, v as u128, 8),
        None => {
            assert(old(out)@ + opt_le64(x) =~= old(out)@);
        },
    }
}

impl Transaction {
    /// A legacy, unsigned transfer with gas limit 21000 and no data.
    pub fn new(from: Address, to: Address, value: u128, fee: u128, nonce: u64) -> (tx: Self)
        ensures
            tx.from == from,
            tx.to == to,
            tx.value == value,
            tx.fee == fee,
            tx.nonce == nonce,
            tx.data@ == Seq::<u8>::empty(),
            tx.gas_limit == 21_000,
            tx.chain_id is None,
            tx.sponsor is None,
            tx.hash.0@ == spec_tx_hash(tx),
    {
        Self::with_data(from, to, value, fee, nonce, Vec::new(), 21_000)
    }

    /// An unsigned transaction carrying call data.
    pub fn with_data(
        from: Address,
        to: Address,
        value: u128,
        fee: u128,
        nonce: u64,
        data: Vec<u8>,
        gas_limit: u64,
    ) -> (tx: Self)
        ensures
            tx.from == from,
            tx.to == to,
            tx.value == value,
            tx.fee == fee,
            tx.nonce == nonce,
            tx.data@ == data@,
            tx.gas_limit == gas_limit,
            tx.max_fee_per_gas is None,
            tx.max_priority_fee_per_gas is None,
            tx.signature@ == seq![0u8; 64],
            tx.public_key@ == Seq::<u8>::empty(),
            tx.ecdsa_signature is None,
            tx.chain_id is None,
            tx.execute_at_block is None,
            tx.execute_at_timestamp is None,
            tx.sponsor is None,
            tx.multisig_signatures is None,
            tx.hash.0@ == spec_tx_hash(tx),
    {
        let mut tx = Transaction {
            from,
            to,
            value,
            fee,
            nonce,
            data,
            gas_limit,
            hash: Hash32([0u8; 32]),
            max_fee_per_gas: None,
            max_priority_fee_per_gas: None,
            signature: vec![0u8; 64],
            public_key: Vec::new(),
            ecdsa_signature: None,
            chain_id: None,
            execute_at_block: None,
            execute_at_timestamp: None,
            sponsor: None,
            multisig_signatures: None,
        };
        tx.hash = tx.calculate_hash();
        tx
    }

    /// Recomputes the transaction hash from its fields (signatures excluded).
    /// A copy of this transaction.
    pub fn duplicate(&self) -> (r: Self)
        ensures
            same_tx(r, *self),
    {
        Transaction {
            from: self.from,
            to: self.to,
            value: self.value,
            fee: self.fee,
            nonce: self.nonce,
            data: copy_bytes(&self.data),
            gas_limit: self.gas_limit,
            hash: self.hash,
            max_fee_per_gas: self.max_fee_per_gas,
            max_priority_fee_per_gas: self.max_priority_fee_per_gas,
            signature: copy_bytes(&self.signature),
            public_key: copy_bytes(&self.public_key),
            ecdsa_signature: self.ecdsa_signature,
            chain_id: self.chain_id,
            execute_at_block: self.execute_at_block,
            execute_at_timestamp: self.execute_at_timestamp,
            sponsor: self.sponsor,
            multisig_signatures: copy_approvals(&self.multisig_signatures),
        }
    }

    pub fn calculate_hash(&self) -> (h: Hash32)
        ensures
            h.0@ == spec_tx_hash(*self),
    {
        let mut buf: Vec<u8> = Vec::new();
        push_all(&mut buf, &self.from.0);
        push_all(&mut buf, &self.to.0);
        push_le(&mut buf, self.value, 16);
        push_le(&mut buf, self.fee, 16);
        push_le(&mut buf, self.nonce as u128, 8);
        push_all(&mut buf, self.data.as_slice());
        push_le(&mut buf, self.gas_limit as u128, 8);
        push_opt_u128(&mut buf, self.max_fee_per_gas);
        push_opt_u128(&mut buf, self.max_priority_fee_per_gas);
        push_opt_u64(&mut buf, self.chain_id);
        push_opt_u64(&mut buf, self.execute_at_block);
        push_opt_u64(&mut buf, self.execute_at_timestamp);
        match self.sponsor {
            Some(s) => push_all(&mut buf, &s.0),
            None => {},
        }
        proof {
            assert(buf@ =~= spec_tx_preimage(*self));
        }
        Hash32(keccak256(buf.as_slice()))
    }

    /// Sets the chain id and recomputes the hash.
    pub fn with_chain_id(self, chain_id: u64) -> (tx: Self)
        ensures
            tx == (Transaction { chain_id: Some(chain_id), hash: tx.hash, ..self }),
            tx.hash.0@ == spec_tx_hash(tx),
    {
        let mut tx = self;
        tx.chain_id = Some(chain_id);
        tx.hash = tx.calculate_hash();
        tx
    }

    /// Time-locks the transaction to a block number and recomputes the hash.
    pub fn with_execute_at_block(self, block_number: u64) -> (tx: Self)
        ensures
            tx == (Transaction { execute_at_block: Some(block_number), hash: tx.hash, ..self }),
            tx.hash.0@ == spec_tx_hash(tx),
    {
        let mut tx = self;
        tx.execute_at_block = Some(block_number);
        tx.hash = tx.calculate_hash();
        tx
    }

    /// Time-locks the transaction to a timestamp and recomputes the hash.
    pub fn with_execute_at_timestamp(self, timestamp: u64) -> (tx: Self)
        ensures
            tx == (Transaction { execute_at_timestamp: Some(timestamp), hash: tx.hash, ..self }),
            tx.hash.0@ == spec_tx_hash(tx),
    {
        let mut tx = self;
        tx.execute_at_timestamp = Some(timestamp);
        tx.hash = tx.calculate_hash();
        tx
    }

    /// Makes the transaction sponsored by `sponsor` and recomputes the hash.
    pub fn with_sponsor(self, sponsor: Address) -> (tx: Self)
        ensures
            tx == (Transaction { sponsor: Some(sponsor), hash: tx.hash, ..self }),
            tx.hash.0@ == spec_tx_hash(tx),
    {
        let mut tx = self;
        tx.sponsor = Some(sponsor);
        tx.hash = tx.calculate_hash();
        tx
    }

    /// Whether the time locks allow execution at this block and time.
    pub fn is_ready_to_execute(&self, current_block: u64, current_timestamp: u64) -> (r: bool)
        ensures
            r == ((self.execute_at_block matches Some(b) ==> current_block >= b) && (
            self.execute_at_timestamp matches Some(t) ==> current_timestamp >= t)),
    {
        if let Some(block) = self.execute_at_block {
            if current_block < block {
                return false;
            }
        }
        if let Some(timestamp) = self.execute_at_timestamp {
            if current_timestamp < timestamp {
                return false;
            }
        }
        true
    }
}

/// Block header.
#[derive(Debug, Clone)]
pub struct BlockHeader {
    pub parent_hashes: Vec<Hash32>,
    pub block_number: u64,
    pub difficulty: u64,
    pub timestamp: u64,
    /// Proof-of-work nonce.
    pub nonce: u64,
    /// EIP-1559 base fee per gas of this block.
    pub base_fee_per_gas: u128,
}

pub open spec fn hashes_bytes(hs: Seq<Hash32>) -> Seq<u8>
    decreases hs.len(),
{
    if hs.len() == 0 {
        Seq::empty()
    } else {
        hashes_bytes(hs.drop_last()) + hs.last().0@
    }
}

/// The bytes the header hash is computed over.
pub open spec fn spec_header_preimage(h: BlockHeader) -> Seq<u8> {
    hashes_bytes(h.parent_hashes@) + le_bytes(h.block_number as nat, 8) + le_bytes(
        h.difficulty as nat,
        8,
    ) + le_bytes(h.timestamp as nat, 8) + le_bytes(h.nonce as nat, 8) + le_bytes(
        h.base_fee_per_gas as nat,
        16,
    )
}

fn push_hashes(out: &mut Vec<u8>, hs: &Vec<Hash32>)
    ensures
        final(out)@ == old(out)@ + hashes_bytes(hs@),
{
    let mut i: usize = 0;
    proof {
        assert(hs@.subrange(0, 0) =~= Seq::<Hash32>::empty());
        assert(out@ =~= old(out)@ + hashes_bytes(hs@.subrange(0, 0)));
    }
    while i < hs.len()
        invariant
            i <= hs@.len(),
            out@ == old(out)@ + hashes_bytes(hs@.subrange(0, i as int)),
        decreases hs@.len() - i,
    {
        push_all(out, &hs[i].0);
        proof {
            let t = hs@.subrange(0, i + 1);
            assert(t.drop_last() =~= hs@.subrange(0, i as int));
            assert(out@ =~= old(out)@ + hashes_bytes(t));
        }
        i = i + 1;
    }
    proof {
        assert(hs@.subrange(0, hs@.len() as int) =~= hs@);
    }
}

/// Two headers hold the same contents.
pub open spec fn same_header(a: BlockHeader, b: BlockHeader) -> bool {
    &&& a.parent_hashes@ == b.parent_hashes@
    &&& a.block_number == b.block_number
    &&& a.difficulty == b.difficulty
    &&& a.timestamp == b.timestamp
    &&& a.nonce == b.nonce
    &&& a.base_fee_per_gas == b.base_fee_per_gas
}

impl BlockHeader {
    /// A header with nonce 0, stamped with `timestamp` (the clock's seconds
    /// since the Unix epoch).
    pub fn new(
        parent_hashes: Vec<Hash32>,
        block_number: u64,
        difficulty: u64,
        base_fee_per_gas: u128,
        timestamp: u64,
    ) -> (h: Self)
        ensures
            h == (BlockHeader { parent_hashes, block_number, difficulty, timestamp, nonce: 0, base_fee_per_gas }),
    {
        BlockHeader { parent_hashes, block_number, difficulty, timestamp, nonce: 0, base_fee_per_gas }
    }

    /// A header with a proof-of-work nonce, stamped with `timestamp`.
    pub fn with_nonce(
        parent_hashes: Vec<Hash32>,
        block_number: u64,
        difficulty: u64,
        nonce: u64,
        base_fee_per_gas: u128,
        timestamp: u64,
    ) -> (h: Self)
        ensures
            h == (BlockHeader { parent_hashes, block_number, difficulty, timestamp, nonce, base_fee_per_gas }),
    {
        BlockHeader { parent_hashes, block_number, difficulty, timestamp, nonce, base_fee_per_gas }
    }

    /// A copy of this header.
    pub fn duplicate(&self) -> (r: Self)
        ensures
            same_header(r, *self),
    {
        BlockHeader {
            parent_hashes: copy_hashes(&self.parent_hashes),
            block_number: self.block_number,
            difficulty: self.difficulty,
            timestamp: self.timestamp,
            nonce: self.nonce,
            base_fee_per_gas: self.base_fee_per_gas,
        }
    }

    /// Header hash (for headers-first sync); transactions are not included.
    pub fn calculate_header_hash(&self) -> (h: Hash32)
        ensures
            h.0@ == keccak256_digest(spec_header_preimage(*self)),
    {
        let mut buf: Vec<u8> = Vec::new();
        push_hashes(&mut buf, &self.parent_hashes);
        push_le(&mut buf, self.block_number as u128, 8);
        push_le(&mut buf, self.difficulty as u128, 8);
        push_le(&mut buf, self.timestamp as u128, 8);
        push_le(&mut buf, self.nonce as u128, 8);
        push_le(&mut buf, self.base_fee_per_gas, 16);
        proof {
            assert(buf@ =~= spec_header_preimage(*self));
        }
        Hash32(keccak256(buf.as_slice()))
    }
}

/// A block.
#[derive(Debug, Clone)]
pub struct Block {
    pub header: BlockHeader,
    pub transactions: Vec<Transaction>,
    pub hash: Hash32,
}

pub open spec fn tx_hashes(txs: Seq<Transaction>) -> Seq<Hash32> {
    txs.map_values(|t: Transaction| t.hash)
}

/// The block hash: Keccak-256 over the header hash and every transaction hash.
pub open spec fn spec_block_hash(header: BlockHeader, txs: Seq<Transaction>) -> Seq<u8> {
    keccak256_digest(
        keccak256_digest(spec_header_preimage(header)) + hashes_bytes(tx_hashes(txs)),
    )
}

/// Two blocks hold the same contents.
pub open spec fn same_block(a: Block, b: Block) -> bool {
    &&& same_header(a.header, b.header)
    &&& a.hash == b.hash
    &&& a.transactions@.len() == b.transactions@.len()
    &&& forall|i: int|
        0 <= i < a.transactions@.len() ==> same_tx(
            #[trigger] a.transactions@[i],
            b.transactions@[i],
        )
}

impl Block {
    /// A copy of this block.
    pub fn duplicate(&self) -> (r: Self)
        ensures
            same_block(r, *self),
    {
        let mut txs: Vec<Transaction> = Vec::new();
        let mut i: usize = 0;
        while i < self.transactions.len()
            invariant
                i <= self.transactions@.len(),
                txs@.len() == i,
                forall|j: int| 0 <= j < i ==> same_tx(#[trigger] txs@[j], self.transactions@[j]),
            decreases self.transactions@.len() - i,
        {
            txs.push(self.transactions[i].duplicate());
            i = i + 1;
        }
        Block { header: self.header.duplicate(), transactions: txs, hash: self.hash }
    }

    pub fn new(header: BlockHeader, transactions: Vec<Transaction>) -> (b: Self)
        ensures
            b.header == header,
            b.transactions == transactions,
            b.hash.0@ == spec_block_hash(header, transactions@),
    {
        let hash = Self::compute_hash(&header, &transactions);
        Block { header, transactions, hash }
    }

    /// Recomputes the block hash.
    pub fn calculate_hash(&self) -> (h: Hash32)
        ensures
            h.0@ == spec_block_hash(self.header, self.transactions@),
    {
        Self::compute_hash(&self.header, &self.transactions)
    }

    fn compute_hash(header: &BlockHeader, transactions: &Vec<Transaction>) -> (h: Hash32)
        ensures
            h.0@ == spec_block_hash(*header, transactions@),
    {
        let mut buf: Vec<u8> = Vec::new();
        let hh = header.calculate_header_hash();
        push_all(&mut buf, &hh.0);
        let mut hs: Vec<Hash32> = Vec::new();
        let mut i: usize = 0;
        while i < transactions.len()
            invariant
                i <= transactions@.len(),
                hs@ == tx_hashes(transactions@.subrange(0, i as int)),
            decreases transactions@.len() - i,
        {
            hs.push(transactions[i].hash);
            i = i + 1;
            proof {
                assert(hs@ =~= tx_hashes(transactions@.subrange(0, i as int)));
            }
        }
        proof {
            assert(transactions@.subrange(0, transactions@.len() as int) =~= transactions@);
        }
        push_hashes(&mut buf, &hs);
        Hash32(keccak256(buf.as_slice()))
    }
}

} // verus!
