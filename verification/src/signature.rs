//! Transaction signatures: native Ed25519 over the transaction hash, ECDSA
//! over secp256k1 against an Ethereum signing hash (RLP-encoded fields,
//! with the chain id for EIP-155), and unsigned system transactions, which
//! are valid at genesis only.
use vstd::prelude::*;

use crate::block::{push_all, EcdsaSignature, Transaction};
use crate::crypto::{
    derive_eth_address, ed25519_public_key, ed25519_public_of, ed25519_sign, ed25519_signature_of,
    ed25519_verifies, ed25519_verify, keccak256, keccak256_digest, secp256k1_recover,
    secp256k1_recovered_point, spec_eth_address,
};
use crate::types::Address;
use crate::validation::{all_zero, zero_address};

verus! {

/// The big-endian bytes of `x` without leading zero bytes (none for zero).
pub open spec fn be_trimmed(x: nat) -> Seq<u8>
    decreases x,
{
    if x == 0 {
        Seq::empty()
    } else {
        be_trimmed(x / 256).push((x % 256) as u8)
    }
}

/// The RLP encoding of an unsigned integer.
pub open spec fn rlp_uint(x: nat) -> Seq<u8> {
    if x == 0 {
        seq![0x80u8]
    } else if x < 0x80 {
        seq![x as u8]
    } else {
        seq![(0x80 + be_trimmed(x).len()) as u8] + be_trimmed(x)
    }
}

/// The RLP encoding of a byte string.
pub open spec fn rlp_bytes(b: Seq<u8>) -> Seq<u8> {
    if b.len() == 1 && b[0] < 0x80 {
        b
    } else if b.len() < 56 {
        seq![(0x80 + b.len()) as u8] + b
    } else {
        seq![(0xb7 + be_trimmed(b.len()).len()) as u8] + be_trimmed(b.len()) + b
    }
}

/// Appends the RLP encoding of `x`, by `alloy_rlp::Encodable::encode` for `u64`.
///
/// Trusted: zero is `0x80`, a value below `0x80` is its own byte, and any
/// other is `0x80 + n` followed by its `n` big-endian bytes without leading
/// zeros.
#[verifier::external_body]
pub(crate) fn rlp_put_u64(out: &mut Vec<u8>, x: u64)
    ensures
        final(out)@ == old(out)@ + rlp_uint(x as nat),
{
    alloy_rlp::Encodable::encode(&x, out);
}

/// Appends the RLP encoding of `x`, by `alloy_rlp::Encodable::encode` for `u128`.
///
/// Trusted: as for `u64`.
#[verifier::external_body]
fn rlp_put_u128(out: &mut Vec<u8>, x: u128)
    ensures
        final(out)@ == old(out)@ + rlp_uint(x as nat),
{
    alloy_rlp::Encodable::encode(&x, out);
}

/// Appends the RLP encoding of `x`, by `alloy_rlp::Encodable::encode` for `u8`.
///
/// Trusted: as for `u64`.
#[verifier::external_body]
fn rlp_put_u8(out: &mut Vec<u8>, x: u8)
    ensures
        final(out)@ == old(out)@ + rlp_uint(x as nat),
{
    alloy_rlp::Encodable::encode(&x, out);
}

/// Appends the RLP encoding of a byte string, by
/// `alloy_rlp::Encodable::encode` for `[u8]`.
///
/// Trusted: a single byte below `0x80` is itself; a string of fewer than 56
/// bytes is `0x80 + len` then the bytes; a longer one is `0xb7 + n`, the
/// `n` big-endian bytes of its length, then the bytes.
#[verifier::external_body]
pub(crate) fn rlp_put_bytes(out: &mut Vec<u8>, b: &[u8])
    ensures
        final(out)@ == old(out)@ + rlp_bytes(b@),
{
    alloy_rlp::Encodable::encode(b, out);
}

/// The chain id carried by an ECDSA `v` (EIP-155: `v = 35 + 2 * chain + id`)
/// and the recovery id (`v - 27` for a legacy `v`, else `v` itself).
pub open spec fn split_v(v: u64) -> (Option<u64>, u8) {
    if v >= 35 {
        (Some(((v - 35) / 2) as u64), ((v - 35) % 2) as u8)
    } else if v >= 27 {
        (None, (v - 27) as u8)
    } else {
        (None, v as u8)
    }
}

/// The chain id an ECDSA signature is checked against: the transaction's
/// own, else the one its `v` carries.
pub open spec fn effective_chain_id(tx: Transaction, v: u64) -> Option<u64> {
    match tx.chain_id {
        Some(c) => Some(c),
        None => split_v(v).0,
    }
}

/// The RLP fields of an EIP-155 signing hash: nonce, gas price (fee over
/// gas limit), gas limit, receiver (empty for a contract creation), value,
/// data, chain id, 0, 0.
pub open spec fn eip155_preimage(tx: Transaction, chain_id: u64) -> Seq<u8> {
    rlp_uint(tx.nonce as nat) + rlp_uint((tx.fee / (tx.gas_limit as u128)) as nat) + rlp_uint(
        tx.gas_limit as nat,
    ) + (if zero_address(tx.to.0) {
        rlp_bytes(Seq::empty())
    } else {
        rlp_bytes(tx.to.0@)
    }) + rlp_uint(tx.value as nat) + rlp_bytes(tx.data@) + rlp_uint(chain_id as nat) + rlp_uint(0)
        + rlp_uint(0)
}

/// The RLP fields of a legacy signing hash: nonce, gas price (zero without
/// gas), gas limit, receiver, value, data.
pub open spec fn legacy_preimage(tx: Transaction) -> Seq<u8> {
    rlp_uint(tx.nonce as nat) + rlp_uint(
        (if tx.gas_limit > 0 {
            tx.fee / (tx.gas_limit as u128)
        } else {
            0
        }) as nat,
    ) + rlp_uint(tx.gas_limit as nat) + rlp_bytes(tx.to.0@) + rlp_uint(tx.value as nat) + rlp_bytes(
        tx.data@,
    )
}

/// The address of the key recovered from `sig` over `message`, if any.
pub open spec fn recovered_signer(message: Seq<u8>, sig: EcdsaSignature) -> Option<Seq<u8>> {
    let id = split_v(sig.v).1;
    if id > 3 {
        None
    } else {
        match secp256k1_recovered_point(message, sig.r@ + sig.s@, id) {
            Some(p) => if p.len() == 65 && p[0] == 4u8 {
                Some(spec_eth_address(p.subrange(1, 65)))
            } else {
                None
            },
            None => None,
        }
    }
}

/// An ECDSA signature computes a gas price (its recovery id is valid and a
/// chain id applies), which needs a gas limit.
pub open spec fn ecdsa_needs_gas(tx: Transaction, sig: EcdsaSignature) -> bool {
    split_v(sig.v).1 <= 3 && effective_chain_id(tx, sig.v) is Some
}

/// The signature of `tx` can be checked without dividing by a zero gas
/// limit.
pub open spec fn signature_checkable(tx: Transaction) -> bool {
    tx.ecdsa_signature matches Some(sig) ==> (ecdsa_needs_gas(tx, sig) ==> tx.gas_limit > 0)
}

/// Whether the ECDSA signature `sig` of `tx` recovers to its sender.
pub open spec fn ecdsa_valid(tx: Transaction, sig: EcdsaSignature) -> bool {
    let message = match effective_chain_id(tx, sig.v) {
        Some(cid) => keccak256_digest(eip155_preimage(tx, cid)),
        None => keccak256_digest(legacy_preimage(tx)),
    };
    recovered_signer(message, sig) == Some(tx.from.0@)
}

/// The signature is absent: empty or all zero bytes.
pub open spec fn unsigned(signature: Seq<u8>) -> bool {
    signature.len() == 0 || forall|i: int| 0 <= i < signature.len() ==> #[trigger] signature[i] == 0
}

/// The outcome of checking the signature of `tx` at `block_height`.
pub open spec fn signature_outcome(tx: Transaction, block_height: u64) -> Result<bool, Seq<char>> {
    match tx.ecdsa_signature {
        Some(sig) => Ok(ecdsa_valid(tx, sig)),
        None => if zero_address(tx.from.0) && unsigned(tx.signature@) && tx.public_key@.len() == 0 {
            if block_height == 0 {
                Ok(true)
            } else {
                Err("system transactions only valid at genesis"@)
            }
        } else if tx.signature@.len() != 64 || tx.public_key@.len() != 32 {
            Ok(false)
        } else {
            Ok(
                ed25519_verifies(tx.hash.0@, tx.signature@, tx.public_key@) && spec_eth_address(
                    tx.public_key@,
                ) == tx.from.0@,
            )
        },
    }
}

/// The first 32 bytes of `v` (which holds at least 32).
fn first32(v: &Vec<u8>) -> (r: [u8; 32])
    requires
        v@.len() >= 32,
    ensures
        r@ == v@.subrange(0, 32),
{
    let mut out = [0u8; 32];
    let mut i: usize = 0;
    while i < 32
        invariant
            i <= 32,
            v@.len() >= 32,
            out@.len() == 32,
            forall|j: int| 0 <= j < i ==> out@[j] == v@[j],
        decreases 32 - i,
    {
        out[i] = v[i];
        i = i + 1;
    }
    proof {
        assert(out@ =~= v@.subrange(0, 32));
    }
    out
}

/// The first 64 bytes of `v` (which holds at least 64).
fn first64(v: &Vec<u8>) -> (r: [u8; 64])
    requires
        v@.len() >= 64,
    ensures
        r@ == v@.subrange(0, 64),
{
    let mut out = [0u8; 64];
    let mut i: usize = 0;
    while i < 64
        invariant
            i <= 64,
            v@.len() >= 64,
            out@.len() == 64,
            forall|j: int| 0 <= j < i ==> out@[j] == v@[j],
        decreases 64 - i,
    {
        out[i] = v[i];
        i = i + 1;
    }
    proof {
        assert(out@ =~= v@.subrange(0, 64));
    }
    out
}

/// Whether every byte of `v` is zero.
fn all_zero_bytes(v: &Vec<u8>) -> (r: bool)
    ensures
        r == forall|i: int| 0 <= i < v@.len() ==> #[trigger] v@[i] == 0,
{
    let mut i: usize = 0;
    while i < v.len()
        invariant
            i <= v@.len(),
            forall|j: int| 0 <= j < i ==> v@[j] == 0,
        decreases v@.len() - i,
    {
        if v[i] != 0 {
            return false;
        }
        i = i + 1;
    }
    true
}

/// The recovery id and carried chain id of `v`.
fn split_v_exec(v: u64) -> (r: (Option<u64>, u8))
    ensures
        r == split_v(v),
{
    if v >= 35 {
        (Some((v - 35) / 2), ((v - 35) % 2) as u8)
    } else if v >= 27 {
        (None, (v - 27) as u8)
    } else {
        (None, v as u8)
    }
}

/// `r || s`.
fn rs_bytes(sig: &EcdsaSignature) -> (r: [u8; 64])
    ensures
        r@ == sig.r@ + sig.s@,
{
    let mut out = [0u8; 64];
    let mut i: usize = 0;
    while i < 32
        invariant
            i <= 32,
            out@.len() == 64,
            forall|j: int| 0 <= j < i ==> out@[j] == sig.r@[j] && out@[j + 32] == sig.s@[j],
        decreases 32 - i,
    {
        out[i] = sig.r[i];
        out[i + 32] = sig.s[i];
        i = i + 1;
    }
    proof {
        assert(out@ =~= sig.r@ + sig.s@);
    }
    out
}

/// The address of the key recovered from `sig` over `message`, if any.
fn recover_signer(message: &[u8; 32], sig: &EcdsaSignature) -> (r: Option<Address>)
    ensures
        match recovered_signer(message@, *sig) {
            Some(a) => r matches Some(x) && x.0@ == a,
            None => r is None,
        },
{
    let (_, id) = split_v_exec(sig.v);
    if id > 3 {
        return None;
    }
    let rs = rs_bytes(sig);
    let point = match secp256k1_recover(message, &rs, id) {
        Some(p) => p,
        None => {
            return None;
        },
    };
    if point.len() == 65 && point[0] == 4 {
        let mut pub_key: Vec<u8> = Vec::new();
        let mut j: usize = 1;
        while j < 65
            invariant
                1 <= j <= 65,
                point@.len() == 65,
                pub_key@ == point@.subrange(1, j as int),
            decreases 65 - j,
        {
            pub_key.push(point[j]);
            j = j + 1;
            proof {
                assert(pub_key@ =~= point@.subrange(1, j as int));
            }
        }
        Some(derive_eth_address(pub_key.as_slice()))
    } else {
        None
    }
}

impl Transaction {
    /// The EIP-155 signing fields of this transaction for `chain_id`.
    fn eip155_fields(&self, chain_id: u64) -> (r: Vec<u8>)
        requires
            self.gas_limit > 0,
        ensures
            r@ == eip155_preimage(*self, chain_id),
    {
        let mut buf: Vec<u8> = Vec::new();
        rlp_put_u64(&mut buf, self.nonce);
        rlp_put_u128(&mut buf, self.fee / (self.gas_limit as u128));
        rlp_put_u64(&mut buf, self.gas_limit);
        if all_zero(&self.to.0) {
            let empty: Vec<u8> = Vec::new();
            rlp_put_bytes(&mut buf, empty.as_slice());
        } else {
            rlp_put_bytes(&mut buf, &self.to.0);
        }
        rlp_put_u128(&mut buf, self.value);
        rlp_put_bytes(&mut buf, self.data.as_slice());
        rlp_put_u64(&mut buf, chain_id);
        rlp_put_u8(&mut buf, 0);
        rlp_put_u8(&mut buf, 0);
        proof {
            assert(buf@ =~= eip155_preimage(*self, chain_id));
        }
        buf
    }

    /// The legacy signing fields of this transaction.
    fn legacy_fields(&self) -> (r: Vec<u8>)
        ensures
            r@ == legacy_preimage(*self),
    {
        let mut buf: Vec<u8> = Vec::new();
        rlp_put_u64(&mut buf, self.nonce);
        let gas_price: u128 = if self.gas_limit > 0 {
            self.fee / (self.gas_limit as u128)
        } else {
            0
        };
        rlp_put_u128(&mut buf, gas_price);
        rlp_put_u64(&mut buf, self.gas_limit);
        rlp_put_bytes(&mut buf, &self.to.0);
        rlp_put_u128(&mut buf, self.value);
        rlp_put_bytes(&mut buf, self.data.as_slice());
        proof {
            assert(buf@ =~= legacy_preimage(*self));
        }
        buf
    }

    /// Whether the ECDSA signature `sig` recovers to the sender, against
    /// the EIP-155 signing hash when a chain id applies, else the legacy one.
    pub fn verify_ecdsa_signature(&self, sig: &EcdsaSignature) -> (r: bool)
        requires
            ecdsa_needs_gas(*self, *sig) ==> self.gas_limit > 0,
        ensures
            r == ecdsa_valid(*self, *sig),
    {
        let (carried, id) = split_v_exec(sig.v);
        if id > 3 {
            return false;
        }
        let effective = match self.chain_id {
            Some(c) => Some(c),
            None => carried,
        };
        let fields = match effective {
            Some(cid) => self.eip155_fields(cid),
            None => self.legacy_fields(),
        };
        let message = keccak256(fields.as_slice());
        match recover_signer(&message, sig) {
            Some(a) => {
                let r = a == self.from;
                proof {
                    if a.0@ == self.from.0@ {
                        vstd::array::axiom_array_ext_equal(a.0, self.from.0);
                        assert(a.0 =~= self.from.0);
                    }
                }
                r
            },
            None => false,
        }
    }

    /// The address the ECDSA signature `sig` recovers to: over the EIP-155
    /// signing hash when a chain id applies, else over the transaction hash.
    pub fn recover_ecdsa_address(&self, sig: &EcdsaSignature) -> (r: Option<Address>)
        requires
            ecdsa_needs_gas(*self, *sig) ==> self.gas_limit > 0,
        ensures
            match recovered_signer(
                match effective_chain_id(*self, sig.v) {
                    Some(cid) => keccak256_digest(eip155_preimage(*self, cid)),
                    None => self.hash.0@,
                },
                *sig,
            ) {
                Some(a) => r matches Some(x) && x.0@ == a,
                None => r is None,
            },
    {
        let (carried, id) = split_v_exec(sig.v);
        if id > 3 {
            return None;
        }
        let effective = match self.chain_id {
            Some(c) => Some(c),
            None => carried,
        };
        let message = match effective {
            Some(cid) => {
                let fields = self.eip155_fields(cid);
                keccak256(fields.as_slice())
            },
            None => self.hash.0,
        };
        recover_signer(&message, sig)
    }

    /// Checks the transaction's signature at `block_height`: an ECDSA
    /// signature must recover to the sender; otherwise an unsigned
    /// transaction from the zero address is valid at genesis only (an
    /// error elsewhere), and an Ed25519 signature (64 bytes, 32-byte key)
    /// must verify over the transaction hash under a key whose address is
    /// the sender.
    pub fn verify_signature(&self, block_height: u64) -> (r: Result<bool, String>)
        requires
            signature_checkable(*self),
        ensures
            match signature_outcome(*self, block_height) {
                Ok(b) => r == Ok::<bool, String>(b),
                Err(m) => r matches Err(s) && s@ == m,
            },
    {
        match &self.ecdsa_signature {
            Some(sig) => {
                return Ok(self.verify_ecdsa_signature(sig));
            },
            None => {},
        }
        let is_zero_address = all_zero(&self.from.0);
        let has_signature = !(self.signature.len() == 0 || all_zero_bytes(&self.signature));
        if is_zero_address && !has_signature && self.public_key.len() == 0 {
            if block_height == 0 {
                return Ok(true);
            } else {
                return Err(String::from_str("system transactions only valid at genesis"));
            }
        }
        if self.signature.len() != 64 {
            return Ok(false);
        }
        if self.public_key.len() != 32 {
            return Ok(false);
        }
        let pub_key_bytes = first32(&self.public_key);
        let sig_bytes = first64(&self.signature);
        proof {
            assert(pub_key_bytes@ =~= self.public_key@);
            assert(sig_bytes@ =~= self.signature@);
        }
        if ed25519_verify(&self.hash.0, &sig_bytes, &pub_key_bytes) {
            let derived = derive_eth_address(&pub_key_bytes);
            let r = derived == self.from;
            proof {
                if derived.0@ == self.from.0@ {
                    vstd::array::axiom_array_ext_equal(derived.0, self.from.0);
                    assert(derived.0 =~= self.from.0);
                }
            }
            Ok(r)
        } else {
            Ok(false)
        }
    }

    /// Whether the signature can be checked: an ECDSA signature that
    /// computes a gas price needs a nonzero gas limit.
    pub fn can_check_signature(&self) -> (r: bool)
        ensures
            r == signature_checkable(*self),
    {
        match &self.ecdsa_signature {
            Some(sig) => {
                let (carried, id) = split_v_exec(sig.v);
                let has_chain = self.chain_id.is_some() || carried.is_some();
                !(id <= 3 && has_chain) || self.gas_limit > 0
            },
            None => true,
        }
    }

    /// The Ethereum-style address of an Ed25519 public key.
    pub fn derive_address_from_public_key(public_key: &[u8; 32]) -> (a: Address)
        ensures
            a.0@ == spec_eth_address(public_key@),
    {
        derive_eth_address(public_key)
    }

    /// Signs the transaction with a 32-byte Ed25519 secret key: the public
    /// key and the signature of the transaction hash are stored; the hash is
    /// not recomputed.
    pub fn sign(self, secret_key: &[u8; 32]) -> (tx: Self)
        ensures
            tx.public_key@ == ed25519_public_of(secret_key@),
            tx.signature@ == ed25519_signature_of(secret_key@, self.hash.0@),
            tx == (Transaction { public_key: tx.public_key, signature: tx.signature, ..self }),
    {
        let mut tx = self;
        let public = ed25519_public_key(secret_key);
        let signature = ed25519_sign(secret_key, &tx.hash.0);
        let mut pk: Vec<u8> = Vec::new();
        push_all(&mut pk, &public);
        let mut sg: Vec<u8> = Vec::new();
        push_all(&mut sg, &signature);
        proof {
            assert(pk@ =~= public@);
            assert(sg@ =~= signature@);
        }
        tx.public_key = pk;
        tx.signature = sg;
        tx
    }
}

} // verus!
