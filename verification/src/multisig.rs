//! Multi-signature validation for smart contract wallets.
use vstd::prelude::*;

use crate::block::Transaction;
use crate::collections::{first_where, lemma_first_where_found, lemma_first_where_skip, KeyMap};
use crate::crypto::{ed25519_strictly_verifies, ed25519_verify_strict};
use crate::text::{hex, spec_hex};
use crate::types::{bytes_equal, Address, Hash32};

verus! {

/// Multi-signature transaction signature.
#[derive(Debug, Clone)]
pub struct MultiSigSignature {
    /// Signer address
    pub signer: [u8; 20],
    /// Signature bytes
    pub signature: Vec<u8>,
    /// Public key (for verification)
    pub public_key: Vec<u8>,
}

/// Multi-signature transaction payload.
#[derive(Debug, Clone)]
pub struct MultiSigTransaction {
    /// Wallet address (contract wallet)
    pub wallet_address: Address,
    /// Transaction data (to, value, data, etc.)
    pub transaction: Transaction,
    /// Collected signatures
    pub signatures: Vec<MultiSigSignature>,
    /// Required threshold
    pub threshold: u8,
    /// Expected signers
    pub expected_signers: Vec<[u8; 20]>,
}

/// Multi-signature validation result.
#[derive(Debug, Clone, PartialEq, Eq)]
pub enum MultiSigValidationResult {
    /// Valid - has enough signatures
    Valid,
    /// Invalid - insufficient signatures
    InsufficientSignatures { required: u8, provided: u8 },
    /// Invalid - duplicate signer
    DuplicateSigner([u8; 20]),
    /// Invalid - unknown signer
    UnknownSigner([u8; 20]),
    /// Invalid - signature verification failed
    InvalidSignature([u8; 20]),
}

/// Whether the signature at `i` repeats the signer of an earlier one.
pub open spec fn dup_at(sigs: Seq<MultiSigSignature>) -> spec_fn(int) -> bool {
    |i: int| exists|j: int| 0 <= j < i && sigs[j].signer == sigs[i].signer
}

/// Whether the signature at `i` comes from a signer outside `expected`.
pub open spec fn unknown_at(sigs: Seq<MultiSigSignature>, expected: Seq<[u8; 20]>) -> spec_fn(
    int,
) -> bool {
    |i: int| !expected.contains(sigs[i].signer)
}

/// Whether Ed25519 verification accepts `signature` by `public_key` over `message`:
/// the key must be 32 bytes, the signature 64 bytes, and the check must pass.
pub open spec fn spec_ed25519_ok(message: Seq<u8>, signature: Seq<u8>, public_key: Seq<u8>) -> bool {
    &&& public_key.len() == 32
    &&& signature.len() == 64
    &&& ed25519_strictly_verifies(message, signature, public_key)
}

/// Whether the signature at `i` fails: empty, or rejected over the hash.
pub open spec fn bad_sig_at(sigs: Seq<MultiSigSignature>, hash: Hash32) -> spec_fn(int) -> bool {
    |i: int|
        sigs[i].signature@.len() == 0 || !spec_ed25519_ok(
            hash.0@,
            sigs[i].signature@,
            sigs[i].public_key@,
        )
}

/// The outcome of validating a multi-signature transaction.
pub open spec fn spec_validation(tx: MultiSigTransaction) -> MultiSigValidationResult {
    let sigs = tx.signatures@;
    let n = sigs.len() as int;
    if sigs.len() < tx.threshold {
        MultiSigValidationResult::InsufficientSignatures {
            required: tx.threshold,
            provided: sigs.len() as u8,
        }
    } else {
        match first_where(dup_at(sigs), 0, n) {
            Some(i) => MultiSigValidationResult::DuplicateSigner(sigs[i].signer),
            None => match first_where(unknown_at(sigs, tx.expected_signers@), 0, n) {
                Some(i) => MultiSigValidationResult::UnknownSigner(sigs[i].signer),
                None => match first_where(bad_sig_at(sigs, tx.transaction.hash), 0, n) {
                    Some(i) => MultiSigValidationResult::InvalidSignature(sigs[i].signer),
                    None => MultiSigValidationResult::Valid,
                },
            },
        }
    }
}

/// Every collected signature comes from a distinct expected signer.
pub open spec fn signers_consistent(tx: MultiSigTransaction) -> bool {
    let sigs = tx.signatures@;
    &&& forall|i: int, j: int|
        0 <= i < j < sigs.len() ==> sigs[i].signer != sigs[j].signer
    &&& forall|i: int| 0 <= i < sigs.len() ==> tx.expected_signers@.contains(#[trigger] sigs[i].signer)
}

/// The signers that have signed, in signature order.
pub open spec fn spec_signed_by(tx: MultiSigTransaction) -> Seq<[u8; 20]> {
    tx.signatures@.map_values(|s: MultiSigSignature| s.signer)
}

/// The expected signers without a signature yet, in expected order.
pub open spec fn spec_pending_signers(tx: MultiSigTransaction) -> Seq<[u8; 20]> {
    tx.expected_signers@.filter(|s: [u8; 20]| !spec_signed_by(tx).contains(s))
}

/// Whether `list` holds `x`.
fn contains20(list: &Vec<[u8; 20]>, x: &[u8; 20]) -> (r: bool)
    ensures
        r == list@.contains(*x),
{
    let mut i: usize = 0;
    while i < list.len()
        invariant
            i <= list@.len(),
            forall|j: int| 0 <= j < i ==> list@[j] != *x,
        decreases list@.len() - i,
    {
        if bytes_equal(&list[i], x) {
            return true;
        }
        i = i + 1;
    }
    false
}

/// Copies a byte slice of known length into an array.
fn to_array32(v: &Vec<u8>) -> (a: [u8; 32])
    requires
        v@.len() == 32,
    ensures
        a@ == v@,
{
    let mut a = [0u8; 32];
    let mut i: usize = 0;
    while i < 32
        invariant
            i <= 32,
            v@.len() == 32,
            a@.len() == 32,
            forall|j: int| 0 <= j < i ==> a@[j] == v@[j],
        decreases 32 - i,
    {
        a[i] = v[i];
        i = i + 1;
    }
    assert(a@ =~= v@);
    a
}

fn to_array64(v: &Vec<u8>) -> (a: [u8; 64])
    requires
        v@.len() == 64,
    ensures
        a@ == v@,
{
    let mut a = [0u8; 64];
    let mut i: usize = 0;
    while i < 64
        invariant
            i <= 64,
            v@.len() == 64,
            a@.len() == 64,
            forall|j: int| 0 <= j < i ==> a@[j] == v@[j],
        decreases 64 - i,
    {
        a[i] = v[i];
        i = i + 1;
    }
    assert(a@ =~= v@);
    a
}

/// Verify an Ed25519 signature over a hash.
fn verify_ed25519_signature(message: &Hash32, signature: &Vec<u8>, public_key: &Vec<u8>) -> (r:
    bool)
    ensures
        r == spec_ed25519_ok(message.0@, signature@, public_key@),
{
    // Convert public key
    if public_key.len() != 32 {
        return false;
    }
    let pk_bytes = to_array32(public_key);
    // Convert signature
    if signature.len() != 64 {
        return false;
    }
    let sig_bytes = to_array64(signature);
    ed25519_verify_strict(&message.0, &sig_bytes, &pk_bytes)
}

impl MultiSigTransaction {
    /// Create a new multi-signature transaction.
    pub fn new(
        wallet_address: Address,
        transaction: Transaction,
        expected_signers: Vec<[u8; 20]>,
        threshold: u8,
    ) -> (r: Result<Self, String>)
        ensures
            threshold == 0 ==> (r matches Err(e) && e@ == "Threshold cannot be zero"@),
            threshold != 0 && threshold > (expected_signers@.len() as u8) ==> (r matches Err(e)
                && e@ == "Threshold cannot exceed number of signers"@),
            r is Ok <==> (threshold != 0 && threshold <= (expected_signers@.len() as u8)),
            r matches Ok(t) ==> t.wallet_address == wallet_address && t.transaction == transaction
                && t.signatures@ == Seq::<MultiSigSignature>::empty() && t.threshold == threshold
                && t.expected_signers == expected_signers,
            r matches Ok(t) ==> signers_consistent(t),
    {
        if threshold == 0 {
            return Err(String::from_str("Threshold cannot be zero"));
        }
        if threshold > expected_signers.len() as u8 {
            return Err(String::from_str("Threshold cannot exceed number of signers"));
        }
        if expected_signers.len() == 0 {
            return Err(String::from_str("Expected signers list cannot be empty"));
        }
        Ok(Self { wallet_address, transaction, signatures: Vec::new(), threshold, expected_signers })
    }

    /// Add a signature to the transaction.
    pub fn add_signature(&mut self, signer: [u8; 20], signature: Vec<u8>, public_key: Vec<u8>) -> (r:
        Result<(), String>)
        ensures
            !old(self).expected_signers@.contains(signer) ==> (r matches Err(e) && e@ == "Signer "@
                + spec_hex(signer@) + " is not in expected signers list"@),
            old(self).expected_signers@.contains(signer) && spec_signed_by(*old(self)).contains(
                signer,
            ) ==> (r matches Err(e) && e@ == "Duplicate signature from signer "@ + spec_hex(
                signer@,
            )),
            r is Ok <==> (old(self).expected_signers@.contains(signer) && !spec_signed_by(
                *old(self),
            ).contains(signer)),
            r is Ok ==> final(self).signatures@ == old(self).signatures@.push(
                MultiSigSignature { signer, signature, public_key },
            ),
            r is Err ==> final(self).signatures@ == old(self).signatures@,
            final(self).wallet_address == old(self).wallet_address,
            final(self).transaction == old(self).transaction,
            final(self).threshold == old(self).threshold,
            final(self).expected_signers == old(self).expected_signers,
            signers_consistent(*old(self)) ==> signers_consistent(*final(self)),
    {
        // Check if signer is in expected list
        if !contains20(&self.expected_signers, &signer) {
            let mut msg = String::from_str("Signer ");
            msg.append(&hex(signer.as_slice()));
            msg.append(" is not in expected signers list");
            return Err(msg);
        }
        // Check for duplicate signatures from same signer
        let mut i: usize = 0;
        while i < self.signatures.len()
            invariant
                i <= self.signatures@.len(),
                *self == *old(self),
                self.expected_signers@.contains(signer),
                forall|j: int| 0 <= j < i ==> self.signatures@[j].signer != signer,
            decreases self.signatures@.len() - i,
        {
            if bytes_equal(&self.signatures[i].signer, &signer) {
                proof {
                    assert(spec_signed_by(*self)[i as int] == signer);
                }
                let mut msg = String::from_str("Duplicate signature from signer ");
                msg.append(&hex(signer.as_slice()));
                return Err(msg);
            }
            i = i + 1;
        }
        proof {
            assert forall|j: int| 0 <= j < spec_signed_by(*self).len() implies spec_signed_by(
                *self,
            )[j] != signer by {
                assert(spec_signed_by(*self)[j] == self.signatures@[j].signer);
            }
        }
        // Add signature
        self.signatures.push(MultiSigSignature { signer, signature, public_key });
        Ok(())
    }

    /// Validate the multi-signature transaction.
    pub fn validate(&self) -> (r: MultiSigValidationResult)
        ensures
            r == spec_validation(*self),
    {
        let sigs = &self.signatures;
        let ghost s = sigs@;
        let ghost n = s.len() as int;
        // Check if we have enough signatures
        if sigs.len() < self.threshold as usize {
            return MultiSigValidationResult::InsufficientSignatures {
                required: self.threshold,
                provided: sigs.len() as u8,
            };
        }
        // Check for duplicate signers
        let mut i: usize = 0;
        while i < sigs.len()
            invariant
                i <= n,
                s == sigs@,
                n == s.len(),
                s.len() >= self.threshold,
                s == self.signatures@,
                forall|k: int| 0 <= k < i ==> !#[trigger] dup_at(s)(k),
            decreases n - i,
        {
            let mut j: usize = 0;
            while j < i
                invariant
                    j <= i < n,
                    s == sigs@,
                    n == s.len(),
                    s.len() >= self.threshold,
                    s == self.signatures@,
                    forall|k: int| 0 <= k < i ==> !#[trigger] dup_at(s)(k),
                    forall|k: int| 0 <= k < j ==> s[k].signer != s[i as int].signer,
                decreases i - j,
            {
                if bytes_equal(&sigs[j].signer, &sigs[i].signer) {
                    proof {
                        assert(s[j as int].signer == s[i as int].signer);
                        assert(dup_at(s)(i as int));
                        lemma_first_where_skip(dup_at(s), 0, i as int, n);
                        assert(first_where(dup_at(s), i as int, n) == Some(i as int));
                        assert(first_where(dup_at(s), 0, n) == Some(i as int));
                        assert(!(s.len() < self.threshold));
                        assert(spec_validation(*self) == MultiSigValidationResult::DuplicateSigner(
                            s[i as int].signer,
                        ));
                    }
                    return MultiSigValidationResult::DuplicateSigner(sigs[i].signer);
                }
                j = j + 1;
            }
            i = i + 1;
        }
        proof {
            lemma_first_where_skip(dup_at(s), 0, n, n);
        }
        let ghost unk = unknown_at(s, self.expected_signers@);
        // Verify all signers are in expected list
        let mut i: usize = 0;
        while i < sigs.len()
            invariant
                i <= n,
                s == sigs@,
                n == s.len(),
                s.len() >= self.threshold,
                s == self.signatures@,
                unk == unknown_at(s, self.expected_signers@),
                first_where(dup_at(s), 0, n) is None,
                forall|k: int| 0 <= k < i ==> !#[trigger] unk(k),
            decreases n - i,
        {
            if !contains20(&self.expected_signers, &sigs[i].signer) {
                proof {
                    assert(unk(i as int));
                    lemma_first_where_skip(unk, 0, i as int, n);
                    assert(first_where(unk, i as int, n) == Some(i as int));
                }
                return MultiSigValidationResult::UnknownSigner(sigs[i].signer);
            }
            i = i + 1;
        }
        proof {
            lemma_first_where_skip(unk, 0, n, n);
        }
        // Verify all signatures cryptographically
        let tx_hash = self.transaction.hash;
        let ghost bad = bad_sig_at(s, tx_hash);
        let mut i: usize = 0;
        while i < sigs.len()
            invariant
                i <= n,
                s == sigs@,
                n == s.len(),
                s.len() >= self.threshold,
                s == self.signatures@,
                bad == bad_sig_at(s, tx_hash),
                first_where(dup_at(s), 0, n) is None,
                first_where(unknown_at(s, self.expected_signers@), 0, n) is None,
                tx_hash == self.transaction.hash,
                forall|k: int| 0 <= k < i ==> !#[trigger] bad(k),
            decreases n - i,
        {
            // Basic validation: signature should not be empty
            if sigs[i].signature.len() == 0 {
                proof {
                    assert(bad(i as int));
                    lemma_first_where_skip(bad, 0, i as int, n);
                    assert(first_where(bad, i as int, n) == Some(i as int));
                }
                return MultiSigValidationResult::InvalidSignature(sigs[i].signer);
            }
            // Verify Ed25519 signature
            if !verify_ed25519_signature(&tx_hash, &sigs[i].signature, &sigs[i].public_key) {
                proof {
                    assert(bad(i as int));
                    lemma_first_where_skip(bad, 0, i as int, n);
                    assert(first_where(bad, i as int, n) == Some(i as int));
                }
                return MultiSigValidationResult::InvalidSignature(sigs[i].signer);
            }
            i = i + 1;
        }
        proof {
            lemma_first_where_skip(bad, 0, n, n);
        }
        MultiSigValidationResult::Valid
    }

    /// Check if transaction has enough signatures to be executed.
    pub fn is_ready(&self) -> (r: bool)
        ensures
            r == (spec_validation(*self) == MultiSigValidationResult::Valid),
    {
        match self.validate() {
            MultiSigValidationResult::Valid => true,
            _ => false,
        }
    }

    /// Get number of signatures collected.
    pub fn signature_count(&self) -> (r: usize)
        ensures
            r == self.signatures@.len(),
    {
        self.signatures.len()
    }

    /// Get list of signers who have signed.
    pub fn signed_by(&self) -> (r: Vec<[u8; 20]>)
        ensures
            r@ == spec_signed_by(*self),
    {
        let mut out: Vec<[u8; 20]> = Vec::new();
        let mut i: usize = 0;
        while i < self.signatures.len()
            invariant
                i <= self.signatures@.len(),
                out@ == self.signatures@.subrange(0, i as int).map_values(
                    |s: MultiSigSignature| s.signer,
                ),
            decreases self.signatures@.len() - i,
        {
            out.push(self.signatures[i].signer);
            i = i + 1;
            proof {
                assert(out@ =~= self.signatures@.subrange(0, i as int).map_values(
                    |s: MultiSigSignature| s.signer,
                ));
            }
        }
        proof {
            assert(self.signatures@.subrange(0, self.signatures@.len() as int)
                =~= self.signatures@);
        }
        out
    }

    /// Get list of signers who haven't signed yet.
    pub fn pending_signers(&self) -> (r: Vec<[u8; 20]>)
        ensures
            r@ == spec_pending_signers(*self),
    {
        let signed = self.signed_by();
        let ghost pred = |s: [u8; 20]| !spec_signed_by(*self).contains(s);
        let mut out: Vec<[u8; 20]> = Vec::new();
        let mut i: usize = 0;
        proof {
            assert(self.expected_signers@.take(0) =~= Seq::<[u8; 20]>::empty());
            assert(self.expected_signers@.take(0).filter(pred) =~= Seq::<[u8; 20]>::empty());
        }
        while i < self.expected_signers.len()
            invariant
                i <= self.expected_signers@.len(),
                signed@ == spec_signed_by(*self),
                pred == (|s: [u8; 20]| !spec_signed_by(*self).contains(s)),
                out@ == self.expected_signers@.take(i as int).filter(pred),
            decreases self.expected_signers@.len() - i,
        {
            let e = self.expected_signers[i];
            proof {
                assert(self.expected_signers@.take(i + 1) =~= self.expected_signers@.take(
                    i as int,
                ).push(e));
                self.expected_signers@.take(i as int).lemma_filter_push(e, pred);
            }
            if !contains20(&signed, &e) {
                out.push(e);
            }
            i = i + 1;
        }
        proof {
            assert(self.expected_signers@.take(self.expected_signers@.len() as int)
                =~= self.expected_signers@);
        }
        out
    }
}

/// Multi-signature manager for handling multi-sig operations.
pub struct MultiSigManager {
    /// Pending multi-sig transactions (wallet_address -> transactions)
    pending_transactions: KeyMap<Address, Vec<MultiSigTransaction>>,
}

/// The transactions of `wallets`, concatenated in order.
pub open spec fn flatten_pending(lists: Seq<Vec<MultiSigTransaction>>) -> Seq<MultiSigTransaction>
    decreases lists.len(),
{
    if lists.len() == 0 {
        Seq::empty()
    } else {
        flatten_pending(lists.drop_last()) + lists.last()@
    }
}

/// The number of pending transactions over all wallets of `m`.
pub open spec fn pending_count(m: Map<Address, Seq<MultiSigTransaction>>) -> nat
    decreases m.dom().len(),
{
    if m.dom().finite() && m.dom().len() > 0 {
        let k = m.dom().choose();
        m[k].len() + pending_count(m.remove(k))
    } else {
        0
    }
}

/// Any wallet of a finite map can be counted first.
pub proof fn lemma_pending_count_remove(m: Map<Address, Seq<MultiSigTransaction>>, k: Address)
    requires
        m.dom().finite(),
        m.contains_key(k),
    ensures
        pending_count(m) == m[k].len() + pending_count(m.remove(k)),
    decreases m.dom().len(),
{
    let c = m.dom().choose();
    assert(m.dom().len() > 0) by {
        vstd::set::axiom_set_remove_len(m.dom(), k);
    }
    if c != k {
        lemma_pending_count_remove(m.remove(c), k);
        lemma_pending_count_remove(m.remove(k), c);
        assert(m.remove(c).remove(k) =~= m.remove(k).remove(c));
    } else {
        assert(m.remove(c) =~= m.remove(k));
    }
}

/// Adding a wallet's list to the map adds its length to the count.
pub proof fn lemma_pending_count_insert(m: Map<Address, Seq<MultiSigTransaction>>, k: Address, v: Seq<MultiSigTransaction>)
    requires
        m.dom().finite(),
    ensures
        pending_count(m.insert(k, v)) == v.len() + pending_count(m.remove(k)),
{
    lemma_pending_count_remove(m.insert(k, v), k);
    assert(m.insert(k, v).remove(k) =~= m.remove(k));
}

/// The lists of the first `n` wallets of a key list hold as many
/// transactions as the count of those wallets.
proof fn lemma_flatten_count(
    ks: Seq<Address>,
    vs: Seq<Vec<MultiSigTransaction>>,
    m: Map<Address, Seq<MultiSigTransaction>>,
    n: int,
)
    requires
        ks.no_duplicates(),
        ks.len() == vs.len(),
        0 <= n <= ks.len(),
        forall|i: int| 0 <= i < ks.len() ==> #[trigger] m.contains_key(ks[i]) && m[ks[i]] == vs[i]@,
    ensures
        flatten_pending(vs.take(n)).len() == pending_count(m.restrict(ks.take(n).to_set())),
    decreases n,
{
    vstd::seq_lib::seq_to_set_is_finite(ks.take(n));
    if n == 0 {
        assert(vs.take(0) =~= Seq::<Vec<MultiSigTransaction>>::empty());
        assert(m.restrict(ks.take(0).to_set()).dom() =~= Set::<Address>::empty());
    } else {
        lemma_flatten_count(ks, vs, m, n - 1);
        let r = m.restrict(ks.take(n).to_set());
        let k = ks[n - 1];
        assert(ks.take(n).contains(k)) by {
            assert(ks.take(n)[n - 1] == k);
        }
        assert(r.dom().finite()) by {
            assert(r.dom() =~= ks.take(n).to_set().intersect(m.dom()));
        }
        assert(r.contains_key(k));
        lemma_pending_count_remove(r, k);
        assert(r.remove(k) =~= m.restrict(ks.take(n - 1).to_set())) by {
            assert forall|x: Address| #[trigger] ks.take(n).contains(x) && x != k implies ks.take(n - 1).contains(x) by {
                let t = ks.take(n);
                let j = choose|j: int| 0 <= j < t.len() && #[trigger] t[j] == x;
                assert(j != n - 1);
                assert(ks.take(n - 1)[j] == x);
            }
            assert forall|x: Address| #[trigger] ks.take(n - 1).contains(x) implies ks.take(n).contains(x) && x != k by {
                let t = ks.take(n - 1);
                let j = choose|j: int| 0 <= j < t.len() && #[trigger] t[j] == x;
                assert(ks.take(n)[j] == x);
                assert(ks[j] != ks[n - 1]);
            }
        }
        assert(vs.take(n).drop_last() =~= vs.take(n - 1));
        assert(vs.take(n).last() == vs[n - 1]);
    }
}

/// The first position in `txs` whose transaction hash is `h`.
pub open spec fn hash_at(txs: Seq<MultiSigTransaction>, h: Hash32) -> spec_fn(int) -> bool {
    |i: int| txs[i].transaction.hash == h
}

/// The first position whose transaction hash is `h`.
fn find_by_hash(txs: &Vec<MultiSigTransaction>, h: &Hash32) -> (r: Option<usize>)
    ensures
        r matches Some(i) ==> first_where(hash_at(txs@, *h), 0, txs@.len() as int) == Some(
            i as int,
        ),
        r is None ==> first_where(hash_at(txs@, *h), 0, txs@.len() as int) is None,
{
    let ghost p = hash_at(txs@, *h);
    let mut i: usize = 0;
    while i < txs.len()
        invariant
            i <= txs@.len(),
            p == hash_at(txs@, *h),
            forall|k: int| 0 <= k < i ==> !#[trigger] p(k),
        decreases txs@.len() - i,
    {
        if txs[i].transaction.hash == *h {
            proof {
                assert(p(i as int));
                lemma_first_where_skip(p, 0, i as int, txs@.len() as int);
                assert(first_where(p, i as int, txs@.len() as int) == Some(i as int));
            }
            return Some(i);
        }
        i = i + 1;
    }
    proof {
        lemma_first_where_skip(p, 0, txs@.len() as int, txs@.len() as int);
    }
    None
}

impl MultiSigManager {
    /// The pending transactions of each wallet.
    pub closed spec fn view(&self) -> Map<Address, Seq<MultiSigTransaction>> {
        self.pending_transactions@.map_values(|v: Vec<MultiSigTransaction>| v@)
    }

    /// The wallets in list order, and their pending lists.
    pub closed spec fn wallet_seq(&self) -> Seq<Address> {
        self.pending_transactions.key_seq()
    }

    pub closed spec fn list_seq(&self) -> Seq<Vec<MultiSigTransaction>> {
        self.pending_transactions.val_seq()
    }

    pub closed spec fn wf(&self) -> bool {
        self.pending_transactions.wf()
    }

    /// Create new multi-signature manager.
    pub fn new() -> (m: Self)
        ensures
            m.wf(),
            m@ == Map::<Address, Seq<MultiSigTransaction>>::empty(),
    {
        let m = Self { pending_transactions: KeyMap::new() };
        assert(m@ =~= Map::<Address, Seq<MultiSigTransaction>>::empty());
        m
    }

    /// Add a pending multi-sig transaction.
    pub fn add_pending_transaction(&mut self, tx: MultiSigTransaction)
        requires
            old(self).wf(),
        ensures
            final(self).wf(),
            final(self)@ == old(self)@.insert(
                tx.wallet_address,
                if old(self)@.contains_key(tx.wallet_address) {
                    old(self)@[tx.wallet_address]
                } else {
                    Seq::empty()
                }.push(tx),
            ),
            pending_count(final(self)@) == pending_count(old(self)@) + 1,
    {
        proof {
            self.pending_transactions.lemma_seqs();
            assert(old(self)@.dom() =~= self.pending_transactions@.dom());
        }
        let wallet = tx.wallet_address;
        let mut list = match self.pending_transactions.remove(&wallet) {
            Some(v) => v,
            None => Vec::new(),
        };
        list.push(tx);
        self.pending_transactions.insert(wallet, list);
        proof {
            assert(self@ =~= old(self)@.insert(
                wallet,
                if old(self)@.contains_key(wallet) {
                    old(self)@[wallet]
                } else {
                    Seq::empty()
                }.push(tx),
            ));
            let before = old(self)@;
            let list = if before.contains_key(wallet) {
                before[wallet]
            } else {
                Seq::empty()
            };
            lemma_pending_count_insert(before, wallet, list.push(tx));
            if before.contains_key(wallet) {
                lemma_pending_count_remove(before, wallet);
            } else {
                assert(before.remove(wallet) =~= before);
            }
        }
    }

    /// Get pending transactions for a wallet.
    pub fn get_pending_transactions(&self, wallet_address: &Address) -> (r: Vec<
        &MultiSigTransaction,
    >)
        requires
            self.wf(),
        ensures
            self@.contains_key(*wallet_address) ==> r@.len() == self@[*wallet_address].len()
                && forall|i: int|
                0 <= i < r@.len() ==> *r@[i] == self@[*wallet_address][i],
            !self@.contains_key(*wallet_address) ==> r@.len() == 0,
    {
        let mut out: Vec<&MultiSigTransaction> = Vec::new();
        match self.pending_transactions.get(wallet_address) {
            Some(txs) => {
                let mut i: usize = 0;
                while i < txs.len()
                    invariant
                        i <= txs@.len(),
                        out@.len() == i,
                        forall|j: int| 0 <= j < i ==> *out@[j] == txs@[j],
                    decreases txs@.len() - i,
                {
                    out.push(&txs[i]);
                    i = i + 1;
                }
            },
            None => {},
        }
        out
    }

    /// Add signature to a pending transaction.
    pub fn add_signature_to_pending(
        &mut self,
        wallet_address: &Address,
        tx_hash: &Hash32,
        signer: [u8; 20],
        signature: Vec<u8>,
        public_key: Vec<u8>,
    ) -> (r: Result<(), String>)
        requires
            old(self).wf(),
        ensures
            final(self).wf(),
            !old(self)@.contains_key(*wallet_address) ==> (r matches Err(e) && e@
                == "No pending transactions for wallet"@) && final(self)@ == old(self)@,
            old(self)@.contains_key(*wallet_address) && first_where(
                hash_at(old(self)@[*wallet_address], *tx_hash),
                0,
                old(self)@[*wallet_address].len() as int,
            ) is None ==> (r matches Err(e) && e@ == "Transaction not found"@) && final(self)@
                == old(self)@,
            old(self)@.contains_key(*wallet_address) ==> final(self)@.dom() == old(self)@.dom(),
            old(self)@.contains_key(*wallet_address) ==> (first_where(
                hash_at(old(self)@[*wallet_address], *tx_hash),
                0,
                old(self)@[*wallet_address].len() as int,
            ) matches Some(i) ==> {
                let txs = old(self)@[*wallet_address];
                let t = txs[i];
                &&& final(self)@[*wallet_address].len() == txs.len()
                &&& forall|k: int|
                    0 <= k < txs.len() && k != i ==> final(self)@[*wallet_address][k] == txs[k]
                &&& (r is Ok <==> (t.expected_signers@.contains(signer) && !spec_signed_by(
                    t,
                ).contains(signer)))
                &&& r is Ok ==> final(self)@[*wallet_address][i].signatures@ == t.signatures@.push(
                    MultiSigSignature { signer, signature, public_key },
                )
                &&& r is Err ==> final(self)@[*wallet_address][i].signatures@ == t.signatures@
                &&& final(self)@[*wallet_address][i].wallet_address == t.wallet_address
                &&& final(self)@[*wallet_address][i].transaction == t.transaction
                &&& final(self)@[*wallet_address][i].expected_signers == t.expected_signers
                &&& final(self)@[*wallet_address][i].threshold == t.threshold
            }),
            forall|w: Address|
                w != *wallet_address && old(self)@.contains_key(w) ==> final(self)@.contains_key(w)
                    && final(self)@[w] == old(self)@[w],
    {
        let ghost old_map = self@;
        let mut txs = match self.pending_transactions.remove(wallet_address) {
            Some(v) => v,
            None => {
                proof {
                    assert(self@ =~= old_map);
                }
                return Err(String::from_str("No pending transactions for wallet"));
            },
        };
        let ghost s = txs@;
        let ghost p = hash_at(s, *tx_hash);
        // Find transaction by hash
        let i = match find_by_hash(&txs, tx_hash) {
            Some(i) => i,
            None => {
                self.pending_transactions.insert(*wallet_address, txs);
                proof {
                    assert(self@ =~= old_map);
                }
                return Err(String::from_str("Transaction not found"));
            },
        };
        proof {
            lemma_first_where_found(p, 0, s.len() as int);
        }
        let mut tx = txs.remove(i);
        let r = tx.add_signature(signer, signature, public_key);
        txs.insert(i, tx);
        proof {
            assert(txs@ =~= s.update(i as int, tx));
        }
        self.pending_transactions.insert(*wallet_address, txs);
        r
    }

    /// Remove completed transactions.
    pub fn remove_completed(&mut self, wallet_address: &Address, tx_hash: &Hash32)
        requires
            old(self).wf(),
        ensures
            final(self).wf(),
            old(self)@.contains_key(*wallet_address) ==> final(self)@ == old(self)@.insert(
                *wallet_address,
                old(self)@[*wallet_address].filter(
                    |t: MultiSigTransaction| t.transaction.hash != *tx_hash,
                ),
            ),
            !old(self)@.contains_key(*wallet_address) ==> final(self)@ == old(self)@,
    {
        let ghost old_map = self@;
        match self.pending_transactions.remove(wallet_address) {
            Some(txs) => {
                let ghost s = txs@;
                let ghost pred = |t: MultiSigTransaction| t.transaction.hash != *tx_hash;
                let mut kept: Vec<MultiSigTransaction> = Vec::new();
                let len = txs.len();
                let mut rest = txs;
                let mut i: usize = 0;
                proof {
                    assert(s.take(0).filter(pred) =~= Seq::<MultiSigTransaction>::empty());
                }
                // Walk the list from the front, keeping what does not match.
                while i < len
                    invariant
                        len == s.len(),
                        i <= s.len(),
                        rest@ == s.skip(i as int),
                        pred == (|t: MultiSigTransaction| t.transaction.hash != *tx_hash),
                        kept@ == s.take(i as int).filter(pred),
                    decreases s.len() - i,
                {
                    let t = rest.remove(0);
                    proof {
                        assert(t == s[i as int]);
                        assert(rest@ =~= s.skip(i + 1));
                        assert(s.take(i + 1) =~= s.take(i as int).push(t));
                        s.take(i as int).lemma_filter_push(t, pred);
                    }
                    if t.transaction.hash != *tx_hash {
                        kept.push(t);
                    }
                    i = i + 1;
                }
                proof {
                    assert(s.take(s.len() as int) =~= s);
                }
                self.pending_transactions.insert(*wallet_address, kept);
                proof {
                    assert(self@ =~= old_map.insert(*wallet_address, s.filter(pred)));
                }
            },
            None => {
                proof {
                    assert(self@ =~= old_map);
                }
            },
        }
    }

    /// Get all pending transactions, wallet by wallet.
    pub fn get_all_pending(&self) -> (r: Vec<&MultiSigTransaction>)
        requires
            self.wf(),
        ensures
            r@.len() == flatten_pending(self.list_seq()).len(),
            r@.len() == pending_count(self@),
            forall|i: int| 0 <= i < r@.len() ==> *r@[i] == flatten_pending(self.list_seq())[i],
    {
        proof {
            self.pending_transactions.lemma_seqs();
            let ks = self.pending_transactions.key_seq();
            let vs = self.list_seq();
            assert forall|i: int| 0 <= i < ks.len() implies #[trigger] self@.contains_key(ks[i]) && self@[ks[i]] == vs[i]@ by {
                assert(self.pending_transactions@.contains_key(ks[i]));
            }
            lemma_flatten_count(ks, vs, self@, ks.len() as int);
            assert(ks.take(ks.len() as int) =~= ks);
            assert(vs.take(vs.len() as int) =~= vs);
            assert forall|k: Address| #[trigger] self@.contains_key(k) implies ks.to_set().contains(k) by {
                assert(self.pending_transactions@.contains_key(k));
            }
            assert(self@.restrict(ks.to_set()) =~= self@);
        }
        let mut out: Vec<&MultiSigTransaction> = Vec::new();
        let mut w: usize = 0;
        let n = self.pending_transactions.len();
        proof {
            assert(self.list_seq().take(0) =~= Seq::<Vec<MultiSigTransaction>>::empty());
        }
        while w < n
            invariant
                w <= n,
                n == self.list_seq().len(),
                self.pending_transactions.wf(),
                n == self.pending_transactions.key_seq().len(),
                out@.len() == flatten_pending(self.list_seq().take(w as int)).len(),
                forall|i: int|
                    0 <= i < out@.len() ==> *out@[i] == flatten_pending(
                        self.list_seq().take(w as int),
                    )[i],
            decreases n - w,
        {
            let txs = self.pending_transactions.value_at(w);
            let ghost before = out@;
            let mut i: usize = 0;
            while i < txs.len()
                invariant
                    i <= txs@.len(),
                    out@.len() == before.len() + i,
                    forall|j: int| 0 <= j < before.len() ==> out@[j] == before[j],
                    forall|j: int| 0 <= j < i ==> *out@[before.len() + j] == txs@[j],
                decreases txs@.len() - i,
            {
                out.push(&txs[i]);
                i = i + 1;
            }
            proof {
                let t = self.list_seq().take(w + 1);
                assert(t.drop_last() =~= self.list_seq().take(w as int));
                assert(t.last() == *txs);
                assert(flatten_pending(t) == flatten_pending(self.list_seq().take(w as int))
                    + txs@);
                assert(out@.len() == flatten_pending(t).len());
                assert forall|i: int| 0 <= i < out@.len() implies *out@[i] == flatten_pending(
                    t,
                )[i] by {
                    if i < before.len() {
                        assert(out@[i] == before[i]);
                        assert(*before[i] == flatten_pending(self.list_seq().take(w as int))[i]);
                    } else {
                        assert(*out@[before.len() + (i - before.len())] == txs@[i - before.len()]);
                    }
                }
            }
            w = w + 1;
        }
        proof {
            assert(self.list_seq().take(n as int) =~= self.list_seq());
        }
        out
    }
}

impl Default for MultiSigManager {
    fn default() -> (m: Self)
        ensures
            m.wf(),
            m@ == Map::<Address, Seq<MultiSigTransaction>>::empty(),
    {
        Self::new()
    }
}

} // verus!
