//! Social recovery for smart contract wallets.
//!
//! Enables wallet recovery via trusted guardians with time-delayed security.
use vstd::prelude::*;

use crate::block::{le_bytes, push_all, push_le};
use crate::collections::KeyMap;
use crate::crypto::{
    derive_eth_address,
    keccak256,
    keccak256_digest,
    secp256k1_recover,
    secp256k1_recovered_point,
    spec_eth_address,
};
use crate::types::Address;

verus! {

/// Recovery request status.
#[derive(Debug, Clone, Copy, PartialEq, Eq, Structural)]
pub enum RecoveryStatus {
    /// Recovery initiated, waiting for guardian approvals
    Pending,
    /// Sufficient approvals received, waiting for time delay
    Approved,
    /// Time delay expired, recovery can be completed
    Ready,
    /// Recovery completed
    Completed,
    /// Recovery cancelled or expired
    Cancelled,
}

/// Recovery request.
#[derive(Debug)]
pub struct RecoveryRequest {
    /// Wallet address being recovered
    pub wallet_address: Address,
    /// New owner address (who will control the wallet after recovery)
    pub new_owner: Address,
    /// List of guardian addresses
    pub guardians: Vec<Address>,
    /// Number of guardian approvals required
    pub recovery_threshold: u8,
    /// Guardian approvals received (guardian -> approval timestamp)
    pub approvals: KeyMap<Address, u64>,
    /// Recovery initiation timestamp
    pub initiated_at: u64,
    /// Time delay in seconds (e.g., 7 days = 604800)
    pub time_delay: u64,
    /// Current status
    pub status: RecoveryStatus,
}

/// The bytes of `RECOVER:`.
pub open spec fn recover_prefix() -> Seq<u8> {
    seq![82u8, 69u8, 67u8, 79u8, 86u8, 69u8, 82u8, 58u8]
}

/// The message a guardian signs to approve handing `wallet` to `new_owner`
/// at `timestamp`.
pub open spec fn spec_approval_message(wallet: Address, new_owner: Address, timestamp: u64) -> Seq<
    u8,
> {
    recover_prefix() + wallet.0@ + new_owner.0@ + le_bytes(timestamp as nat, 8)
}

/// The address recovered from an ECDSA signature `r || s` with recovery byte
/// `v` (27 and 28 accepted as 0 and 1) over a Keccak-256 hash.
pub open spec fn spec_recovered_address(hash: Seq<u8>, rs: Seq<u8>, v: u8) -> Option<Seq<u8>> {
    let id: u8 = if v >= 27 {
        (v - 27) as u8
    } else {
        v
    };
    match secp256k1_recovered_point(hash, rs, id) {
        Some(p) => if p.len() == 65 && p[0] == 4u8 {
            Some(spec_eth_address(p.subrange(1, 65)))
        } else {
            None
        },
        None => None,
    }
}

/// The address that signed an approval with the 65-byte `signature`.
pub open spec fn spec_approval_signer(
    wallet: Address,
    new_owner: Address,
    timestamp: u64,
    signature: Seq<u8>,
) -> Option<Seq<u8>> {
    spec_recovered_address(
        keccak256_digest(spec_approval_message(wallet, new_owner, timestamp)),
        signature.subrange(0, 64),
        signature[64],
    )
}

/// Whether a request whose approvals reached the threshold has waited long enough.
pub open spec fn spec_is_ready(req: RecoveryRequest, now: u64) -> bool {
    match req.status {
        RecoveryStatus::Approved => (if now >= req.initiated_at {
            now - req.initiated_at
        } else {
            0
        }) >= req.time_delay,
        RecoveryStatus::Ready => true,
        _ => false,
    }
}

/// The status after an update at `now`.
pub open spec fn spec_updated_status(req: RecoveryRequest, now: u64) -> RecoveryStatus {
    if req.status == RecoveryStatus::Approved && spec_is_ready(req, now) {
        RecoveryStatus::Ready
    } else {
        req.status
    }
}

/// Two requests agree on every field, the lists and approvals by content.
pub open spec fn same_request(a: RecoveryRequest, b: RecoveryRequest) -> bool {
    &&& a.wallet_address == b.wallet_address
    &&& a.new_owner == b.new_owner
    &&& a.guardians@ == b.guardians@
    &&& a.recovery_threshold == b.recovery_threshold
    &&& a.approvals@ == b.approvals@
    &&& a.initiated_at == b.initiated_at
    &&& a.time_delay == b.time_delay
    &&& a.status == b.status
}

/// Copies a list of addresses.
fn copy_addresses(v: &Vec<Address>) -> (r: Vec<Address>)
    ensures
        r@ == v@,
{
    let mut out: Vec<Address> = Vec::new();
    let mut i: usize = 0;
    while i < v.len()
        invariant
            i <= v@.len(),
            out@ == v@.subrange(0, i as int),
        decreases v@.len() - i,
    {
        out.push(v[i]);
        i = i + 1;
        proof {
            assert(out@ =~= v@.subrange(0, i as int));
        }
    }
    proof {
        assert(v@.subrange(0, v@.len() as int) =~= v@);
    }
    out
}

fn contains_address(list: &Vec<Address>, a: &Address) -> (r: bool)
    ensures
        r == list@.contains(*a),
{
    let mut i: usize = 0;
    while i < list.len()
        invariant
            i <= list@.len(),
            forall|j: int| 0 <= j < i ==> list@[j] != *a,
        decreases list@.len() - i,
    {
        if list[i] == *a {
            return true;
        }
        i = i + 1;
    }
    false
}

impl RecoveryRequest {
    pub open spec fn wf(&self) -> bool {
        self.approvals.wf()
    }

    /// Create a new recovery request.
    pub fn new(
        wallet_address: Address,
        new_owner: Address,
        guardians: Vec<Address>,
        recovery_threshold: u8,
        time_delay: u64,
        current_timestamp: u64,
    ) -> (r: Self)
        ensures
            r.wf(),
            r.wallet_address == wallet_address,
            r.new_owner == new_owner,
            r.guardians == guardians,
            r.recovery_threshold == recovery_threshold,
            r.approvals@ == Map::<Address, u64>::empty(),
            r.initiated_at == current_timestamp,
            r.time_delay == time_delay,
            r.status == RecoveryStatus::Pending,
    {
        Self {
            wallet_address,
            new_owner,
            guardians,
            recovery_threshold,
            approvals: KeyMap::new(),
            initiated_at: current_timestamp,
            time_delay,
            status: RecoveryStatus::Pending,
        }
    }

    /// Add a guardian approval (requires cryptographic signature).
    pub fn add_approval(&mut self, guardian: Address, signature: &[u8], timestamp: u64) -> (r:
        Result<(), String>)
        requires
            old(self).wf(),
        ensures
            final(self).wf(),
            !old(self).guardians@.contains(guardian) ==> (r matches Err(e) && e@
                == "Guardian not in guardian list"@),
            old(self).guardians@.contains(guardian) && old(self).approvals@.contains_key(guardian)
                ==> (r matches Err(e) && e@ == "Guardian already approved"@),
            old(self).guardians@.contains(guardian) && !old(self).approvals@.contains_key(guardian)
                && old(self).status != RecoveryStatus::Pending ==> (r matches Err(e) && e@
                == "Recovery is not in pending status"@),
            old(self).guardians@.contains(guardian) && !old(self).approvals@.contains_key(guardian)
                && old(self).status == RecoveryStatus::Pending && signature@.len() != 65 ==> (
            r matches Err(e) && e@ == "Invalid signature length"@),
            old(self).guardians@.contains(guardian) && !old(self).approvals@.contains_key(guardian)
                && old(self).status == RecoveryStatus::Pending && signature@.len() == 65
                && spec_approval_signer(
                old(self).wallet_address,
                old(self).new_owner,
                timestamp,
                signature@,
            ) is None ==> (r matches Err(e) && e@
                == "Invalid signature: could not recover address"@),
            old(self).guardians@.contains(guardian) && !old(self).approvals@.contains_key(guardian)
                && old(self).status == RecoveryStatus::Pending && signature@.len() == 65
                && spec_approval_signer(
                old(self).wallet_address,
                old(self).new_owner,
                timestamp,
                signature@,
            ) is Some && spec_approval_signer(
                old(self).wallet_address,
                old(self).new_owner,
                timestamp,
                signature@,
            ) != Some(guardian.0@) ==> (r matches Err(e) && e@
                == "Signature does not match guardian address"@),
            r is Ok <==> (old(self).guardians@.contains(guardian) && !old(
                self,
            ).approvals@.contains_key(guardian) && old(self).status == RecoveryStatus::Pending
                && signature@.len() == 65 && spec_approval_signer(
                old(self).wallet_address,
                old(self).new_owner,
                timestamp,
                signature@,
            ) == Some(guardian.0@)),
            r is Ok ==> final(self).approvals@ == old(self).approvals@.insert(guardian, timestamp),
            r is Ok ==> final(self).status == (if final(self).approvals@.len()
                >= old(self).recovery_threshold {
                RecoveryStatus::Approved
            } else {
                RecoveryStatus::Pending
            }),
            r is Err ==> *final(self) == *old(self),
            final(self).wallet_address == old(self).wallet_address,
            final(self).new_owner == old(self).new_owner,
            final(self).guardians == old(self).guardians,
            final(self).recovery_threshold == old(self).recovery_threshold,
            final(self).initiated_at == old(self).initiated_at,
            final(self).time_delay == old(self).time_delay,
    {
        // Check if guardian is valid
        if !contains_address(&self.guardians, &guardian) {
            return Err(String::from_str("Guardian not in guardian list"));
        }
        // Check if already approved
        if self.approvals.contains_key(&guardian) {
            return Err(String::from_str("Guardian already approved"));
        }
        // Check if recovery is still pending
        if self.status != RecoveryStatus::Pending {
            return Err(String::from_str("Recovery is not in pending status"));
        }
        // Verify guardian signature
        let mut message: Vec<u8> = vec![82u8, 69u8, 67u8, 79u8, 86u8, 69u8, 82u8, 58u8];
        proof {
            assert(message@ =~= recover_prefix());
        }
        push_all(&mut message, &self.wallet_address.0);
        push_all(&mut message, &self.new_owner.0);
        push_le(&mut message, timestamp as u128, 8);
        proof {
            assert(message@ =~= spec_approval_message(self.wallet_address, self.new_owner, timestamp));
        }
        let message_hash = keccak256(message.as_slice());
        // Parse signature (65 bytes: r[32] + s[32] + v[1])
        if signature.len() != 65 {
            return Err(String::from_str("Invalid signature length"));
        }
        let mut r = [0u8; 32];
        let mut s = [0u8; 32];
        let mut i: usize = 0;
        while i < 32
            invariant
                i <= 32,
                signature@.len() == 65,
                r@.len() == 32,
                s@.len() == 32,
                forall|j: int| 0 <= j < i ==> r@[j] == signature@[j] && s@[j] == signature@[j + 32],
            decreases 32 - i,
        {
            r[i] = signature[i];
            s[i] = signature[i + 32];
            i = i + 1;
        }
        let v = signature[64];
        proof {
            assert(r@ + s@ =~= signature@.subrange(0, 64));
        }
        let recovered = match recover_ecdsa_address(&message_hash, &r, &s, v) {
            Some(a) => a,
            None => {
                return Err(String::from_str("Invalid signature: could not recover address"));
            },
        };
        if recovered != guardian {
            proof {
                if recovered.0@ == guardian.0@ {
                    vstd::array::axiom_array_ext_equal(recovered.0, guardian.0);
                    assert(forall|i: int| 0 <= i < 20 ==> recovered.0@[i] == guardian.0@[i]);
                    assert(recovered.0 =~= guardian.0);
                }
            }
            return Err(String::from_str("Signature does not match guardian address"));
        }
        // Add approval
        self.approvals.insert(guardian, timestamp);
        // Check if threshold is met
        if self.approvals.len() >= self.recovery_threshold as usize {
            self.status = RecoveryStatus::Approved;
        }
        proof {
            self.approvals.lemma_seqs();
        }
        Ok(())
    }

    /// Check if recovery is ready to complete (time delay expired).
    pub fn is_ready(&self, current_timestamp: u64) -> (r: bool)
        ensures
            r == spec_is_ready(*self, current_timestamp),
    {
        match self.status {
            RecoveryStatus::Approved => {
                let elapsed = current_timestamp.saturating_sub(self.initiated_at);
                elapsed >= self.time_delay
            },
            RecoveryStatus::Ready => true,
            _ => false,
        }
    }

    /// Update status based on current timestamp.
    pub fn update_status(&mut self, current_timestamp: u64)
        ensures
            final(self).status == spec_updated_status(*old(self), current_timestamp),
            *final(self) == (RecoveryRequest { status: final(self).status, ..*old(self) }),
    {
        if self.status == RecoveryStatus::Approved {
            if self.is_ready(current_timestamp) {
                self.status = RecoveryStatus::Ready;
            }
        }
    }

    /// Get number of approvals received.
    pub fn approval_count(&self) -> (r: usize)
        requires
            self.wf(),
        ensures
            r == self.approvals@.len(),
    {
        self.approvals.len()
    }

    /// Check if threshold is met.
    pub fn threshold_met(&self) -> (r: bool)
        requires
            self.wf(),
        ensures
            r == (self.approvals@.len() >= self.recovery_threshold),
    {
        self.approvals.len() >= self.recovery_threshold as usize
    }

    /// Cancel the recovery request.
    pub fn cancel(&mut self)
        ensures
            *final(self) == (RecoveryRequest { status: RecoveryStatus::Cancelled, ..*old(self) }),
    {
        self.status = RecoveryStatus::Cancelled;
    }
}

/// Recover an Ethereum-style address from an ECDSA signature over a keccak256 hash.
fn recover_ecdsa_address(message_hash: &[u8; 32], r: &[u8; 32], s: &[u8; 32], v: u8) -> (a: Option<
    Address,
>)
    ensures
        a matches Some(x) ==> spec_recovered_address(message_hash@, r@ + s@, v) == Some(x.0@),
        a is None ==> spec_recovered_address(message_hash@, r@ + s@, v) is None,
{
    let recovery_id = if v >= 27 {
        v - 27
    } else {
        v
    };
    let mut sig_bytes = [0u8; 64];
    let mut i: usize = 0;
    while i < 32
        invariant
            i <= 32,
            sig_bytes@.len() == 64,
            forall|j: int| 0 <= j < i ==> sig_bytes@[j] == r@[j] && sig_bytes@[j + 32] == s@[j],
        decreases 32 - i,
    {
        sig_bytes[i] = r[i];
        sig_bytes[i + 32] = s[i];
        i = i + 1;
    }
    proof {
        assert(sig_bytes@ =~= r@ + s@);
    }
    let point = secp256k1_recover(message_hash, &sig_bytes, recovery_id)?;
    if point.len() == 65 && point[0] == 4 {
        let mut pub_key: Vec<u8> = Vec::new();
        let mut j: usize = 1;
        while j < 65
            invariant
                1 <= j <= 65,
                point@.len() == 65,
                pub_key@ == point@.subrange(1, j as int),
            decreases 65 - j,
        {
            pub_key.push(point[j]);
            j = j + 1;
            proof {
                assert(pub_key@ =~= point@.subrange(1, j as int));
            }
        }
        Some(derive_eth_address(pub_key.as_slice()))
    } else {
        None
    }
}

/// Social Recovery Manager.
pub struct SocialRecoveryManager {
    /// Active recovery requests (wallet_address -> RecoveryRequest)
    requests: KeyMap<Address, RecoveryRequest>,
    /// Default time delay (7 days in seconds)
    default_time_delay: u64,
}

/// Whether a request is still in progress (kept by `cleanup`).
pub open spec fn in_progress(req: RecoveryRequest) -> bool {
    req.status == RecoveryStatus::Pending || req.status == RecoveryStatus::Approved || req.status
        == RecoveryStatus::Ready
}

impl SocialRecoveryManager {
    /// The request of each wallet.
    pub closed spec fn view(&self) -> Map<Address, RecoveryRequest> {
        self.requests@
    }

    /// The wallets in list order.
    pub closed spec fn wallet_seq(&self) -> Seq<Address> {
        self.requests.key_seq()
    }

    /// The delay used when a request names none.
    pub closed spec fn default_delay(&self) -> u64 {
        self.default_time_delay
    }

    /// The requests are well formed, and the default delay is the 7 days
    /// that every manager is created with (nothing changes it).
    pub closed spec fn wf(&self) -> bool {
        &&& self.requests.wf()
        &&& forall|w: Address| #[trigger] self.requests@.contains_key(w) ==> self.requests@[w].wf()
        &&& self.default_time_delay == 604800
    }

    /// A well-formed manager's default delay is 7 days.
    pub proof fn lemma_default_delay(&self)
        requires
            self.wf(),
        ensures
            self.default_delay() == 604800,
    {
    }

    /// Create a new social recovery manager.
    pub fn new() -> (m: Self)
        ensures
            m.wf(),
            m@ == Map::<Address, RecoveryRequest>::empty(),
            m.wallet_seq() == Seq::<Address>::empty(),
            m.default_delay() == 604800,
    {
        Self {
            requests: KeyMap::new(),
            default_time_delay: 7 * 24 * 60 * 60,  // 7 days
        }
    }

    /// The default recovery delay in seconds.
    pub fn default_time_delay(&self) -> (r: u64)
        ensures
            r == self.default_delay(),
    {
        self.default_time_delay
    }

    /// Create a new recovery request.
    pub fn initiate_recovery(
        &mut self,
        wallet_address: Address,
        new_owner: Address,
        guardians: Vec<Address>,
        recovery_threshold: u8,
        time_delay: Option<u64>,
        current_timestamp: u64,
    ) -> (r: Result<RecoveryRequest, String>)
        requires
            old(self).wf(),
        ensures
            final(self).wf(),
            final(self).default_delay() == old(self).default_delay(),
            old(self)@.contains_key(wallet_address) ==> (r matches Err(e) && e@
                == "Recovery request already exists for this wallet"@),
            !old(self)@.contains_key(wallet_address) && recovery_threshold == 0 ==> (r matches Err(e) && e@
                == "Invalid recovery threshold"@),
            !old(self)@.contains_key(wallet_address) && recovery_threshold != 0 && guardians@.len() == 0 ==> (
            r matches Err(e) && e@ == "Guardians list cannot be empty"@),
            r is Ok <==> (!old(self)@.contains_key(wallet_address) && recovery_threshold != 0
                && guardians@.len() != 0),
            r is Err ==> final(self)@ == old(self)@,
            r matches Ok(req) ==> {
                &&& req.wallet_address == wallet_address
                &&& req.new_owner == new_owner
                &&& req.guardians@ == guardians@
                &&& req.recovery_threshold == recovery_threshold
                &&& req.approvals@ == Map::<Address, u64>::empty()
                &&& req.initiated_at == current_timestamp
                &&& req.time_delay == (match time_delay {
                    Some(d) => d,
                    None => old(self).default_delay(),
                })
                &&& req.status == RecoveryStatus::Pending
                &&& final(self)@.dom() == old(self)@.dom().insert(wallet_address)
                &&& same_request(final(self)@[wallet_address], req)
                &&& forall|w: Address|
                    w != wallet_address && #[trigger] old(self)@.contains_key(w) ==> final(self)@[w]
                        == old(self)@[w]
            },
    {
        // Check if recovery already exists
        if self.requests.contains_key(&wallet_address) {
            return Err(String::from_str("Recovery request already exists for this wallet"));
        }
        // Validate threshold (a threshold above the number of guardians is
        // accepted; such a request can never be approved)
        if recovery_threshold == 0 {
            return Err(String::from_str("Invalid recovery threshold"));
        }
        // Validate guardians
        if guardians.len() == 0 {
            return Err(String::from_str("Guardians list cannot be empty"));
        }
        // Use default time delay if not provided
        let delay = match time_delay {
            Some(d) => d,
            None => self.default_time_delay,
        };
        let stored = RecoveryRequest::new(
            wallet_address,
            new_owner,
            copy_addresses(&guardians),
            recovery_threshold,
            delay,
            current_timestamp,
        );
        let request = RecoveryRequest::new(
            wallet_address,
            new_owner,
            guardians,
            recovery_threshold,
            delay,
            current_timestamp,
        );
        self.requests.insert(wallet_address, stored);
        proof {
            assert(self@.dom() =~= old(self)@.dom().insert(wallet_address));
        }
        Ok(request)
    }

    /// Add a guardian approval to a recovery request.
    pub fn approve_recovery(
        &mut self,
        wallet_address: Address,
        guardian: Address,
        signature: &[u8],
        current_timestamp: u64,
    ) -> (r: Result<(), String>)
        requires
            old(self).wf(),
        ensures
            final(self).wf(),
            final(self).default_delay() == old(self).default_delay(),
            !old(self)@.contains_key(wallet_address) ==> (r matches Err(e) && e@
                == "Recovery request not found"@) && final(self)@ == old(self)@,
            final(self)@.dom() == old(self)@.dom(),
            forall|w: Address|
                w != wallet_address && #[trigger] old(self)@.contains_key(w) ==> final(self)@[w]
                    == old(self)@[w],
            old(self)@.contains_key(wallet_address) ==> {
                let req = old(self)@[wallet_address];
                let now = final(self)@[wallet_address];
                &&& (r is Ok <==> (req.guardians@.contains(guardian)
                    && !req.approvals@.contains_key(guardian) && req.status
                    == RecoveryStatus::Pending && signature@.len() == 65 && spec_approval_signer(
                    req.wallet_address,
                    req.new_owner,
                    current_timestamp,
                    signature@,
                ) == Some(guardian.0@)))
                &&& r is Ok ==> now.approvals@ == req.approvals@.insert(guardian, current_timestamp)
                &&& r is Ok ==> now.status == spec_updated_status(
                    RecoveryRequest {
                        status: if now.approvals@.len() >= req.recovery_threshold {
                            RecoveryStatus::Approved
                        } else {
                            RecoveryStatus::Pending
                        },
                        ..now
                    },
                    current_timestamp,
                )
                &&& r is Err ==> now == req
                &&& now.guardians == req.guardians
                &&& now.initiated_at == req.initiated_at
                &&& now.time_delay == req.time_delay
                &&& now.new_owner == req.new_owner
            },
    {
        let mut request = match self.requests.remove(&wallet_address) {
            Some(req) => req,
            None => {
                proof {
                    assert(self@ =~= old(self)@);
                }
                return Err(String::from_str("Recovery request not found"));
            },
        };
        let ghost req0 = request;
        let res = request.add_approval(guardian, signature, current_timestamp);
        match res {
            Ok(()) => {
                let ghost mid = request;
                // Update status
                request.update_status(current_timestamp);
                proof {
                    assert(mid == RecoveryRequest {
                        status: if request.approvals@.len() >= req0.recovery_threshold {
                            RecoveryStatus::Approved
                        } else {
                            RecoveryStatus::Pending
                        },
                        ..request
                    });
                }
                self.requests.insert(wallet_address, request);
                proof {
                    assert(self@.dom() =~= old(self)@.dom());
                }
                Ok(())
            },
            Err(e) => {
                proof {
                    assert(request == req0);
                }
                self.requests.insert(wallet_address, request);
                proof {
                    assert(self@ =~= old(self)@);
                }
                Err(e)
            },
        }
    }

    /// Get recovery request status.
    pub fn get_recovery_status(&self, wallet_address: &Address) -> (r: Option<&RecoveryRequest>)
        requires
            self.wf(),
        ensures
            r is Some == self@.contains_key(*wallet_address),
            r matches Some(req) ==> *req == self@[*wallet_address],
    {
        self.requests.get(wallet_address)
    }

    /// Complete recovery (transfer wallet ownership).
    pub fn complete_recovery(&mut self, wallet_address: Address, current_timestamp: u64) -> (r:
        Result<Address, String>)
        requires
            old(self).wf(),
        ensures
            final(self).wf(),
            final(self).default_delay() == old(self).default_delay(),
            !old(self)@.contains_key(wallet_address) ==> (r matches Err(e) && e@
                == "Recovery request not found"@) && final(self)@ == old(self)@,
            old(self)@.contains_key(wallet_address) ==> {
                let req = old(self)@[wallet_address];
                let updated = spec_updated_status(req, current_timestamp);
                &&& updated != RecoveryStatus::Ready ==> (r matches Err(e) && e@
                    == "Recovery is not ready to complete"@) && final(self)@ == old(self)@.insert(
                    wallet_address,
                    RecoveryRequest { status: updated, ..req },
                )
                &&& updated == RecoveryStatus::Ready ==> r == Ok::<Address, String>(req.new_owner)
                    && final(self)@ == old(self)@.insert(
                    wallet_address,
                    RecoveryRequest { status: RecoveryStatus::Completed, ..req },
                )
            },
    {
        let mut request = match self.requests.remove(&wallet_address) {
            Some(req) => req,
            None => {
                proof {
                    assert(self@ =~= old(self)@);
                }
                return Err(String::from_str("Recovery request not found"));
            },
        };
        // Update status
        request.update_status(current_timestamp);
        // Check if ready
        if request.status != RecoveryStatus::Ready {
            self.requests.insert(wallet_address, request);
            proof {
                assert(self@ =~= old(self)@.insert(wallet_address, request));
            }
            return Err(String::from_str("Recovery is not ready to complete"));
        }
        // Get new owner
        let new_owner = request.new_owner;
        // Mark as completed
        request.status = RecoveryStatus::Completed;
        self.requests.insert(wallet_address, request);
        proof {
            assert(self@ =~= old(self)@.insert(wallet_address, request));
        }
        Ok(new_owner)
    }

    /// Cancel a recovery request.
    pub fn cancel_recovery(&mut self, wallet_address: Address) -> (r: Result<(), String>)
        requires
            old(self).wf(),
        ensures
            final(self).wf(),
            final(self).default_delay() == old(self).default_delay(),
            !old(self)@.contains_key(wallet_address) ==> (r matches Err(e) && e@
                == "Recovery request not found"@) && final(self)@ == old(self)@,
            old(self)@.contains_key(wallet_address) ==> r is Ok && final(self)@ == old(self)@.insert(
                wallet_address,
                RecoveryRequest { status: RecoveryStatus::Cancelled, ..old(self)@[wallet_address] },
            ),
    {
        let mut request = match self.requests.remove(&wallet_address) {
            Some(req) => req,
            None => {
                proof {
                    assert(self@ =~= old(self)@);
                }
                return Err(String::from_str("Recovery request not found"));
            },
        };
        request.cancel();
        self.requests.insert(wallet_address, request);
        proof {
            assert(self@ =~= old(self)@.insert(wallet_address, request));
        }
        Ok(())
    }

    /// Remove completed or cancelled recovery requests (cleanup).
    pub fn cleanup(&mut self)
        requires
            old(self).wf(),
        ensures
            final(self).wf(),
            final(self).default_delay() == old(self).default_delay(),
            final(self)@ == old(self)@.restrict(
                old(self)@.dom().filter(|w: Address| in_progress(old(self)@[w])),
            ),
    {
        let keys = self.requests.keys();
        let ghost m0 = self@;
        let mut i: usize = 0;
        while i < keys.len()
            invariant
                i <= keys@.len(),
                keys@.to_set() == m0.dom(),
                keys@.no_duplicates(),
                self.wf(),
                self.default_time_delay == old(self).default_time_delay,
                forall|w: Address|
                    #[trigger] self@.contains_key(w) ==> m0.contains_key(w) && self@[w] == m0[w],
                forall|j: int|
                    0 <= j < i ==> (self@.contains_key(#[trigger] keys@[j]) <==> in_progress(
                        m0[keys@[j]],
                    )),
                forall|j: int| i <= j < keys@.len() ==> self@.contains_key(#[trigger] keys@[j]),
            decreases keys@.len() - i,
        {
            let k = keys[i];
            proof {
                assert(keys@.to_set().contains(k));
            }
            let keep = match self.requests.get(&k) {
                Some(req) => req.status == RecoveryStatus::Pending || req.status
                    == RecoveryStatus::Approved || req.status == RecoveryStatus::Ready,
                None => true,
            };
            if !keep {
                self.requests.remove(&k);
            }
            proof {
                assert forall|j: int| 0 <= j < keys@.len() && j != i implies keys@[j] != k by {}
            }
            i = i + 1;
        }
        proof {
            let f = m0.dom().filter(|w: Address| in_progress(m0[w]));
            assert forall|w: Address| #[trigger] self@.contains_key(w) <==> f.contains(w) by {
                if m0.contains_key(w) {
                    assert(keys@.to_set().contains(w));
                    let j = choose|j: int| 0 <= j < keys@.len() && keys@[j] == w;
                    assert(self@.contains_key(keys@[j]) <==> in_progress(m0[keys@[j]]));
                }
            }
            assert(self@ =~= m0.restrict(f));
        }
    }

    /// Get all active recovery requests.
    pub fn get_all_requests(&self) -> (r: Vec<&RecoveryRequest>)
        requires
            self.wf(),
        ensures
            r@.len() == self.wallet_seq().len(),
            r@.len() == self@.dom().len(),
            forall|i: int| 0 <= i < r@.len() ==> *r@[i] == self@[self.wallet_seq()[i]],
    {
        proof {
            self.requests.lemma_seqs();
        }
        let mut out: Vec<&RecoveryRequest> = Vec::new();
        let n = self.requests.len();
        let mut i: usize = 0;
        while i < n
            invariant
                i <= n,
                n == self.wallet_seq().len(),
                self.requests.wf(),
                out@.len() == i,
                forall|j: int| 0 <= j < i ==> *out@[j] == self@[self.wallet_seq()[j]],
            decreases n - i,
        {
            out.push(self.requests.value_at(i));
            i = i + 1;
        }
        out
    }

    /// Update all recovery request statuses based on current timestamp.
    pub fn update_all_statuses(&mut self, current_timestamp: u64)
        requires
            old(self).wf(),
        ensures
            final(self).wf(),
            final(self).default_delay() == old(self).default_delay(),
            final(self)@.dom() == old(self)@.dom(),
            forall|w: Address|
                #[trigger] old(self)@.contains_key(w) ==> final(self)@[w] == (RecoveryRequest {
                    status: spec_updated_status(old(self)@[w], current_timestamp),
                    ..old(self)@[w]
                }),
    {
        let keys = self.requests.keys();
        let ghost m0 = self@;
        let mut i: usize = 0;
        while i < keys.len()
            invariant
                i <= keys@.len(),
                keys@.to_set() == m0.dom(),
                keys@.no_duplicates(),
                self.wf(),
                self.default_time_delay == old(self).default_time_delay,
                self@.dom() == m0.dom(),
                forall|j: int|
                    0 <= j < i ==> #[trigger] self@[keys@[j]] == (RecoveryRequest {
                        status: spec_updated_status(m0[keys@[j]], current_timestamp),
                        ..m0[keys@[j]]
                    }),
                forall|j: int| i <= j < keys@.len() ==> #[trigger] self@[keys@[j]] == m0[keys@[j]],
            decreases keys@.len() - i,
        {
            let k = keys[i];
            proof {
                assert(keys@.contains(k));
            }
            let mut req = self.requests.remove(&k).unwrap();
            req.update_status(current_timestamp);
            self.requests.insert(k, req);
            proof {
                assert(self@.dom() =~= m0.dom());
                assert forall|j: int| 0 <= j < keys@.len() && j != i implies keys@[j] != k by {}
            }
            i = i + 1;
        }
        proof {
            assert forall|w: Address| #[trigger] m0.contains_key(w) implies self@[w] == (
            RecoveryRequest { status: spec_updated_status(m0[w], current_timestamp), ..m0[w] }) by {
                assert(keys@.to_set().contains(w));
                let j = choose|j: int| 0 <= j < keys@.len() && keys@[j] == w;
                assert(self@[keys@[j]] == (RecoveryRequest {
                    status: spec_updated_status(m0[keys@[j]], current_timestamp),
                    ..m0[keys@[j]]
                }));
            }
        }
    }
}

impl Default for SocialRecoveryManager {
    fn default() -> (m: Self)
        ensures
            m.wf(),
            m@ == Map::<Address, RecoveryRequest>::empty(),
            m.wallet_seq() == Seq::<Address>::empty(),
            m.default_delay() == 604800,
    {
        Self::new()
    }
}

} // verus!
