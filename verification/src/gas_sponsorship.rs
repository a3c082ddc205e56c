//! Programmable gas sponsorship: the policy a sponsor publishes to decide
//! which transactions it covers, and its daily spend accounting.
use vstd::prelude::*;

use crate::collections::Key;
use crate::text::{decimal, decimal_u128, spec_decimal};
use crate::types::Address;
use dashmap::DashMap;

verus! {

/// About one day of blocks at the 5-second target (17,280 blocks).
pub const BLOCKS_PER_DAY: u64 = 17_280;

/// Rules a sponsor publishes to define when it will cover gas fees.
#[derive(Debug, Clone)]
pub struct SponsorPolicy {
    /// When false, the policy is paused and no new sponsorships are approved.
    pub active: bool,
    /// If present, only these senders are eligible; otherwise any sender.
    pub allowed_senders: Option<Vec<Address>>,
    /// Ceiling on the fee covered per transaction, if any.
    pub max_fee_per_tx: Option<u128>,
    /// Block after which the policy expires, if any.
    pub expires_at_block: Option<u64>,
    /// Ceiling on the cumulative fee covered within a daily window, if any.
    pub daily_spend_limit: Option<u128>,
    /// First block of the current spend window.
    pub window_start_block: u64,
    /// Fees covered so far in the current window.
    pub spent_in_window: u128,
}

/// `current_block` is still inside the window that started at `start`.
pub open spec fn in_window(start: u64, current_block: u64) -> bool {
    (if current_block >= start {
        current_block - start
    } else {
        0
    }) < BLOCKS_PER_DAY
}

/// `p` after a spend of `fee` at `current_block`: a new window starting
/// there (spend = `fee`) once the current one has elapsed, else the
/// window's spend increased by `fee`.
pub open spec fn spend_recorded(p: SponsorPolicy, fee: u128, current_block: u64) -> SponsorPolicy {
    if in_window(p.window_start_block, current_block) {
        SponsorPolicy { spent_in_window: fee_sum(p.spent_in_window, fee), ..p }
    } else {
        SponsorPolicy { window_start_block: current_block, spent_in_window: fee, ..p }
    }
}

/// Saturating sum of two fees.
pub open spec fn fee_sum(a: u128, b: u128) -> u128 {
    if a + b > u128::MAX {
        u128::MAX
    } else {
        (a + b) as u128
    }
}

/// Whether `a` is one of `list`.
pub fn address_in(list: &Vec<Address>, a: &Address) -> (r: bool)
    ensures
        r == list@.contains(*a),
{
    let mut i: usize = 0;
    while i < list.len()
        invariant
            i <= list@.len(),
            forall|j: int| 0 <= j < i ==> list@[j] != *a,
        decreases list@.len() - i,
    {
        if list[i].same(a) {
            proof {
                assert(list@[i as int] == *a);
            }
            return true;
        }
        i = i + 1;
    }
    false
}

impl SponsorPolicy {
    /// True once `current_block` is past the expiry block.
    pub fn is_expired(&self, current_block: u64) -> (r: bool)
        ensures
            r == (self.expires_at_block matches Some(exp) && current_block > exp),
    {
        match self.expires_at_block {
            Some(exp) => current_block > exp,
            None => false,
        }
    }

    /// True if `sender` is on the allowlist, or there is no allowlist.
    pub fn allows_sender(&self, sender: &Address) -> (r: bool)
        ensures
            r == match self.allowed_senders {
                None => true,
                Some(list) => list@.contains(*sender),
            },
    {
        match &self.allowed_senders {
            None => true,
            Some(list) => address_in(list, sender),
        }
    }

    /// True if adding `fee` to the spend of the current window (0 once the
    /// window has elapsed) stays within the daily limit, or there is none.
    pub fn within_daily_limit(&self, fee: u128, current_block: u64) -> (r: bool)
        ensures
            r == match self.daily_spend_limit {
                None => true,
                Some(limit) => fee_sum(
                    if in_window(self.window_start_block, current_block) {
                        self.spent_in_window
                    } else {
                        0
                    },
                    fee,
                ) <= limit,
            },
    {
        let limit = match self.daily_spend_limit {
            Some(l) => l,
            None => {
                return true;
            },
        };
        let in_window = current_block.saturating_sub(self.window_start_block) < BLOCKS_PER_DAY;
        let spent = if in_window {
            self.spent_in_window
        } else {
            0
        };
        spent.saturating_add(fee) <= limit
    }

    /// Starts a new window at `current_block` (spend = `fee`) once the
    /// current one has elapsed; otherwise adds `fee` to the window's spend.
    pub fn record_spend(&mut self, fee: u128, current_block: u64)
        ensures
            *final(self) == spend_recorded(*old(self), fee, current_block),
    {
        if current_block.saturating_sub(self.window_start_block) >= BLOCKS_PER_DAY {
            self.window_start_block = current_block;
            self.spent_in_window = fee;
        } else {
            self.spent_in_window = self.spent_in_window.saturating_add(fee);
        }
    }
}

/// Copies of two lists of addresses with the same elements.
pub open spec fn same_senders(a: Option<Vec<Address>>, b: Option<Vec<Address>>) -> bool {
    match (a, b) {
        (None, None) => true,
        (Some(x), Some(y)) => x@ == y@,
        _ => false,
    }
}

/// `a` and `b` are the same policy (equal fields, the allowlist by its elements).
pub open spec fn same_policy(a: SponsorPolicy, b: SponsorPolicy) -> bool {
    &&& a.active == b.active
    &&& same_senders(a.allowed_senders, b.allowed_senders)
    &&& a.max_fee_per_tx == b.max_fee_per_tx
    &&& a.expires_at_block == b.expires_at_block
    &&& a.daily_spend_limit == b.daily_spend_limit
    &&& a.window_start_block == b.window_start_block
    &&& a.spent_in_window == b.spent_in_window
}

/// A copy of a list of addresses.
pub fn copy_addresses(v: &Vec<Address>) -> (r: Vec<Address>)
    ensures
        r@ == v@,
{
    let mut out: Vec<Address> = Vec::new();
    let mut i: usize = 0;
    while i < v.len()
        invariant
            i <= v@.len(),
            out@ == v@.take(i as int),
        decreases v@.len() - i,
    {
        out.push(v[i]);
        i = i + 1;
        proof {
            assert(out@ =~= v@.take(i as int));
        }
    }
    proof {
        assert(v@.take(v@.len() as int) =~= v@);
    }
    out
}

impl SponsorPolicy {
    /// A copy of this policy.
    pub fn duplicate(&self) -> (r: Self)
        ensures
            same_policy(r, *self),
    {
        SponsorPolicy {
            active: self.active,
            allowed_senders: match &self.allowed_senders {
                Some(v) => Some(copy_addresses(v)),
                None => None,
            },
            max_fee_per_tx: self.max_fee_per_tx,
            expires_at_block: self.expires_at_block,
            daily_spend_limit: self.daily_spend_limit,
            window_start_block: self.window_start_block,
            spent_in_window: self.spent_in_window,
        }
    }
}

#[verifier::external_type_specification]
#[verifier::external_body]
#[verifier::reject_recursive_types(K)]
#[verifier::reject_recursive_types(V)]
#[verifier::reject_recursive_types(S)]
pub struct ExDashMap<K, V, S>(DashMap<K, V, S>);

/// Sponsor policies by sponsor address.
pub type PolicyMap = DashMap<Address, SponsorPolicy>;

/// The policies a sponsor map holds, by sponsor.
pub uninterp spec fn sponsor_policies(m: DashMap<Address, SponsorPolicy>) -> Map<Address, SponsorPolicy>;

/// An empty map, by `dashmap::DashMap::new`.
///
/// Trusted: the new map holds no entry.
#[verifier::external_body]
fn policies_new() -> (r: PolicyMap)
    ensures
        sponsor_policies(r).dom() == Set::<Address>::empty(),
{
    DashMap::new()
}

/// Stores `policy` under `sponsor`, by `dashmap::DashMap::insert`.
///
/// Trusted: the entry of `sponsor` becomes `policy` and no other entry
/// changes (the map is reached through `&mut`, so no other thread writes).
#[verifier::external_body]
fn policies_insert(m: &mut DashMap<Address, SponsorPolicy>, sponsor: Address, policy: SponsorPolicy)
    ensures
        sponsor_policies(*final(m)) == sponsor_policies(*old(m)).insert(sponsor, policy),
{
    m.insert(sponsor, policy);
}

/// Removes the entry of `sponsor`, by `dashmap::DashMap::remove`.
///
/// Trusted: returns the removed policy, if there was one; no other entry
/// changes.
#[verifier::external_body]
fn policies_remove(m: &mut DashMap<Address, SponsorPolicy>, sponsor: &Address) -> (r: Option<SponsorPolicy>)
    ensures
        sponsor_policies(*final(m)) == sponsor_policies(*old(m)).remove(*sponsor),
        r is Some == sponsor_policies(*old(m)).contains_key(*sponsor),
        r matches Some(p) ==> p == sponsor_policies(*old(m))[*sponsor],
{
    m.remove(sponsor).map(|(_, p)| p)
}

/// A copy of the policy of `sponsor`, by `dashmap::DashMap::get`.
///
/// Trusted: present exactly when the map holds `sponsor`; the copy is made
/// by the verified `SponsorPolicy::duplicate`.
#[verifier::external_body]
fn policies_get(m: &DashMap<Address, SponsorPolicy>, sponsor: &Address) -> (r: Option<SponsorPolicy>)
    ensures
        r is Some == sponsor_policies(*m).contains_key(*sponsor),
        r matches Some(p) ==> same_policy(p, sponsor_policies(*m)[*sponsor]),
{
    m.get(sponsor).map(|p| p.duplicate())
}

/// Every entry, by `dashmap::DashMap::iter`.
///
/// Trusted: each entry once, with a copy of its policy made by the verified
/// `SponsorPolicy::duplicate`; the order is the map's own and is left open.
#[verifier::external_body]
fn policies_entries(m: &DashMap<Address, SponsorPolicy>) -> (r: Vec<(Address, SponsorPolicy)>)
    ensures
        forall|i: int|
            0 <= i < r@.len() ==> sponsor_policies(*m).contains_key((#[trigger] r@[i]).0) && same_policy(
                r@[i].1,
                sponsor_policies(*m)[r@[i].0],
            ),
        forall|a: Address| #[trigger]
            sponsor_policies(*m).contains_key(a) ==> exists|i: int| 0 <= i < r@.len() && r@[i].0 == a,
        forall|i: int, j: int| 0 <= i < j < r@.len() ==> r@[i].0 != r@[j].0,
{
    m.iter().map(|e| (*e.key(), e.value().duplicate())).collect()
}

/// The first rule of `policy` (if registered) that a sponsorship of `fee`
/// for `sender` at `current_block` breaks, as its message.
pub open spec fn sponsor_error(
    policy: Option<SponsorPolicy>,
    sender: Address,
    fee: u128,
    current_block: u64,
) -> Option<Seq<char>> {
    match policy {
        None => Some("Sponsor has no registered policy — use irondag_registerSponsorPolicy first"@),
        Some(p) => if !p.active {
            Some("Sponsor policy is paused"@)
        } else if p.expires_at_block matches Some(exp) && current_block > exp {
            Some("Sponsor policy expired at block "@ + spec_decimal(p.expires_at_block->0 as nat))
        } else if !(match p.allowed_senders {
            None => true,
            Some(list) => list@.contains(sender),
        }) {
            Some("Sender address is not in the sponsor's allowlist"@)
        } else if p.max_fee_per_tx matches Some(max) && fee > max {
            Some(
                "Fee "@ + spec_decimal(fee as nat) + " exceeds sponsor max_fee_per_tx "@ + spec_decimal(
                    p.max_fee_per_tx->0 as nat,
                ),
            )
        } else if !(match p.daily_spend_limit {
            None => true,
            Some(limit) => fee_sum(
                if in_window(p.window_start_block, current_block) {
                    p.spent_in_window
                } else {
                    0
                },
                fee,
            ) <= limit,
        }) {
            Some("Sponsor daily spend limit would be exceeded"@)
        } else {
            None
        },
    }
}

/// The registered sponsor policies.
pub struct SponsorRegistry {
    policies: DashMap<Address, SponsorPolicy>,
}

impl SponsorRegistry {
    /// The registered policies by sponsor.
    pub closed spec fn view(&self) -> Map<Address, SponsorPolicy> {
        sponsor_policies(self.policies)
    }

    /// No policy registered.
    pub fn new() -> (r: Self)
        ensures
            r@ == Map::<Address, SponsorPolicy>::empty(),
    {
        let r = SponsorRegistry { policies: policies_new() };
        proof {
            assert(r@ =~= Map::<Address, SponsorPolicy>::empty());
        }
        r
    }

    /// Registers `policy` for `sponsor`, replacing any earlier one.
    pub fn register(&mut self, sponsor: Address, policy: SponsorPolicy)
        ensures
            final(self)@ == old(self)@.insert(sponsor, policy),
    {
        policies_insert(&mut self.policies, sponsor, policy);
    }

    /// Removes the policy of `sponsor`; true if there was one.
    pub fn deregister(&mut self, sponsor: &Address) -> (r: bool)
        ensures
            final(self)@ == old(self)@.remove(*sponsor),
            r == old(self)@.contains_key(*sponsor),
    {
        policies_remove(&mut self.policies, sponsor).is_some()
    }

    /// A copy of the policy of `sponsor`, if registered.
    pub fn get(&self, sponsor: &Address) -> (r: Option<SponsorPolicy>)
        ensures
            r is Some == self@.contains_key(*sponsor),
            r matches Some(p) ==> same_policy(p, self@[*sponsor]),
    {
        policies_get(&self.policies, sponsor)
    }

    /// Checks a sponsorship of `fee` for `sender` at `current_block` against
    /// the policy of `sponsor`: registered, active, not expired, sender
    /// allowed, fee within the per-transaction ceiling and the daily limit.
    pub fn check(&self, sponsor: &Address, sender: &Address, fee: u128, current_block: u64) -> (r: Result<
        (),
        String,
    >)
        ensures
            match sponsor_error(
                if self@.contains_key(*sponsor) {
                    Some(self@[*sponsor])
                } else {
                    None
                },
                *sender,
                fee,
                current_block,
            ) {
                None => r is Ok,
                Some(m) => r matches Err(s) && s@ == m,
            },
    {
        let policy = match policies_get(&self.policies, sponsor) {
            Some(p) => p,
            None => {
                return Err(
                    String::from_str(
                        "Sponsor has no registered policy — use irondag_registerSponsorPolicy first",
                    ),
                );
            },
        };
        if !policy.active {
            return Err(String::from_str("Sponsor policy is paused"));
        }
        if policy.is_expired(current_block) {
            let exp = match policy.expires_at_block {
                Some(e) => e,
                None => 0,
            };
            let mut s = String::from_str("Sponsor policy expired at block ");
            let n = decimal(exp);
            s.append(n.as_str());
            return Err(s);
        }
        if !policy.allows_sender(sender) {
            return Err(String::from_str("Sender address is not in the sponsor's allowlist"));
        }
        match policy.max_fee_per_tx {
            Some(max) => {
                if fee > max {
                    let mut s = String::from_str("Fee ");
                    let f = decimal_u128(fee);
                    s.append(f.as_str());
                    s.append(" exceeds sponsor max_fee_per_tx ");
                    let m = decimal_u128(max);
                    s.append(m.as_str());
                    return Err(s);
                }
            },
            None => {},
        }
        if !policy.within_daily_limit(fee, current_block) {
            return Err(String::from_str("Sponsor daily spend limit would be exceeded"));
        }
        Ok(())
    }

    /// Records a committed spend of `fee` at `current_block` against the
    /// policy of `sponsor` (nothing if it has none).
    pub fn record_spend(&mut self, sponsor: &Address, fee: u128, current_block: u64)
        ensures
            final(self)@ == if old(self)@.contains_key(*sponsor) {
                old(self)@.insert(*sponsor, spend_recorded(old(self)@[*sponsor], fee, current_block))
            } else {
                old(self)@
            },
    {
        let ghost before = self@;
        match policies_remove(&mut self.policies, sponsor) {
            Some(mut p) => {
                p.record_spend(fee, current_block);
                policies_insert(&mut self.policies, *sponsor, p);
                proof {
                    assert(self@ =~= before.insert(*sponsor, spend_recorded(before[*sponsor], fee, current_block)));
                }
            },
            None => {
                proof {
                    assert(self@ =~= before);
                }
            },
        }
    }

    /// Every registered sponsor with a copy of its policy, each once.
    pub fn list_all(&self) -> (r: Vec<(Address, SponsorPolicy)>)
        ensures
            forall|i: int|
                0 <= i < r@.len() ==> self@.contains_key((#[trigger] r@[i]).0) && same_policy(r@[i].1, self@[r@[i].0]),
            forall|a: Address| #[trigger] self@.contains_key(a) ==> exists|i: int| 0 <= i < r@.len() && r@[i].0 == a,
            forall|i: int, j: int| 0 <= i < j < r@.len() ==> r@[i].0 != r@[j].0,
    {
        policies_entries(&self.policies)
    }
}

impl Default for SponsorRegistry {
    fn default() -> (r: Self)
        ensures
            r@ == Map::<Address, SponsorPolicy>::empty(),
    {
        SponsorRegistry::new()
    }
}

} // verus!
