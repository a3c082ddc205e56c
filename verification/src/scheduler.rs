//! Governance-scheduled protocol upgrades.
//!
//! Governance actions activate at a specific block height. All nodes apply
//! them at the same height, so there is no per-node divergence in what
//! algorithm is "active" at any given point in the chain.
//!
//! Currently supported actions:
//!   - `SetHashAlgorithm(u8)` — changes the `hash_version` byte that miners
//!     must commit into every new block header's PoW hash.
use vstd::prelude::*;

use crate::text::{decimal, spec_decimal};

verus! {

/// The `hash_version` byte of the BLAKE3 proof-of-work hash, in effect until
/// governance changes it.
pub const HASH_VERSION_BLAKE3: u8 = 0x01;

/// A protocol upgrade that takes effect at a specific block height.
#[derive(Debug, Clone, Copy)]
pub struct ScheduledAction {
    /// Block height at which this action becomes active (inclusive).
    pub activation_height: u64,
    pub action: GovernanceAction,
}

/// The set of protocol parameters that can be changed via governance.
#[derive(Debug, Clone, Copy)]
#[non_exhaustive]
pub enum GovernanceAction {
    /// Switch the PoW hash algorithm. The `u8` is the new `hash_version` value
    /// committed into every BlockHeader from `activation_height` onwards.
    SetHashAlgorithm(u8),
}

/// Tracks scheduled governance actions and the currently active protocol parameters.
///
/// `apply_at_height` is called once per committed block and is the only
/// mutation site of the active parameters.
#[derive(Debug)]
pub struct GovernanceScheduler {
    /// Actions not yet activated, sorted ascending by activation_height.
    pending: Vec<ScheduledAction>,
    /// The hash algorithm version currently in effect.
    active_hash_version: u8,
}

/// The hash version in effect after one action, starting from `active`.
/// Version 0 is reserved: an action that sets it changes nothing.
pub open spec fn step_version(active: u8, a: ScheduledAction) -> u8 {
    match a.action {
        GovernanceAction::SetHashAlgorithm(v) => if v == 0 {
            active
        } else {
            v
        },
    }
}

/// The hash version in effect after applying `acts` in order, starting from `active`.
pub open spec fn applied_version(active: u8, acts: Seq<ScheduledAction>) -> u8
    decreases acts.len(),
{
    if acts.len() == 0 {
        active
    } else {
        step_version(applied_version(active, acts.drop_last()), acts.last())
    }
}

/// Actions due at `height`.
pub open spec fn due_at(acts: Seq<ScheduledAction>, height: u64) -> Seq<ScheduledAction> {
    acts.filter(|a: ScheduledAction| a.activation_height <= height)
}

/// Actions still waiting at `height`.
pub open spec fn waiting_at(acts: Seq<ScheduledAction>, height: u64) -> Seq<ScheduledAction> {
    acts.filter(|a: ScheduledAction| a.activation_height > height)
}

/// Heights strictly ascend along the list and none is zero.
pub open spec fn sorted_pending(acts: Seq<ScheduledAction>) -> bool {
    &&& forall|i: int, j: int|
        0 <= i < j < acts.len() ==> acts[i].activation_height < acts[j].activation_height
    &&& forall|i: int| 0 <= i < acts.len() ==> acts[i].activation_height > 0
}

/// Debug text of an action.
pub open spec fn spec_action_text(a: GovernanceAction) -> Seq<char> {
    match a {
        GovernanceAction::SetHashAlgorithm(v) => "SetHashAlgorithm("@ + spec_decimal(v as nat)
            + ")"@,
    }
}

impl Default for GovernanceScheduler {
    fn default() -> (s: Self)
        ensures
            s.pending_seq() == Seq::<ScheduledAction>::empty(),
            s.active() == HASH_VERSION_BLAKE3,
    {
        Self::new()
    }
}

impl GovernanceScheduler {
    /// The scheduled actions, in list order.
    pub closed spec fn pending_seq(&self) -> Seq<ScheduledAction> {
        self.pending@
    }

    /// The hash version currently in effect.
    pub closed spec fn active(&self) -> u8 {
        self.active_hash_version
    }

    /// The pending list is sorted by strictly ascending positive heights.
    pub open spec fn wf(&self) -> bool {
        sorted_pending(self.pending_seq())
    }

    pub fn new() -> (s: Self)
        ensures
            s.pending_seq() == Seq::<ScheduledAction>::empty(),
            s.active() == HASH_VERSION_BLAKE3,
            s.wf(),
    {
        Self { pending: Vec::new(), active_hash_version: HASH_VERSION_BLAKE3 }
    }

    /// The `hash_version` byte miners must include in new block headers.
    pub fn active_hash_version(&self) -> (r: u8)
        ensures
            r == self.active(),
    {
        self.active_hash_version
    }

    /// Schedule an action for a future block height.
    ///
    /// Returns `Err` if `activation_height` is 0 or if an action of the same
    /// kind is already scheduled for that height (deduplication guard).
    pub fn schedule(&mut self, action: ScheduledAction) -> (r: Result<(), String>)
        requires
            old(self).wf(),
        ensures
            final(self).wf(),
            final(self).active() == old(self).active(),
            action.activation_height == 0 ==> (r matches Err(e) && e@
                == "activation_height must be > 0"@),
            action.activation_height != 0 && (exists|i: int|
                0 <= i < old(self).pending_seq().len()
                    && old(self).pending_seq()[i].activation_height == action.activation_height)
                ==> (r matches Err(e) && e@ == "A "@ + spec_action_text(action.action)
                + " action is already scheduled at height "@ + spec_decimal(
                action.activation_height as nat,
            )),
            r is Ok <==> (action.activation_height != 0 && forall|i: int|
                0 <= i < old(self).pending_seq().len()
                    ==> old(self).pending_seq()[i].activation_height != action.activation_height),
            r is Ok ==> final(self).pending_seq().to_multiset() == old(
                self,
            ).pending_seq().to_multiset().insert(action),
            r is Err ==> final(self).pending_seq() == old(self).pending_seq(),
    {
        if action.activation_height == 0 {
            return Err(String::from_str("activation_height must be > 0"));
        }
        // Prevent duplicate: same variant at same height
        let mut i: usize = 0;
        while i < self.pending.len()
            invariant
                i <= self.pending@.len(),
                self.pending@ == old(self).pending@,
                sorted_pending(self.pending@),
                action.activation_height != 0,
                forall|j: int|
                    0 <= j < i ==> self.pending@[j].activation_height != action.activation_height,
            decreases self.pending@.len() - i,
        {
            if self.pending[i].activation_height == action.activation_height {
                assert(old(self).pending_seq()[i as int].activation_height
                    == action.activation_height);
                let mut msg = String::from_str("A ");
                msg.append(&action_text(action.action));
                msg.append(" action is already scheduled at height ");
                msg.append(&decimal(action.activation_height));
                return Err(msg);
            }
            i = i + 1;
        }
        // Keep sorted so we can drain the front cheaply
        let mut pos: usize = 0;
        while pos < self.pending.len() && self.pending[pos].activation_height
            < action.activation_height
            invariant
                pos <= self.pending@.len(),
                self.pending@ == old(self).pending@,
                forall|j: int|
                    0 <= j < pos ==> self.pending@[j].activation_height
                        < action.activation_height,
            decreases self.pending@.len() - pos,
        {
            pos = pos + 1;
        }
        proof {
            let s = old(self).pending@;
            assert forall|j: int| pos <= j < s.len() implies s[j].activation_height
                > action.activation_height by {
                if j > pos {
                    assert(s[pos as int].activation_height < s[j].activation_height);
                }
                assert(s[j].activation_height != action.activation_height);
            }
        }
        proof {
            lemma_insert_sorted(self.pending@, pos as int, action);
        }
        self.pending.insert(pos, action);
        Ok(())
    }

    /// Called once for every committed block. Activates any actions whose
    /// `activation_height` ≤ `height` and removes them from the pending list.
    pub fn apply_at_height(&mut self, height: u64)
        requires
            old(self).wf(),
        ensures
            final(self).wf(),
            final(self).pending_seq() == waiting_at(old(self).pending_seq(), height),
            final(self).active() == applied_version(
                old(self).active(),
                due_at(old(self).pending_seq(), height),
            ),
    {
        let ghost acts = self.pending@;
        assert(sorted_pending(acts));
        let ghost start = self.active_hash_version;
        let mut old_pending: Vec<ScheduledAction> = Vec::new();
        std::mem::swap(&mut old_pending, &mut self.pending);
        let mut rest: Vec<ScheduledAction> = Vec::new();
        let mut i: usize = 0;
        proof {
            assert(acts.take(0) =~= Seq::<ScheduledAction>::empty());
            assert(due_at(acts.take(0), height) =~= Seq::<ScheduledAction>::empty());
            assert(waiting_at(acts.take(0), height) =~= Seq::<ScheduledAction>::empty());
        }
        while i < old_pending.len()
            invariant
                old_pending@ == acts,
                i <= acts.len(),
                rest@ == waiting_at(acts.take(i as int), height),
                self.active_hash_version == applied_version(start, due_at(acts.take(i as int), height)),
                sorted_pending(acts),
                sorted_pending(rest@),
                forall|a: int, j: int|
                    0 <= a < rest@.len() && i <= j < acts.len() ==> rest@[a].activation_height
                        < acts[j].activation_height,
            decreases acts.len() - i,
        {
            let scheduled = old_pending[i];
            proof {
                assert(acts.take(i + 1) =~= acts.take(i as int).push(scheduled));
                acts.take(i as int).lemma_filter_push(
                    scheduled,
                    |a: ScheduledAction| a.activation_height <= height,
                );
                acts.take(i as int).lemma_filter_push(
                    scheduled,
                    |a: ScheduledAction| a.activation_height > height,
                );
            }
            if scheduled.activation_height <= height {
                self.apply(scheduled);
                proof {
                    let d = due_at(acts.take(i + 1), height);
                    assert(d.drop_last() =~= due_at(acts.take(i as int), height));
                }
            } else {
                rest.push(scheduled);
            }
            i = i + 1;
        }
        proof {
            assert(acts.take(acts.len() as int) =~= acts);
        }
        self.pending = rest;
    }

    /// Puts one action into effect. Version 0 is reserved and ignored.
    fn apply(&mut self, scheduled: ScheduledAction)
        ensures
            final(self).active() == step_version(old(self).active(), scheduled),
            final(self).pending_seq() == old(self).pending_seq(),
    {
        match scheduled.action {
            GovernanceAction::SetHashAlgorithm(version) => {
                if version == 0 {
                    return ;
                }
                self.active_hash_version = version;
            },
        }
    }

    /// Pending actions (read-only, for RPC / status reporting).
    pub fn pending_actions(&self) -> (r: &[ScheduledAction])
        ensures
            r@ == self.pending_seq(),
    {
        self.pending.as_slice()
    }
}

/// Inserting an action at the first position whose height is not below it
/// keeps the list sorted and adds exactly that action.
proof fn lemma_insert_sorted(s: Seq<ScheduledAction>, pos: int, action: ScheduledAction)
    requires
        sorted_pending(s),
        0 <= pos <= s.len(),
        action.activation_height > 0,
        forall|j: int| 0 <= j < pos ==> s[j].activation_height < action.activation_height,
        forall|j: int| pos <= j < s.len() ==> s[j].activation_height > action.activation_height,
    ensures
        sorted_pending(s.insert(pos, action)),
        s.insert(pos, action).to_multiset() == s.to_multiset().insert(action),
{
    let t = s.insert(pos, action);
    s.insert_ensures(pos, action);
    assert forall|a: int, b: int|
        0 <= a < b < t.len() implies t[a].activation_height < t[b].activation_height by {
        if b < pos {
        } else if b == pos {
        } else if a < pos {
            assert(t[b] == s[b - 1]);
        } else if a == pos {
            assert(t[b] == s[b - 1]);
        } else {
            assert(t[a] == s[a - 1]);
            assert(t[b] == s[b - 1]);
        }
    }
    let l = s.subrange(0, pos);
    let r = s.subrange(pos, s.len() as int);
    assert(t =~= l + seq![action] + r);
    assert(s =~= l + r);
    vstd::seq_lib::lemma_multiset_commutative(l, seq![action]);
    vstd::seq_lib::lemma_multiset_commutative(l + seq![action], r);
    vstd::seq_lib::lemma_multiset_commutative(l, r);
    assert(seq![action].to_multiset() =~= vstd::multiset::Multiset::singleton(action)) by {
        broadcast use vstd::multiset::group_multiset_axioms;
        broadcast use vstd::seq_lib::group_to_multiset_ensures;
        assert(seq![action] =~= Seq::<ScheduledAction>::empty().push(action));
    }
    assert(t.to_multiset() =~= s.to_multiset().insert(action)) by {
        broadcast use vstd::multiset::group_multiset_axioms;
    }
}

/// Debug text of an action, as in `SetHashAlgorithm(2)`.
fn action_text(a: GovernanceAction) -> (s: String)
    ensures
        s@ == spec_action_text(a),
{
    match a {
        GovernanceAction::SetHashAlgorithm(v) => {
            let mut s = String::from_str("SetHashAlgorithm(");
            s.append(&decimal(v as u64));
            s.append(")");
            s
        },
    }
}

} // verus!
