//! Properties that relate several operations of the library.
use vstd::prelude::*;

use crate::collections::{KeyMap, KeySet};
use crate::consensus::checkpoint::{
    add_scores, lemma_add_scores_tables, lemma_meta_insert_tables, lemma_meta_key_in_no_table,
    lemma_positions_order, lemma_replace_blue_tables, lemma_replace_order_tables, meta_key,
    meta_value, positions, replace_blue, replace_order, saved_checkpoint, stored_scores, stored_order,
    in_position_order,
    zero_hash_bytes,
};
use crate::consensus::storage::{loads_checkpoint, HybridDagStorage};
use crate::consensus::{checkpoint_consistent, ordering_of, precedes, score_or_zero, score_sorted};
use crate::consensus::{adds_genesis, adds_tip, best_parent, color_step, dag_added, ordering_sound, GhostDAG};
use crate::consensus::{lemma_best_parent_frame, lemma_best_parent_some, parents_of, score_after, some_blue, some_stored};
use crate::multisig::{signers_consistent, spec_validation, MultiSigTransaction, MultiSigValidationResult};
use crate::scheduler::{applied_version, due_at, sorted_pending, waiting_at, ScheduledAction};
use crate::scheduler::{GovernanceAction, GovernanceScheduler, HASH_VERSION_BLAKE3};
use crate::social_recovery::{spec_updated_status, RecoveryRequest, RecoveryStatus};
use crate::block::Transaction;
use crate::blockchain::{balance_in, credit_fits, debited, native_transfer, next_nonce, nonce_in};
use crate::chain::AccountState;
use crate::types::{Address, Hash32};
use crate::validation::{key_of, stateless_error, zero_address, SpentOutputs, MAX_GAS_LIMIT, MAX_TX_DATA_SIZE, MAX_TX_VALUE};
use crate::blockchain::{block_added, full_error, prepass_error, Blockchain};
use crate::block::{Block, spec_block_hash};
use crate::error::BlockchainError;
use crate::gas_sponsorship::{fee_sum, in_window, spend_recorded, SponsorPolicy};
use crate::gas_sponsorship::{sponsor_error, BLOCKS_PER_DAY};
use crate::crypto::ed25519_strictly_verifies;
use crate::blockchain::{lemma_run_refused, tx_run, tx_step, view_of};

verus! {

proof fn lemma_applied_concat(v: u8, a: Seq<ScheduledAction>, b: Seq<ScheduledAction>)
    ensures
        applied_version(v, a + b) == applied_version(applied_version(v, a), b),
    decreases b.len(),
{
    if b.len() == 0 {
        assert(a + b =~= a);
    } else {
        assert((a + b).drop_last() =~= a + b.drop_last());
        assert((a + b).last() == b.last());
        lemma_applied_concat(v, a, b.drop_last());
    }
}

proof fn lemma_due_split(acts: Seq<ScheduledAction>, h1: u64, h2: u64)
    requires
        sorted_pending(acts),
        h1 <= h2,
    ensures
        due_at(acts, h2) == due_at(acts, h1) + due_at(waiting_at(acts, h1), h2),
        waiting_at(waiting_at(acts, h1), h2) == waiting_at(acts, h2),
    decreases acts.len(),
{
    reveal(Seq::filter);
    if acts.len() == 0 {
        assert(due_at(acts, h2) =~= Seq::<ScheduledAction>::empty());
        assert(due_at(acts, h1) =~= Seq::<ScheduledAction>::empty());
        assert(waiting_at(acts, h1) =~= Seq::<ScheduledAction>::empty());
        assert(due_at(waiting_at(acts, h1), h2) =~= Seq::<ScheduledAction>::empty());
        assert(waiting_at(waiting_at(acts, h1), h2) =~= Seq::<ScheduledAction>::empty());
        assert(waiting_at(acts, h2) =~= Seq::<ScheduledAction>::empty());
    } else {
        let dl = acts.drop_last();
        let x = acts.last();
        assert(sorted_pending(dl));
        lemma_due_split(dl, h1, h2);
        let pd = |a: ScheduledAction| a.activation_height <= h1;
        let pw = |a: ScheduledAction| a.activation_height > h1;
        let pd2 = |a: ScheduledAction| a.activation_height <= h2;
        let pw2 = |a: ScheduledAction| a.activation_height > h2;
        assert(acts =~= dl.push(x));
        dl.lemma_filter_push(x, pd);
        dl.lemma_filter_push(x, pw);
        dl.lemma_filter_push(x, pd2);
        dl.lemma_filter_push(x, pw2);
        let w = waiting_at(dl, h1);
        w.lemma_filter_push(x, pd2);
        w.lemma_filter_push(x, pw2);
        if x.activation_height <= h1 {
            assert forall|i: int| 0 <= i < dl.len() implies !pw(#[trigger] dl[i]) by {
                assert(acts[i] == dl[i]);
                assert(acts[i].activation_height < acts[acts.len() - 1].activation_height);
            }
            dl.lemma_all_neg_filter_empty(pw);
            assert(w =~= Seq::<ScheduledAction>::empty());
            assert(due_at(w, h2) =~= Seq::<ScheduledAction>::empty());
            assert(waiting_at(w, h2) =~= Seq::<ScheduledAction>::empty());
            assert(due_at(acts, h2) =~= due_at(acts, h1) + due_at(waiting_at(acts, h1), h2));
            assert(waiting_at(waiting_at(acts, h1), h2) =~= waiting_at(acts, h2));
        } else if x.activation_height <= h2 {
            assert(due_at(acts, h2) =~= due_at(acts, h1) + due_at(waiting_at(acts, h1), h2));
            assert(waiting_at(waiting_at(acts, h1), h2) =~= waiting_at(acts, h2));
        } else {
            assert(due_at(acts, h2) =~= due_at(acts, h1) + due_at(waiting_at(acts, h1), h2));
            assert(waiting_at(waiting_at(acts, h1), h2) =~= waiting_at(acts, h2));
        }
    }
}

/// Catching up on governance: applying the schedule at height `h1` and then
/// at a later height `h2` leaves the same active version and the same
/// pending actions as applying it once at `h2`.
pub proof fn law_apply_catch_up(acts: Seq<ScheduledAction>, active: u8, h1: u64, h2: u64)
    requires
        sorted_pending(acts),
        h1 <= h2,
    ensures
        applied_version(applied_version(active, due_at(acts, h1)), due_at(waiting_at(acts, h1), h2))
            == applied_version(active, due_at(acts, h2)),
        waiting_at(waiting_at(acts, h1), h2) == waiting_at(acts, h2),
{
    lemma_due_split(acts, h1, h2);
    lemma_applied_concat(active, due_at(acts, h1), due_at(waiting_at(acts, h1), h2));
}

/// A multi-signature transaction whose signatures come from distinct
/// expected signers is never reported with a duplicate or unknown signer.
pub proof fn law_consistent_signers_pass_signer_checks(tx: MultiSigTransaction)
    requires
        signers_consistent(tx),
    ensures
        !(spec_validation(tx) is DuplicateSigner),
        !(spec_validation(tx) is UnknownSigner),
{
    let sigs = tx.signatures@;
    let n = sigs.len() as int;
    crate::collections::lemma_first_where_found(crate::multisig::dup_at(sigs), 0, n);
    crate::collections::lemma_first_where_found(
        crate::multisig::unknown_at(sigs, tx.expected_signers@),
        0,
        n,
    );
    if let Some(i) = crate::collections::first_where(crate::multisig::dup_at(sigs), 0, n) {
        let j = choose|j: int| 0 <= j < i && sigs[j].signer == sigs[i].signer;
        assert(sigs[j].signer != sigs[i].signer);
    }
    if let Some(i) = crate::collections::first_where(
        crate::multisig::unknown_at(sigs, tx.expected_signers@),
        0,
        n,
    ) {
        assert(tx.expected_signers@.contains(sigs[i].signer));
    }
}

/// A transaction reported valid carries at least `threshold` signatures.
pub proof fn law_valid_meets_threshold(tx: MultiSigTransaction)
    requires
        spec_validation(tx) == MultiSigValidationResult::Valid,
    ensures
        tx.signatures@.len() >= tx.threshold,
{
}

/// A recovery becomes ready only once approved and after its time delay
/// (time elapsed since initiation, counted as 0 before it).
pub proof fn law_ready_only_after_delay(req: RecoveryRequest, now: u64)
    requires
        req.status != RecoveryStatus::Ready,
        spec_updated_status(req, now) == RecoveryStatus::Ready,
    ensures
        req.status == RecoveryStatus::Approved,
        (if now >= req.initiated_at {
            now - req.initiated_at
        } else {
            0
        }) >= req.time_delay,
{
}

/// An ordering produced by a full recomputation is sorted by blue score,
/// which is what the incremental insertion of a new tip relies on.
pub proof fn law_full_ordering_is_score_sorted(
    store: HybridDagStorage,
    blue: Set<Hash32>,
    sc: Map<Hash32, u64>,
    o: Seq<Hash32>,
)
    requires
        ordering_of(store, blue, sc, o),
    ensures
        score_sorted(o, sc),
{
    assert forall|a: int, b: int| 0 <= a < b < o.len() implies score_or_zero(sc, #[trigger] o[a])
        >= score_or_zero(sc, #[trigger] o[b]) by {
        assert(precedes(store, sc, o[a], o[b]));
    }
}

/// Adding a first block, or a new tip to a DAG whose ordering is sound,
/// leaves the ordering sound: no hash twice, only blue blocks, ranked by
/// blue score (highest first) and then timestamp (earliest first).
pub proof fn law_tip_keeps_ordering_sound(before: GhostDAG, after: GhostDAG, block: Block)
    requires
        dag_added(before, after, block),
        adds_genesis(before, block) || (adds_tip(before, block) && ordering_sound(before)),
    ensures
        ordering_sound(after),
{
    let h = block.hash;
    if adds_genesis(before, block) {
        assert(after.ordering() =~= seq![h]);
        assert forall|x: Hash32| #[trigger] after.ordering().contains(x) implies after.blue().contains(x) by {
            assert(after.ordering()[0] == h);
        }
    } else {
        let o = before.ordering();
        match crate::consensus::best_parent(block.header.parent_hashes@, before.blue(), before.scores()) {
            Some(m) => {
                let pos = choose|pos: int| 0 <= pos <= o.len() && after.ordering() == o.insert(pos, h);
                crate::collections::lemma_insert_contains(o, pos, h);
                o.insert_ensures(pos, h);
                let t = o.insert(pos, h);
                assert forall|i: int, j: int| 0 <= i < t.len() && 0 <= j < t.len() && i != j implies t[i] != t[j] by {
                    if i != pos && j != pos {
                        let i0 = if i < pos { i } else { i - 1 };
                        let j0 = if j < pos { j } else { j - 1 };
                        assert(t[i] == o[i0] && t[j] == o[j0]);
                    } else if i == pos {
                        let j0 = if j < pos { j } else { j - 1 };
                        assert(t[j] == o[j0]);
                        assert(o.contains(o[j0]));
                    } else {
                        let i0 = if i < pos { i } else { i - 1 };
                        assert(t[i] == o[i0]);
                        assert(o.contains(o[i0]));
                    }
                }
            },
            None => {},
        }
    }
}

/// A new, uncolored tip with parents is colored by the incremental update
/// as the full recomputation colors a block it reaches: blue with score one
/// more than its best blue, scored parent, or red when it has none (for a
/// best score below the largest one, where the incremental update
/// saturates).
pub proof fn law_tip_colored_as_in_rebuild(before: GhostDAG, after: GhostDAG, block: Block)
    requires
        dag_added(before, after, block),
        adds_tip(before, block),
        block.header.parent_hashes@.len() > 0,
        !before.scores().contains_key(block.hash),
        !before.red().contains(block.hash),
        best_parent(block.header.parent_hashes@, before.blue(), before.scores()) matches Some(m) ==> m < u64::MAX,
    ensures
        (after.blue(), after.red(), after.scores()) == color_step(
            after.store(),
            (before.blue(), before.red(), before.scores()),
            block.hash,
        ),
{
    let h = block.hash;
    assert(after.store().blocks().contains_key(h));
    assert(crate::consensus::parents_of(after.store(), h) == block.header.parent_hashes@);
    assert(before.red().remove(h) =~= before.red());
    assert(before.scores().remove(h) =~= before.scores());
    match best_parent(block.header.parent_hashes@, before.blue(), before.scores()) {
        Some(m) => {
            assert(crate::consensus::score_after(m) == (m + 1) as u64);
        },
        None => {},
    }
}

/// The consensus state is the one a full recomputation gives on a DAG
/// grown from genesis `g` by blocks whose parents were all added before
/// them: every stored block is blue and ordered, nothing is red, the
/// genesis has score 1 and every other block one more than its highest
/// scored parent, and the ordering is sound (see `ordering_sound`). The
/// scores stay within the number of blocks, and the storage keeps the
/// default configuration.
#[verifier::opaque]
pub open spec fn grown_from(d: GhostDAG, g: Hash32) -> bool {
    let store = d.store();
    &&& d.genesis() == Some(g)
    &&& store.blocks().contains_key(g)
    &&& parents_of(store, g).len() == 0
    &&& d.red() == Set::<Hash32>::empty()
    &&& forall|x: Hash32| #[trigger] d.blue().contains(x) <==> store.blocks().contains_key(x)
    &&& forall|x: Hash32| #[trigger] d.ordering().contains(x) <==> d.blue().contains(x)
    &&& forall|x: Hash32| #[trigger] store.blocks().contains_key(x) ==> d.scores().contains_key(x)
        && d.scores()[x] <= store.blocks().len()
    &&& d.scores()[g] == 1
    &&& forall|x: Hash32|
        #[trigger] store.blocks().contains_key(x) && x != g ==> {
            &&& parents_of(store, x).len() > 0
            &&& forall|i: int|
                0 <= i < parents_of(store, x).len() ==> store.blocks().contains_key(
                    #[trigger] parents_of(store, x)[i],
                )
            &&& best_parent(parents_of(store, x), d.blue(), d.scores()) matches Some(m) && d.scores()[x]
                == m + 1
        }
    &&& ordering_sound(d)
    &&& store.blocks().dom().finite()
    &&& d.ordering().len() == store.blocks().len()
    &&& store.cache_size() == 1000
    &&& store.checkpoint_confirmations() == 100
}

/// The best blue parent score is at most a bound on every parent's score.
proof fn lemma_best_parent_le(ps: Seq<Hash32>, blue: Set<Hash32>, sc: Map<Hash32, u64>, k: int)
    requires
        forall|i: int| 0 <= i < ps.len() && sc.contains_key(#[trigger] ps[i]) ==> sc[ps[i]] <= k,
    ensures
        best_parent(ps, blue, sc) matches Some(m) ==> m <= k,
    decreases ps.len(),
{
    if ps.len() > 0 {
        lemma_best_parent_le(ps.drop_last(), blue, sc, k);
        assert(ps.last() == ps[ps.len() - 1]);
    }
}

/// Adding the genesis to an empty DAG with the default storage gives a
/// state grown from it.
proof fn lemma_genesis_grows(before: GhostDAG, after: GhostDAG, block: Block)
    requires
        dag_added(before, after, block),
        adds_genesis(before, block),
        before.store().cache_size() == 1000,
        before.store().checkpoint_confirmations() == 100,
    ensures
        grown_from(after, block.hash),
        after.store().blocks().len() == 1,
{
    reveal(grown_from);
    let h = block.hash;
    law_tip_keeps_ordering_sound(before, after, block);
    let store = after.store();
    assert(store.blocks().dom() =~= Set::<Hash32>::empty().insert(h));
    assert(parents_of(store, h) == block.header.parent_hashes@);
    assert(after.ordering() =~= seq![h]);
    assert forall|x: Hash32| #[trigger] after.ordering().contains(x) <==> after.blue().contains(x) by {
        if after.ordering().contains(x) {
            assert(after.ordering()[0] == h);
        }
        if x == h {
            assert(after.ordering()[0] == h);
        }
    }
    assert(store.blocks().dom().len() == 1);
}

/// Adding a new block whose parents are all stored to a DAG grown from `g`,
/// with room below the checkpoint mark, keeps it grown from `g`.
proof fn lemma_tip_grows(before: GhostDAG, after: GhostDAG, block: Block, g: Hash32)
    requires
        grown_from(before, g),
        dag_added(before, after, block),
        !before.store().blocks().contains_key(block.hash),
        block.header.parent_hashes@.len() > 0,
        forall|i: int|
            0 <= i < block.header.parent_hashes@.len() ==> before.store().blocks().contains_key(
                #[trigger] block.header.parent_hashes@[i],
            ),
        before.store().blocks().len() < 200,
    ensures
        grown_from(after, g),
        after.store().blocks().len() == before.store().blocks().len() + 1,
        after.store().blocks().dom() == before.store().blocks().dom().insert(block.hash),
{
    reveal(grown_from);
    let h = block.hash;
    let ps = block.header.parent_hashes@;
    let s0 = before.store();
    let s1 = after.store();
    assert(before.blue() =~= s0.blocks().dom());
    assert(before.blue().remove(g).len() + 1 == before.blue().len());
    assert(!ps.contains(h)) by {
        if ps.contains(h) {
            let i = choose|i: int| 0 <= i < ps.len() && ps[i] == h;
            assert(s0.blocks().contains_key(ps[i]));
        }
    }
    assert(some_blue(before.blue(), ps)) by {
        assert(before.blue().contains(ps[0]));
    }
    assert(!before.ordering().contains(h));
    assert(adds_tip(before, block));
    assert(parents_of(s1, h) == ps);
    assert forall|i: int| 0 <= i < ps.len() implies before.blue().contains(#[trigger] ps[i])
        && before.scores().contains_key(ps[i]) by {
        assert(s0.blocks().contains_key(ps[i]));
    }
    lemma_best_parent_some(ps, before.blue(), before.scores());
    let m = best_parent(ps, before.blue(), before.scores())->0;
    assert forall|i: int| 0 <= i < ps.len() && before.scores().contains_key(#[trigger] ps[i]) implies before.scores()[ps[i]]
        <= s0.blocks().len() by {
        assert(s0.blocks().contains_key(ps[i]));
    }
    lemma_best_parent_le(ps, before.blue(), before.scores(), s0.blocks().len() as int);
    assert(score_after(m) == m + 1);
    assert(after.blue() == before.blue().insert(h));
    assert(after.scores() == before.scores().insert(h, (m + 1) as u64));
    assert(after.red() =~= Set::<Hash32>::empty());
    law_tip_keeps_ordering_sound(before, after, block);
    let pos = choose|pos: int| 0 <= pos <= before.ordering().len() && after.ordering() == before.ordering().insert(pos, h);
    crate::collections::lemma_insert_contains(before.ordering(), pos, h);
    assert(s1.blocks().dom() =~= s0.blocks().dom().insert(h));
    assert(s1.blocks().len() == s0.blocks().len() + 1);
    lemma_best_parent_frame(ps, before.blue(), before.scores(), after.blue(), after.scores());
    assert forall|x: Hash32| #[trigger] s1.blocks().contains_key(x) && x != g implies {
        &&& parents_of(s1, x).len() > 0
        &&& forall|i: int|
            0 <= i < parents_of(s1, x).len() ==> s1.blocks().contains_key(#[trigger] parents_of(s1, x)[i])
        &&& best_parent(parents_of(s1, x), after.blue(), after.scores()) matches Some(mm) && after.scores()[x]
            == mm + 1
    } by {
        if x != h {
            assert(s0.blocks().contains_key(x));
            assert(s1.blocks()[x] == s0.blocks()[x]);
            let qs = parents_of(s0, x);
            assert(parents_of(s1, x) == qs);
            assert forall|i: int| 0 <= i < qs.len() implies s1.blocks().contains_key(#[trigger] qs[i]) by {
                assert(s0.blocks().contains_key(qs[i]));
            }
            assert forall|i: int| 0 <= i < qs.len() implies (before.blue().contains(#[trigger] qs[i])
                == after.blue().contains(qs[i]) && before.scores().contains_key(qs[i]) == after.scores().contains_key(qs[i])
                && (before.scores().contains_key(qs[i]) ==> before.scores()[qs[i]] == after.scores()[qs[i]])) by {
                assert(s0.blocks().contains_key(qs[i]));
                assert(qs[i] != h);
            }
            lemma_best_parent_frame(qs, before.blue(), before.scores(), after.blue(), after.scores());
        } else {
            assert forall|i: int| 0 <= i < ps.len() implies s1.blocks().contains_key(#[trigger] ps[i]) by {
                assert(s0.blocks().contains_key(ps[i]));
            }
        }
    }
    assert forall|x: Hash32| #[trigger] s1.blocks().contains_key(x) implies after.scores().contains_key(x)
        && after.scores()[x] <= s1.blocks().len() by {
        if x != h {
            assert(s0.blocks().contains_key(x));
        }
    }
}

/// The hashes of the blocks of `bs`.
pub open spec fn hashes_of(bs: Seq<Block>) -> Set<Hash32> {
    bs.map_values(|b: Block| b.hash).to_set()
}

/// Every parent of `blocks[i]` is the hash of a block before it.
pub open spec fn parents_earlier(blocks: Seq<Block>, i: int) -> bool {
    forall|k: int|
        0 <= k < blocks[i].header.parent_hashes@.len() ==> hashes_of(blocks.take(i)).contains(
            #[trigger] blocks[i].header.parent_hashes@[k],
        )
}

/// `states[i + 1]` is `states[i]` after `add_block(&blocks[i])`.
#[verifier::opaque]
pub open spec fn added_in_turn(states: Seq<GhostDAG>, blocks: Seq<Block>, i: int) -> bool {
    dag_added(states[i], states[i + 1], blocks[i])
}

proof fn lemma_hashes_push(bs: Seq<Block>, b: Block)
    ensures
        hashes_of(bs.push(b)) == hashes_of(bs).insert(b.hash),
{
    assert(bs.push(b).map_values(|x: Block| x.hash) =~= bs.map_values(|x: Block| x.hash).push(b.hash));
    crate::collections::lemma_push_contains(bs.map_values(|x: Block| x.hash), b.hash);
}

proof fn lemma_hashes_distinct(blocks: Seq<Block>, n: int)
    requires
        0 <= n < blocks.len(),
        forall|i: int, j: int| 0 <= i < j < blocks.len() ==> blocks[i].hash != blocks[j].hash,
    ensures
        !hashes_of(blocks.take(n)).contains(blocks[n].hash),
{
    let t = blocks.take(n).map_values(|x: Block| x.hash);
    if t.to_set().contains(blocks[n].hash) {
        assert(t.contains(blocks[n].hash));
        let j = choose|j: int| 0 <= j < t.len() && t[j] == blocks[n].hash;
        assert(t[j] == blocks[j].hash);
    }
}

/// Adding, to a new GhostDAG, a genesis and then at most 199 more blocks,
/// each new and with all its parents added before it, colors and orders
/// the DAG as a full recomputation does: after every addition the state
/// is grown from the genesis (every added block blue and ordered, none
/// red, genesis score 1, every other block one more than its highest
/// parent, the ordering sound), and the stored blocks are exactly those
/// added.
#[verifier::spinoff_prover]
pub proof fn law_added_blocks_color_as_rebuild(states: Seq<GhostDAG>, blocks: Seq<Block>)
    requires
        1 <= blocks.len() <= 200,
        states.len() == blocks.len() + 1,
        states[0].genesis() is None,
        states[0].blue() == Set::<Hash32>::empty(),
        states[0].store().blocks() == Map::<Hash32, Block>::empty(),
        states[0].store().children() == Map::<Hash32, Seq<Hash32>>::empty(),
        states[0].store().cache_size() == 1000,
        states[0].store().checkpoint_confirmations() == 100,
        forall|i: int| 0 <= i < blocks.len() ==> #[trigger] added_in_turn(states, blocks, i),
        blocks[0].header.parent_hashes@.len() == 0,
        forall|i: int| 1 <= i < blocks.len() ==> (#[trigger] blocks[i]).header.parent_hashes@.len() > 0,
        forall|i: int| 1 <= i < blocks.len() ==> #[trigger] parents_earlier(blocks, i),
        forall|i: int, j: int| 0 <= i < j < blocks.len() ==> blocks[i].hash != blocks[j].hash,
    ensures
        forall|k: int|
            1 <= k <= blocks.len() ==> grown_from(#[trigger] states[k], blocks[0].hash)
                && states[k].store().blocks().len() == k && states[k].store().blocks().dom() == hashes_of(
                blocks.take(k),
            ),
    decreases blocks.len(),
{
    if blocks.len() == 1 {
        assert(added_in_turn(states, blocks, 0));
        reveal(added_in_turn);
        assert(states[0].blue().len() == 0);
        lemma_genesis_grows(states[0], states[1], blocks[0]);
        assert(blocks.take(1) =~= Seq::<Block>::empty().push(blocks[0]));
        lemma_hashes_push(Seq::<Block>::empty(), blocks[0]);
        assert(hashes_of(Seq::<Block>::empty()) =~= Set::<Hash32>::empty());
    } else {
        let n = blocks.len() - 1;
        let bs = blocks.drop_last();
        let ss = states.drop_last();
        assert forall|i: int| 0 <= i < bs.len() implies #[trigger] added_in_turn(ss, bs, i) by {
            assert(ss[i] == states[i] && ss[i + 1] == states[i + 1] && bs[i] == blocks[i]);
            assert(added_in_turn(states, blocks, i));
            reveal(added_in_turn);
        }
        assert forall|i: int| 1 <= i < bs.len() implies (#[trigger] bs[i]).header.parent_hashes@.len() > 0 by {
            assert(bs[i] == blocks[i]);
        }
        assert forall|i: int| 1 <= i < bs.len() implies #[trigger] parents_earlier(bs, i) by {
            assert(parents_earlier(blocks, i));
            assert(bs[i] == blocks[i]);
            assert(bs.take(i) =~= blocks.take(i));
        }
        law_added_blocks_color_as_rebuild(ss, bs);
        assert(ss[n] == states[n]);
        assert(bs.take(n) =~= blocks.take(n));
        assert(grown_from(ss[n], bs[0].hash));
        let b = blocks[n];
        let g = blocks[0].hash;
        assert(bs[0] == blocks[0]);
        lemma_hashes_distinct(blocks, n);
        assert(parents_earlier(blocks, n));
        assert forall|i: int| 0 <= i < b.header.parent_hashes@.len() implies states[n].store().blocks().contains_key(
            #[trigger] b.header.parent_hashes@[i],
        ) by {
            assert(hashes_of(blocks.take(n)).contains(blocks[n].header.parent_hashes@[i]));
        }
        assert(added_in_turn(states, blocks, n));
        assert(dag_added(states[n], states[n + 1], blocks[n])) by {
            reveal(added_in_turn);
        }
        lemma_tip_grows(states[n], states[n + 1], b, g);
        assert(blocks.take(n + 1) =~= blocks.take(n).push(b));
        lemma_hashes_push(blocks.take(n), b);
        assert(states[n].store().blocks().dom() == hashes_of(blocks.take(n)));
        assert(states[n + 1].store().blocks().dom() =~= hashes_of(blocks.take(n + 1)));
        assert forall|k: int|
            1 <= k <= blocks.len() implies grown_from(#[trigger] states[k], blocks[0].hash)
                && states[k].store().blocks().len() == k && states[k].store().blocks().dom() == hashes_of(
                blocks.take(k),
            ) by {
            if k <= n {
                assert(ss[k] == states[k]);
                assert(bs.take(k) =~= blocks.take(k));
            }
        }
    }
}

/// Saving a checkpoint to a store and loading it back gives the saved
/// state: the genesis hash (a zero hash reads back as none), the blue set,
/// the scores already stored updated by the saved ones, and the ordering;
/// when the blue set and the ordering are both empty, nothing is loaded.
pub proof fn law_checkpoint_round_trip(
    d: Map<Seq<u8>, Seq<u8>>,
    genesis: Option<Hash32>,
    blue: Set<Hash32>,
    scores: Map<Hash32, u64>,
    ord: Seq<Hash32>,
    loaded: Option<(Option<Hash32>, KeySet<Hash32>, KeyMap<Hash32, u64>, Vec<Hash32>)>,
)
    requires
        ord.len() <= u64::MAX,
        loads_checkpoint(saved_checkpoint(d, genesis, blue, scores, ord), loaded),
    ensures
        blue.is_empty() && ord.len() == 0 ==> loaded is None,
        !(blue.is_empty() && ord.len() == 0) ==> (loaded matches Some((g, b, sc, o)) && b@ == blue
            && sc@ == stored_scores(d).union_prefer_right(scores) && o@ == ord && g == match genesis {
            Some(h) => if h.0@ == zero_hash_bytes() {
                None
            } else {
                Some(h)
            },
            None => None,
        }),
{
    let mv = meta_value(genesis, ord.len() as u64);
    let d0 = d.insert(meta_key(), mv);
    let d1 = replace_blue(d0, blue);
    let d2 = add_scores(d1, scores);
    let d3 = replace_order(d2, ord);
    lemma_meta_key_in_no_table();
    lemma_meta_insert_tables(d, mv);
    lemma_replace_blue_tables(d0, blue);
    lemma_add_scores_tables(d1, scores);
    lemma_replace_order_tables(d2, ord);
    vstd::bytes::lemma_auto_spec_u64_to_from_le_bytes();
    assert(vstd::bytes::spec_u64_to_le_bytes(ord.len() as u64).len() == 8);
    assert(d3.contains_key(meta_key()) && d3[meta_key()] == mv);
    assert(mv.take(32) =~= match genesis {
        Some(h) => h.0@,
        None => zero_hash_bytes(),
    });
    if ord.len() > 0 {
        assert(positions(ord).contains_key(0));
    } else {
        assert(positions(ord).dom() =~= Set::<u64>::empty());
    }
    assert(blue.is_empty() == (blue == Set::<Hash32>::empty()));
    match loaded {
        Some((g, b, sc, o)) => {
            lemma_positions_order(o@, ord);
            match g {
                Some(x) => {
                    match genesis {
                        Some(h) => {
                            vstd::array::axiom_array_ext_equal(x.0, h.0);
                            assert(x.0 =~= h.0);
                        },
                        None => {},
                    }
                },
                None => {},
            }
        },
        None => {},
    }
}

/// A store holding a checkpoint saved from a consensus state in which every
/// blue block has a score (as in every GhostDAG) can be reopened: its
/// checkpoint gives every blue block a score.
pub proof fn law_saved_checkpoint_consistent(
    d: Map<Seq<u8>, Seq<u8>>,
    genesis: Option<Hash32>,
    blue: Set<Hash32>,
    scores: Map<Hash32, u64>,
    ord: Seq<Hash32>,
)
    requires
        forall|h: Hash32| #[trigger] blue.contains(h) ==> scores.contains_key(h),
    ensures
        checkpoint_consistent(saved_checkpoint(d, genesis, blue, scores, ord)),
{
    let mv = meta_value(genesis, ord.len() as u64);
    let d0 = d.insert(meta_key(), mv);
    let d1 = replace_blue(d0, blue);
    let d2 = add_scores(d1, scores);
    lemma_meta_insert_tables(d, mv);
    lemma_replace_blue_tables(d0, blue);
    lemma_add_scores_tables(d1, scores);
    lemma_replace_order_tables(d2, ord);
}

/// A native transfer between distinct accounts moves the value from the
/// sender to the receiver and takes the fee from the sponsor when there is
/// one, else from the sender; the sender's nonce advances by one
/// (saturating) and every other account is left as it was. So the
/// balances together lose exactly the fee.
pub proof fn law_native_transfer_moves_value(m: Map<Address, AccountState>, tx: Transaction)
    requires
        native_transfer(m, tx) is Ok,
        credit_fits(m, tx),
        tx.from != tx.to,
        !zero_address(tx.to.0),
        tx.sponsor matches Some(s) ==> s != tx.from && s != tx.to,
    ensures
        match native_transfer(m, tx) {
            Ok(m2) => {
                &&& balance_in(m2, tx.from) == balance_in(m, tx.from) - tx.value - (if tx.sponsor is None {
                    tx.fee
                } else {
                    0
                })
                &&& balance_in(m2, tx.to) == balance_in(m, tx.to) + tx.value
                &&& (tx.sponsor matches Some(s) ==> balance_in(m2, s) == balance_in(m, s) - tx.fee)
                &&& nonce_in(m2, tx.from) == next_nonce(nonce_in(m, tx.from))
                &&& nonce_in(m2, tx.to) == nonce_in(m, tx.to)
                &&& (tx.sponsor matches Some(s) ==> nonce_in(m2, s) == nonce_in(m, s))
                &&& forall|a: Address|
                    a != tx.from && a != tx.to && tx.sponsor != Some(a) ==> #[trigger] m2.contains_key(a)
                        == m.contains_key(a) && (m.contains_key(a) ==> m2[a] == m[a])
            },
            Err(_) => true,
        },
{
    let from_balance = balance_in(m, tx.from);
    let new_from = (from_balance - tx.value) as u128;
    let new_nonce = next_nonce(nonce_in(m, tx.from));
    let m1 = match tx.sponsor {
        Some(s) => m.insert(
            s,
            AccountState { balance: (balance_in(m, s) - tx.fee) as u128, nonce: nonce_in(m, s) },
        ).insert(tx.from, AccountState { balance: new_from, nonce: new_nonce }),
        None => m.insert(tx.from, AccountState { balance: (new_from - tx.fee) as u128, nonce: new_nonce }),
    };
    assert(debited(m, tx) == Ok::<Map<Address, AccountState>, Seq<char>>(m1));
    let m2 = m1.insert(
        tx.to,
        AccountState { balance: (balance_in(m1, tx.to) + tx.value) as u128, nonce: nonce_in(m1, tx.to) },
    );
    assert(native_transfer(m, tx) == Ok::<Map<Address, AccountState>, Seq<char>>(m2));
    assert(balance_in(m1, tx.to) == balance_in(m, tx.to));
    assert(nonce_in(m1, tx.to) == nonce_in(m, tx.to));
}


/// Adding a block that was added before is refused, and leaves the chain
/// as it was.
pub proof fn law_added_block_is_refused_again(
    b0: Blockchain,
    b1: Blockchain,
    b2: Blockchain,
    block: Block,
    size1: Result<usize, String>,
    time1: u64,
    size2: Result<usize, String>,
    time2: u64,
    r2: Result<(), BlockchainError>,
)
    requires
        block_added(b0, b1, block, size1, time1, Ok(())),
        block_added(b1, b2, block, size2, time2, r2),
    ensures
        r2 is Err,
        b2 == b1,
{
    assert(b1.hashes().contains(block.hash));
}

/// A refused block is not added: the blocks, their hashes, the latest
/// block number and the replay-protection window stay as they were.
pub proof fn law_refused_block_is_not_added(
    b0: Blockchain,
    b1: Blockchain,
    block: Block,
    size: Result<usize, String>,
    time: u64,
    r: Result<(), BlockchainError>,
)
    requires
        block_added(b0, b1, block, size, time, r),
        r is Err,
    ensures
        b1.blocks() == b0.blocks(),
        b1.hashes() == b0.hashes(),
        b1.latest() == b0.latest(),
        b1.recent() == b0.recent(),
{
}

/// An accepted block is appended to the chain and known by its hash; its
/// hash is the one computed from its contents unless it is the genesis.
pub proof fn law_accepted_block_is_known(
    b0: Blockchain,
    b1: Blockchain,
    block: Block,
    size: Result<usize, String>,
    time: u64,
)
    requires
        block_added(b0, b1, block, size, time, Ok(())),
    ensures
        b1.blocks() == b0.blocks().push(block),
        b1.hashes() == b0.hashes().insert(block.hash),
        !b0.hashes().contains(block.hash),
        block.header.block_number > 0 ==> block.hash.0@ == spec_block_hash(block.header, block.transactions@),
{
}

/// A transaction that carries a chain id other than the chain's never
/// passes the checks that need no state (replay protection, EIP-155).
pub proof fn law_foreign_chain_id_is_refused(tx: Transaction, chain_id: u64, evm_enabled: bool, signature_valid: bool)
    requires
        tx.chain_id matches Some(c) && c != chain_id,
    ensures
        stateless_error(tx, chain_id, evm_enabled, signature_valid) is Some,
{
}

proof fn lemma_prepass_finds(txs: Seq<Transaction>, i: int, j: int, chain_id: u64, evm_enabled: bool, n: u64)
    requires
        0 <= i <= j < txs.len(),
        txs[j].multisig_signatures is None,
        txs[j].chain_id matches Some(c) && c != chain_id,
    ensures
        prepass_error(txs, i, chain_id, evm_enabled, n) is Some,
    decreases j - i,
{
    if i < j {
        lemma_prepass_finds(txs, i + 1, j, chain_id, evm_enabled, n);
    }
}

/// A block holding a (single-signer) transaction signed for another chain
/// is refused, whatever else it holds.
pub proof fn law_block_with_foreign_chain_id_is_refused(
    b0: Blockchain,
    b1: Blockchain,
    block: Block,
    size: Result<usize, String>,
    time: u64,
    r: Result<(), BlockchainError>,
    j: int,
)
    requires
        block_added(b0, b1, block, size, time, r),
        0 <= j < block.transactions@.len(),
        block.transactions@[j].multisig_signatures is None,
        block.transactions@[j].chain_id matches Some(c) && c != b0.chain_id_spec(),
    ensures
        r is Err,
{
    lemma_prepass_finds(block.transactions@, 0, j, b0.chain_id_spec(), b0.evm_on(), block.header.block_number);
}

/// Once a transaction's output is recorded as spent in one block, a
/// transaction with the same sender and nonce in any other block fails the
/// double-spend check, while the same block may repeat it.
pub proof fn law_recorded_output_is_double_spend_elsewhere(
    s0: SpentOutputs,
    s1: SpentOutputs,
    tx: Transaction,
    block_hash: Hash32,
    block_number: u64,
    other: Transaction,
    other_block: Hash32,
)
    requires
        s1@ == s0@.insert(key_of(tx), (block_hash, block_number)),
        key_of(other) == key_of(tx),
    ensures
        s1@.contains_key(key_of(other)),
        s1@[key_of(other)].0 != other_block <==> other_block != block_hash,
{
}

/// Rolling back a block forgets the outputs it spent, so a transaction
/// with the same sender and nonce passes the double-spend check again;
/// outputs spent by other blocks are kept.
pub proof fn law_rollback_undoes_record(
    s0: SpentOutputs,
    s1: SpentOutputs,
    s2: SpentOutputs,
    tx: Transaction,
    block_hash: Hash32,
    block_number: u64,
)
    requires
        s1@ == s0@.insert(key_of(tx), (block_hash, block_number)),
        s2@ == s1@.restrict(s1@.dom().filter(|k: crate::validation::SpentKey| s1@[k].0 != block_hash)),
    ensures
        !s2@.contains_key(key_of(tx)),
        forall|k: crate::validation::SpentKey|
            #[trigger] s0@.contains_key(k) && k != key_of(tx) && s0@[k].0 != block_hash ==> s2@.contains_key(k)
                && s2@[k] == s0@[k],
{
}

/// A sponsorship that the daily-limit check approves, once recorded,
/// keeps the spend of the current window within the daily limit.
pub proof fn law_approved_spend_stays_within_limit(p: SponsorPolicy, fee: u128, current_block: u64)
    requires
        p.daily_spend_limit matches Some(limit) && fee_sum(
            if in_window(p.window_start_block, current_block) {
                p.spent_in_window
            } else {
                0
            },
            fee,
        ) <= limit,
    ensures
        spend_recorded(p, fee, current_block).spent_in_window <= p.daily_spend_limit->0,
{
}


/// Full validation of a transaction refuses oversized data, a value above
/// the maximum or a value and fee that overflow together, a zero or too
/// large gas limit, and a nonce other than the sender's account nonce.
pub proof fn law_validation_refusals(
    accounts: Map<Address, AccountState>,
    chain_id: u64,
    evm_enabled: bool,
    tx: Transaction,
    current_block: u64,
)
    requires
        tx.data@.len() > MAX_TX_DATA_SIZE || tx.value > MAX_TX_VALUE || tx.value + tx.fee > u128::MAX
            || tx.gas_limit == 0 || tx.gas_limit > MAX_GAS_LIMIT || tx.nonce != nonce_in(accounts, tx.from),
    ensures
        full_error(accounts, chain_id, evm_enabled, tx, current_block) is Some,
{
}


/// The active hash version is never 0: applying any scheduled actions to
/// a nonzero version (such as the initial one) leaves a nonzero version.
pub proof fn law_active_version_never_zero(active: u8, acts: Seq<ScheduledAction>)
    requires
        active != 0,
    ensures
        applied_version(active, acts) != 0,
    decreases acts.len(),
{
    if acts.len() > 0 {
        law_active_version_never_zero(active, acts.drop_last());
    }
}


/// The version after applying `acts` is the starting one or the version
/// set by one of them.
proof fn lemma_applied_from(active: u8, acts: Seq<ScheduledAction>)
    ensures
        applied_version(active, acts) == active || exists|j: int|
            0 <= j < acts.len() && acts[j].action == GovernanceAction::SetHashAlgorithm(
                applied_version(active, acts),
            ),
    decreases acts.len(),
{
    if acts.len() > 0 {
        lemma_applied_from(active, acts.drop_last());
        let prev = applied_version(active, acts.drop_last());
        if applied_version(active, acts) != prev {
            assert(acts.last().action == GovernanceAction::SetHashAlgorithm(applied_version(active, acts)));
        } else if prev != active {
            let j = choose|j: int|
                0 <= j < acts.drop_last().len() && acts.drop_last()[j].action
                    == GovernanceAction::SetHashAlgorithm(prev);
            assert(acts[j] == acts.drop_last()[j]);
        }
    }
}

/// One call on a scheduler: `schedule`, which keeps the active version, or
/// `apply_at_height` at some height.
pub open spec fn scheduler_step(a: GovernanceScheduler, b: GovernanceScheduler) -> bool {
    ||| b.active() == a.active()
    ||| exists|h: u64|
        b.pending_seq() == waiting_at(a.pending_seq(), h) && b.active() == applied_version(
            a.active(),
            #[trigger] due_at(a.pending_seq(), h),
        )
}

/// Over any sequence of `schedule` and `apply_at_height` calls from a new
/// scheduler, the active hash version never becomes the reserved 0: it is
/// the initial BLAKE3 version or the version of an action that was
/// scheduled in an earlier state.
pub proof fn law_active_version_stays_set(states: Seq<GovernanceScheduler>)
    requires
        states.len() >= 1,
        states[0].active() == HASH_VERSION_BLAKE3,
        forall|i: int| 0 <= i < states.len() - 1 ==> scheduler_step(#[trigger] states[i], states[i + 1]),
    ensures
        forall|k: int|
            0 <= k < states.len() ==> #[trigger] states[k].active() != 0 && (states[k].active()
                == HASH_VERSION_BLAKE3 || exists|i: int, j: int|
                0 <= i < k && 0 <= j < states[i].pending_seq().len() && states[i].pending_seq()[j].action
                    == GovernanceAction::SetHashAlgorithm(states[k].active())),
    decreases states.len(),
{
    if states.len() > 1 {
        let prev = states.drop_last();
        assert forall|i: int| 0 <= i < prev.len() - 1 implies scheduler_step(#[trigger] prev[i], prev[i + 1]) by {
            assert(prev[i] == states[i] && prev[i + 1] == states[i + 1]);
            assert(scheduler_step(states[i], states[i + 1]));
        }
        law_active_version_stays_set(prev);
        let k = states.len() - 1;
        let a = states[k - 1];
        let b = states[k];
        assert(prev[k - 1] == a);
        assert(scheduler_step(states[k - 1], states[k]));
        assert(a.active() != 0);
        if b.active() != a.active() {
            let h = choose|h: u64|
                b.pending_seq() == waiting_at(a.pending_seq(), h) && b.active() == applied_version(
                    a.active(),
                    #[trigger] due_at(a.pending_seq(), h),
                );
            let due = due_at(a.pending_seq(), h);
            law_active_version_never_zero(a.active(), due);
            lemma_applied_from(a.active(), due);
            let j = choose|j: int|
                0 <= j < due.len() && due[j].action == GovernanceAction::SetHashAlgorithm(b.active());
            assert(due.contains(due[j]));
            a.pending_seq().lemma_filter_contains_rev(
                |x: ScheduledAction| x.activation_height <= h,
                due[j],
            );
            let j2 = choose|j2: int| 0 <= j2 < a.pending_seq().len() && a.pending_seq()[j2] == due[j];
            assert(states[k - 1].pending_seq()[j2].action == GovernanceAction::SetHashAlgorithm(b.active()));
        } else {
            if a.active() != HASH_VERSION_BLAKE3 {
                let (i, j) = choose|i: int, j: int|
                    0 <= i < k - 1 && 0 <= j < states[i].pending_seq().len() && states[i].pending_seq()[j].action
                        == GovernanceAction::SetHashAlgorithm(a.active());
                assert(states[i].pending_seq()[j].action == GovernanceAction::SetHashAlgorithm(states[k].active()));
            }
        }
        assert forall|m: int| 0 <= m < states.len() implies #[trigger] states[m].active() != 0 && (states[m].active()
            == HASH_VERSION_BLAKE3 || exists|i: int, j: int|
            0 <= i < m && 0 <= j < states[i].pending_seq().len() && states[i].pending_seq()[j].action
                == GovernanceAction::SetHashAlgorithm(states[m].active())) by {
            if m < k {
                assert(prev[m] == states[m]);
                assert(prev[m].active() != 0);
                if states[m].active() != HASH_VERSION_BLAKE3 {
                    let (i, j) = choose|i: int, j: int|
                        0 <= i < m && 0 <= j < prev[i].pending_seq().len() && prev[i].pending_seq()[j].action
                            == GovernanceAction::SetHashAlgorithm(prev[m].active());
                    assert(prev[i] == states[i]);
                }
            }
        }
    }
}

/// Saving an ordering to a store (`save_ordering`, which takes `before` to
/// `after`) and loading it back (`load_ordering` on `after`) gives the same
/// ordering, whatever ordering was saved before; without a database,
/// saving changes nothing and loading gives the empty ordering.
pub proof fn law_ordering_round_trip(
    before: HybridDagStorage,
    after: HybridDagStorage,
    ord: Seq<Hash32>,
    loaded: Seq<Hash32>,
)
    requires
        ord.len() <= usize::MAX,
        after.disk() == match before.disk() {
            None => None,
            Some(d) => Some(replace_order(d, ord)),
        },
        in_position_order(loaded, match after.disk() {
            None => Map::<u64, Seq<u8>>::empty(),
            Some(d) => stored_order(d),
        }),
    ensures
        before.disk() is Some ==> loaded == ord,
        before.disk() is None ==> loaded == Seq::<Hash32>::empty(),
{
    match before.disk() {
        Some(d) => {
            lemma_replace_order_tables(d, ord);
            lemma_positions_order(loaded, ord);
        },
        None => {
            assert(positions(Seq::<Hash32>::empty()) =~= Map::<u64, Seq<u8>>::empty());
            lemma_positions_order(loaded, Seq::<Hash32>::empty());
        },
    }
}

/// A sponsorship that passes the policy's other rules is accepted exactly
/// when the fees counted in the current window plus `fee` stay within the
/// daily limit (a sum past the largest fee counts as the largest fee). The
/// window's spend counts only while fewer than `BLOCKS_PER_DAY` blocks have
/// passed since it started; after that it counts as nothing.
pub proof fn law_sponsor_daily_limit(p: SponsorPolicy, sender: Address, fee: u128, current_block: u64)
    requires
        p.active,
        !(p.expires_at_block matches Some(e) && current_block > e),
        p.allowed_senders matches Some(list) ==> list@.contains(sender),
        !(p.max_fee_per_tx matches Some(m) && fee > m),
    ensures
        sponsor_error(Some(p), sender, fee, current_block) is None <==> match p.daily_spend_limit {
            None => true,
            Some(limit) => {
                let counted: int = if current_block >= p.window_start_block + BLOCKS_PER_DAY {
                    0
                } else {
                    p.spent_in_window as int
                };
                counted + fee <= limit || limit == u128::MAX
            },
        },
{
}

/// Once the spend window has elapsed, the spend recorded in it has no
/// effect on whether a sponsorship is accepted.
pub proof fn law_sponsor_elapsed_window_forgotten(
    p: SponsorPolicy,
    sender: Address,
    fee: u128,
    current_block: u64,
    other_spend: u128,
)
    requires
        current_block >= p.window_start_block + BLOCKS_PER_DAY,
    ensures
        sponsor_error(Some(p), sender, fee, current_block) == sponsor_error(
            Some(SponsorPolicy { spent_in_window: other_spend, ..p }),
            sender,
            fee,
            current_block,
        ),
{
}

/// Validation accepts a multi-signature transaction exactly when it has at
/// least `threshold` signatures, from distinct expected signers, and every
/// one of them (not only the first `threshold`) is a non-empty 64-byte
/// Ed25519 signature that verifies, under its 32-byte key, over the
/// transaction hash.
pub proof fn law_valid_multisig_has_only_good_signatures(tx: MultiSigTransaction)
    ensures
        spec_validation(tx) == MultiSigValidationResult::Valid <==> {
            let sigs = tx.signatures@;
            &&& sigs.len() >= tx.threshold
            &&& forall|i: int, j: int| 0 <= i < j < sigs.len() ==> sigs[i].signer != sigs[j].signer
            &&& forall|i: int| 0 <= i < sigs.len() ==> tx.expected_signers@.contains(#[trigger] sigs[i].signer)
            &&& forall|i: int|
                0 <= i < sigs.len() ==> {
                    &&& (#[trigger] sigs[i]).signature@.len() == 64
                    &&& sigs[i].public_key@.len() == 32
                    &&& ed25519_strictly_verifies(
                        tx.transaction.hash.0@,
                        sigs[i].signature@,
                        sigs[i].public_key@,
                    )
                }
        },
{
    let sigs = tx.signatures@;
    let n = sigs.len() as int;
    let dup = crate::multisig::dup_at(sigs);
    let unknown = crate::multisig::unknown_at(sigs, tx.expected_signers@);
    let bad = crate::multisig::bad_sig_at(sigs, tx.transaction.hash);
    crate::collections::lemma_first_where_found(dup, 0, n);
    crate::collections::lemma_first_where_found(unknown, 0, n);
    crate::collections::lemma_first_where_found(bad, 0, n);
    if spec_validation(tx) == MultiSigValidationResult::Valid {
        assert forall|i: int, j: int| 0 <= i < j < sigs.len() implies sigs[i].signer != sigs[j].signer by {
            assert(!dup(j));
        }
        assert forall|i: int| 0 <= i < sigs.len() implies tx.expected_signers@.contains(#[trigger] sigs[i].signer) by {
            assert(!unknown(i));
        }
        assert forall|i: int| 0 <= i < sigs.len() implies {
            &&& (#[trigger] sigs[i]).signature@.len() == 64
            &&& sigs[i].public_key@.len() == 32
            &&& ed25519_strictly_verifies(tx.transaction.hash.0@, sigs[i].signature@, sigs[i].public_key@)
        } by {
            assert(!bad(i));
        }
    } else {
        if sigs.len() >= tx.threshold && (forall|i: int, j: int|
            0 <= i < j < sigs.len() ==> sigs[i].signer != sigs[j].signer) && (forall|i: int|
            0 <= i < sigs.len() ==> tx.expected_signers@.contains(#[trigger] sigs[i].signer)) {
            if let Some(i) = crate::collections::first_where(dup, 0, n) {
                assert(dup(i));
                let j = choose|j: int| 0 <= j < i && sigs[j].signer == sigs[i].signer;
                assert(sigs[j].signer != sigs[i].signer);
            }
            if let Some(i) = crate::collections::first_where(unknown, 0, n) {
                assert(unknown(i));
                assert(tx.expected_signers@.contains(sigs[i].signer));
            }
            assert(crate::collections::first_where(dup, 0, n) is None);
            assert(crate::collections::first_where(unknown, 0, n) is None);
            assert(crate::collections::first_where(bad, 0, n) is Some);
            let i = crate::collections::first_where(bad, 0, n)->0;
            assert(bad(i));
            assert(!({
                &&& (#[trigger] sigs[i]).signature@.len() == 64
                &&& sigs[i].public_key@.len() == 32
                &&& ed25519_strictly_verifies(tx.transaction.hash.0@, sigs[i].signature@, sigs[i].public_key@)
            }));
        }
    }
}

/// An action setting a nonzero version makes that version active, whatever
/// was active before, unless a later action sets another nonzero version:
/// after a run of actions, the last nonzero version set is the active one.
pub proof fn law_last_nonzero_version_wins(active: u8, acts: Seq<ScheduledAction>, j: int, v: u8)
    requires
        0 <= j < acts.len(),
        acts[j].action == GovernanceAction::SetHashAlgorithm(v),
        v != 0,
        forall|k: int| j < k < acts.len() ==> (#[trigger] acts[k]).action == GovernanceAction::SetHashAlgorithm(0),
    ensures
        applied_version(active, acts) == v,
    decreases acts.len(),
{
    if j < acts.len() - 1 {
        assert(acts.last() == acts[acts.len() - 1]);
        assert forall|k: int| j < k < acts.drop_last().len() implies (#[trigger] acts.drop_last()[k]).action
            == GovernanceAction::SetHashAlgorithm(0) by {
            assert(acts.drop_last()[k] == acts[k]);
        }
        assert(acts.drop_last()[j] == acts[j]);
        law_last_nonzero_version_wins(active, acts.drop_last(), j, v);
    }
}

/// Actions that all set version 0 leave the active version as it was.
pub proof fn law_zero_versions_change_nothing(active: u8, acts: Seq<ScheduledAction>)
    requires
        forall|k: int| 0 <= k < acts.len() ==> (#[trigger] acts[k]).action == GovernanceAction::SetHashAlgorithm(0),
    ensures
        applied_version(active, acts) == active,
    decreases acts.len(),
{
    if acts.len() > 0 {
        assert(acts.last() == acts[acts.len() - 1]);
        assert forall|k: int| 0 <= k < acts.drop_last().len() implies (#[trigger] acts.drop_last()[k]).action
            == GovernanceAction::SetHashAlgorithm(0) by {
            assert(acts.drop_last()[k] == acts[k]);
        }
        law_zero_versions_change_nothing(active, acts.drop_last());
    }
}

/// A transaction whose block-height lock or timestamp lock has not been
/// reached at the block's number and timestamp is refused.
pub proof fn law_time_locked_tx_refused(
    v: (Map<Address, AccountState>, Map<crate::validation::SpentKey, (Hash32, u64)>, Map<Address, SponsorPolicy>),
    recent: Seq<Seq<Hash32>>,
    chain_id: u64,
    evm_enabled: bool,
    tx: Transaction,
    block_hash: Hash32,
    current_block: u64,
    current_timestamp: u64,
)
    requires
        (tx.execute_at_block matches Some(b) && current_block < b) || (tx.execute_at_timestamp matches Some(t)
            && current_timestamp < t),
    ensures
        tx_step(v, recent, chain_id, evm_enabled, tx, block_hash, current_block, current_timestamp) is Err,
{
}

/// A block holding a transaction whose lock has not been reached at the
/// block's number and timestamp is refused by `add_block`; when that
/// transaction is the first, the accounts are left as they were.
pub proof fn law_block_with_time_locked_tx_refused(
    before: Blockchain,
    after: Blockchain,
    block: Block,
    serialized_size: Result<usize, String>,
    current_time: u64,
    r: Result<(), BlockchainError>,
    k: int,
)
    requires
        block_added(before, after, block, serialized_size, current_time, r),
        0 <= k < block.transactions@.len(),
        (block.transactions@[k].execute_at_block matches Some(b) && block.header.block_number < b)
            || (block.transactions@[k].execute_at_timestamp matches Some(t) && block.header.timestamp < t),
    ensures
        r is Err,
        k == 0 ==> after.accounts() == before.accounts(),
{
    let txs = block.transactions@;
    let v = view_of(before);
    let recent = before.recent();
    let cid = before.chain_id_spec();
    let evm = before.evm_on();
    let n = block.header.block_number;
    let ts = block.header.timestamp;
    law_time_locked_tx_refused(
        v,
        recent,
        cid,
        evm,
        txs[k],
        block.hash,
        n,
        ts,
    );
    let t1 = txs.take(k + 1);
    assert(t1.drop_last() =~= txs.take(k));
    assert(t1.last() == txs[k]);
    if let Ok(w) = tx_run(v, recent, cid, evm, txs.take(k), block.hash, n, ts) {
        law_time_locked_tx_refused(w, recent, cid, evm, txs[k], block.hash, n, ts);
    }
    assert(tx_run(v, recent, cid, evm, t1, block.hash, n, ts) is Err);
    lemma_run_refused(v, recent, cid, evm, txs, block.hash, n, ts, k + 1, txs.len() as int);
    assert(txs.take(txs.len() as int) =~= txs);
    if k == 0 {
        assert(txs.take(0) =~= Seq::<Transaction>::empty());
        assert(tx_run(v, recent, cid, evm, t1, block.hash, n, ts) matches Err((e, w)) && w == v);
    }
}

/// A transaction with no fee from an address other than the zero address
/// is refused, by full validation and by the checks needing no state alike.
pub proof fn law_zero_fee_refused(
    accounts: Map<Address, AccountState>,
    chain_id: u64,
    evm_enabled: bool,
    tx: Transaction,
    current_block: u64,
    signature_valid: bool,
    i: int,
)
    requires
        tx.fee == 0,
        0 <= i < 20,
        tx.from.0@[i] != 0,
    ensures
        full_error(accounts, chain_id, evm_enabled, tx, current_block) is Some,
        stateless_error(tx, chain_id, evm_enabled, signature_valid) is Some,
{
    assert(!zero_address(tx.from.0));
}

/// A sponsorship is refused when the sponsor has no policy, or its policy
/// is paused, expired (the block is past the expiry block), does not list
/// the sender, or caps the fee below `fee`.
pub proof fn law_sponsor_refusals(policy: Option<SponsorPolicy>, sender: Address, fee: u128, current_block: u64)
    requires
        policy matches Some(p) ==> (!p.active || (p.expires_at_block matches Some(e) && current_block > e)
            || (p.allowed_senders matches Some(list) && !list@.contains(sender)) || (p.max_fee_per_tx matches Some(
            m,
        ) && fee > m)),
    ensures
        sponsor_error(policy, sender, fee, current_block) is Some,
{
}

/// Fewer signatures than the threshold are reported as insufficient, with
/// the threshold and the number provided.
pub proof fn law_multisig_insufficient(tx: MultiSigTransaction)
    requires
        tx.signatures@.len() < tx.threshold,
    ensures
        spec_validation(tx) == (MultiSigValidationResult::InsufficientSignatures {
            required: tx.threshold,
            provided: tx.signatures@.len() as u8,
        }),
{
}

/// At height `h`, exactly the actions scheduled at or below `h` are due
/// (and applied), in their list order; the others keep waiting.
pub proof fn law_due_and_waiting(acts: Seq<ScheduledAction>, h: u64, a: ScheduledAction)
    ensures
        due_at(acts, h).contains(a) <==> (acts.contains(a) && a.activation_height <= h),
        waiting_at(acts, h).contains(a) <==> (acts.contains(a) && a.activation_height > h),
{
    let pd = |x: ScheduledAction| x.activation_height <= h;
    let pw = |x: ScheduledAction| x.activation_height > h;
    if due_at(acts, h).contains(a) {
        acts.lemma_filter_contains_rev(pd, a);
        let i = choose|i: int| 0 <= i < acts.filter(pd).len() && acts.filter(pd)[i] == a;
        acts.lemma_filter_pred(pd, i);
    }
    if acts.contains(a) && a.activation_height <= h {
        let i = choose|i: int| 0 <= i < acts.len() && acts[i] == a;
        acts.lemma_filter_contains(pd, i);
    }
    if waiting_at(acts, h).contains(a) {
        acts.lemma_filter_contains_rev(pw, a);
        let i = choose|i: int| 0 <= i < acts.filter(pw).len() && acts.filter(pw)[i] == a;
        acts.lemma_filter_pred(pw, i);
    }
    if acts.contains(a) && a.activation_height > h {
        let i = choose|i: int| 0 <= i < acts.len() && acts[i] == a;
        acts.lemma_filter_contains(pw, i);
    }
}

} // verus!
