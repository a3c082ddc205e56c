//! Block storage for the DAG: a bounded cache of recent blocks with their
//! children, blue-set membership and blue scores. Blocks evicted from the
//! cache are remembered as finalized.
use vstd::prelude::*;
use vstd::bytes::{spec_u64_from_le_bytes, spec_u64_to_le_bytes};

use crate::block::{copy_hashes, push_all, same_block, Block};
use crate::collections::{
    Key,
    lemma_not_in_prefix, lemma_push_contains, lemma_remove_no_dup, lemma_take_succ, KeyMap, KeySet,
};
use crate::consensus::checkpoint::{
    add_scores, blue_key, from_be_u64, hash_at, in_position_order, in_table, lemma_hash_key,
    lemma_keys_distinct, lemma_order_key, lemma_order_key_index, lemma_prefix_one, sort_by_position,
    genesis_matches, lemma_add_no_scores, lemma_add_scores_insert, lemma_position_order_empty, meta_key, meta_value, order_key,
    positions, prefixed, read_be, read_score, replace_blue, replace_order, saved_checkpoint,
    score_bytes, score_key, stored_blue, stored_order, stored_scores, be_bytes, meta_key_bytes,
    zero_hash_bytes, PREFIX_BLUE_SCORE, PREFIX_BLUE_SET, PREFIX_ORDERING,
};
use crate::database::{has_prefix, Database};
use crate::error::BlockchainError;
use crate::types::{bytes_equal, Hash32};

verus! {

/// Configuration for DAG storage.
pub struct DagStorageConfig {
    /// Number of recent blocks to keep in the cache.
    pub hot_cache_size: usize,
    /// Depth after which blocks are considered finalized.
    pub finalized_depth: usize,
    /// Blocks with at least this many confirmations are checkpointed (pruned
    /// from the consensus state); 0 disables checkpoint pruning.
    pub confirmations_for_checkpoint: usize,
}

impl Default for DagStorageConfig {
    fn default() -> (c: Self)
        ensures
            c.hot_cache_size == 1000,
            c.finalized_depth == 500,
            c.confirmations_for_checkpoint == 100,
    {
        DagStorageConfig { hot_cache_size: 1000, finalized_depth: 500, confirmations_for_checkpoint: 100 }
    }
}

/// Statistics for DAG pruning operations.
#[derive(Debug, Clone, Default)]
pub struct PruningStats {
    pub hot_block_count: usize,
    pub finalized_count: usize,
    pub red_blocks_pruned: usize,
    pub last_prune_height: u64,
}

/// How many entries must leave a cache of `len` entries to fit in `cap`.
pub open spec fn excess(len: nat, cap: nat) -> nat {
    if len > cap {
        (len - cap) as nat
    } else {
        0
    }
}

/// The insertion order after adding `h`: unchanged when `h` is already cached.
pub open spec fn order_after_insert(order: Seq<Hash32>, present: bool, h: Hash32) -> Seq<Hash32> {
    if present {
        order
    } else {
        order.push(h)
    }
}

/// A map of hash lists, each taken by its view.
pub open spec fn vec_views(m: Map<Hash32, Vec<Hash32>>) -> Map<Hash32, Seq<Hash32>> {
    Map::new(|k: Hash32| m.contains_key(k), |k: Hash32| m[k]@)
}

proof fn lemma_vec_views_remove(m: Map<Hash32, Vec<Hash32>>, h: Hash32)
    ensures
        vec_views(m.remove(h)) == vec_views(m).remove(h),
{
    assert(vec_views(m.remove(h)) =~= vec_views(m).remove(h));
}

proof fn lemma_remove_keys_step<V>(m: Map<Hash32, V>, s: Set<Hash32>, h: Hash32)
    ensures
        m.remove_keys(s).remove(h) == m.remove_keys(s.insert(h)),
{
    assert(m.remove_keys(s).remove(h) =~= m.remove_keys(s.insert(h)));
}

/// Every hash listed as a child of some block in `m`.
pub open spec fn pool(m: Map<Hash32, Seq<Hash32>>) -> Set<Hash32> {
    Set::new(|x: Hash32| exists|p: Hash32| #[trigger] m.contains_key(p) && m[p].contains(x))
}

/// A finite map of lists lists finitely many hashes.
pub proof fn lemma_pool_finite(m: Map<Hash32, Seq<Hash32>>)
    requires
        m.dom().finite(),
    ensures
        pool(m).finite(),
    decreases m.dom().len(),
{
    if m.dom().len() == 0 {
        assert(pool(m) =~= Set::<Hash32>::empty()) by {
            assert forall|x: Hash32| !pool(m).contains(x) by {
                if pool(m).contains(x) {
                    let p = choose|p: Hash32| #[trigger] m.contains_key(p) && m[p].contains(x);
                    assert(m.dom().contains(p));
                }
            }
        }
    } else {
        let k = m.dom().choose();
        let rest = m.remove(k);
        lemma_pool_finite(rest);
        assert(pool(m) =~= pool(rest).union(m[k].to_set())) by {
            assert forall|x: Hash32| #[trigger] pool(m).contains(x) <==> pool(rest).union(
                m[k].to_set(),
            ).contains(x) by {
                if pool(m).contains(x) {
                    let p = choose|p: Hash32| #[trigger] m.contains_key(p) && m[p].contains(x);
                    if p != k {
                        assert(rest.contains_key(p));
                    }
                }
                if pool(rest).contains(x) {
                    let p = choose|p: Hash32| #[trigger] rest.contains_key(p) && rest[p].contains(x);
                    assert(m.contains_key(p));
                }
                if m[k].to_set().contains(x) {
                    assert(m.contains_key(k));
                }
            }
        }
    }
}

/// Whether `h` is one of `hs`.
pub fn hash_in(hs: &[Hash32], h: &Hash32) -> (r: bool)
    ensures
        r == hs@.contains(*h),
{
    let mut i: usize = 0;
    while i < hs.len()
        invariant
            i <= hs@.len(),
            forall|j: int| 0 <= j < i ==> hs@[j] != *h,
        decreases hs@.len() - i,
    {
        if hs[i].same(h) {
            return true;
        }
        i = i + 1;
    }
    false
}

/// The entries of `order` that are not among `drop`, in order.
pub fn retain_not_in(order: &Vec<Hash32>, drop: &[Hash32]) -> (r: Vec<Hash32>)
    ensures
        r@ == order@.filter(|h: Hash32| !drop@.contains(h)),
        forall|x: Hash32| #[trigger] r@.contains(x) <==> (order@.contains(x) && !drop@.contains(x)),
        order@.no_duplicates() ==> r@.no_duplicates(),
{
    let ghost p = |h: Hash32| !drop@.contains(h);
    let mut out: Vec<Hash32> = Vec::new();
    let mut i: usize = 0;
    proof {
        assert(order@.take(0) =~= Seq::<Hash32>::empty());
        reveal(Seq::filter);
    }
    while i < order.len()
        invariant
            i <= order@.len(),
            p == (|h: Hash32| !drop@.contains(h)),
            out@ == order@.take(i as int).filter(p),
            forall|x: Hash32| #[trigger]
                out@.contains(x) <==> (order@.take(i as int).contains(x) && !drop@.contains(x)),
            order@.no_duplicates() ==> out@.no_duplicates(),
        decreases order@.len() - i,
    {
        let h = order[i];
        let ghost prev = out@;
        proof {
            lemma_take_succ(order@, i as int);
            order@.take(i as int).lemma_filter_push(h, p);
            lemma_push_contains(prev, h);
        }
        if !hash_in(drop, &h) {
            proof {
                if order@.no_duplicates() {
                    lemma_not_in_prefix(order@, i as int);
                    assert(!prev.contains(h));
                    assert(prev.push(h).no_duplicates()) by {
                        assert forall|a: int, b: int|
                            0 <= a < prev.len() + 1 && 0 <= b < prev.len() + 1 && a != b implies prev.push(h)[a] != prev.push(h)[b] by {
                            if a < prev.len() && b < prev.len() {
                            } else if a < prev.len() {
                                assert(prev.contains(prev[a]));
                            } else {
                                assert(prev.contains(prev[b]));
                            }
                        }
                    }
                }
            }
            out.push(h);
        }
        i = i + 1;
    }
    proof {
        assert(order@.take(order@.len() as int) =~= order@);
    }
    out
}

/// Hybrid storage for the DAG: a cache of recent blocks, evicted oldest
/// first, with parent-child links, blue-set membership and blue scores.
pub struct HybridDagStorage {
    /// Cached blocks by hash.
    hot_blocks: KeyMap<Hash32, Block>,
    /// Hashes of the cached blocks in insertion order (first = oldest).
    hot_blocks_order: Vec<Hash32>,
    /// Children of each block.
    hot_children: KeyMap<Hash32, Vec<Hash32>>,
    /// Blue-set membership.
    hot_blue_set: KeySet<Hash32>,
    /// Blue scores.
    hot_blue_scores: KeyMap<Hash32, u64>,
    config: DagStorageConfig,
    /// Blocks that have left the cache.
    finalized_blocks: KeySet<Hash32>,
    /// Blocks added since the last checkpoint.
    blocks_since_checkpoint: usize,
    /// Persistent store of the consensus checkpoint, if any.
    database: Option<Database>,
}

impl HybridDagStorage {
    /// The containers are well formed, the insertion order lists each cached
    /// block once, and each block is cached under its own hash.
    pub closed spec fn wf(&self) -> bool {
        &&& self.hot_blocks.wf()
        &&& self.hot_children.wf()
        &&& self.hot_blue_set.wf()
        &&& self.hot_blue_scores.wf()
        &&& self.finalized_blocks.wf()
        &&& self.hot_blocks_order@.no_duplicates()
        &&& self.hot_blocks_order@.to_set() == self.hot_blocks@.dom()
        &&& forall|h: Hash32| #[trigger]
            self.hot_blocks@.contains_key(h) ==> self.hot_blocks@[h].hash == h
        &&& self.database matches Some(d) ==> d.wf()
    }

    /// The entries of the persistent store, when there is one.
    pub closed spec fn disk(&self) -> Option<Map<Seq<u8>, Seq<u8>>> {
        match self.database {
            Some(d) => Some(d@),
            None => None,
        }
    }

    /// Cached blocks by hash.
    pub closed spec fn blocks(&self) -> Map<Hash32, Block> {
        self.hot_blocks@
    }

    /// Cached hashes in insertion order.
    pub closed spec fn order(&self) -> Seq<Hash32> {
        self.hot_blocks_order@
    }

    /// Children lists by parent hash.
    pub closed spec fn children(&self) -> Map<Hash32, Seq<Hash32>> {
        vec_views(self.hot_children@)
    }

    /// Blue-set membership.
    pub closed spec fn blue(&self) -> Set<Hash32> {
        self.hot_blue_set@
    }

    /// Blue scores.
    pub closed spec fn scores(&self) -> Map<Hash32, u64> {
        self.hot_blue_scores@
    }

    /// Hashes of the blocks that left the cache.
    pub closed spec fn finalized(&self) -> Set<Hash32> {
        self.finalized_blocks@
    }

    /// Capacity of the cache.
    pub closed spec fn cache_size(&self) -> usize {
        self.config.hot_cache_size
    }

    /// Confirmations before a block is checkpointed.
    pub closed spec fn checkpoint_confirmations(&self) -> usize {
        self.config.confirmations_for_checkpoint
    }

    /// Blocks added since the last checkpoint.
    pub closed spec fn counter(&self) -> usize {
        self.blocks_since_checkpoint
    }

    pub proof fn lemma_wf(&self)
        requires
            self.wf(),
        ensures
            self.blocks().dom().finite(),
            self.blue().finite(),
            self.finalized().finite(),
            self.order().no_duplicates(),
            self.order().len() == self.blocks().dom().len(),
            forall|h: Hash32| #[trigger] self.order().contains(h) <==> self.blocks().contains_key(h),
            forall|h: Hash32| #[trigger]
                self.blocks().contains_key(h) ==> self.blocks()[h].hash == h,
            self.children().dom().finite(),
            pool(self.children()).finite(),
    {
        self.hot_blocks.lemma_seqs();
        self.hot_children.lemma_seqs();
        assert(self.children().dom() =~= self.hot_children@.dom());
        lemma_pool_finite(self.children());
        self.hot_blue_set.lemma_seq();
        self.finalized_blocks.lemma_seq();
        self.hot_blocks_order@.unique_seq_to_set();
        assert forall|h: Hash32| #[trigger] self.order().contains(h) <==> self.blocks().contains_key(
            h,
        ) by {
            assert(self.hot_blocks_order@.to_set().contains(h) == self.order().contains(h));
        }
    }

    /// An empty storage with the given configuration.
    pub fn new(config: DagStorageConfig) -> (s: Self)
        ensures
            s.wf(),
            s.blocks() == Map::<Hash32, Block>::empty(),
            s.order() == Seq::<Hash32>::empty(),
            s.children() == Map::<Hash32, Seq<Hash32>>::empty(),
            s.blue() == Set::<Hash32>::empty(),
            s.scores() == Map::<Hash32, u64>::empty(),
            s.finalized() == Set::<Hash32>::empty(),
            s.cache_size() == config.hot_cache_size,
            s.checkpoint_confirmations() == config.confirmations_for_checkpoint,
            s.counter() == 0,
            s.disk() is None,
    {
        let s = HybridDagStorage {
            hot_blocks: KeyMap::new(),
            hot_blocks_order: Vec::new(),
            hot_children: KeyMap::new(),
            hot_blue_set: KeySet::new(),
            hot_blue_scores: KeyMap::new(),
            config,
            finalized_blocks: KeySet::new(),
            blocks_since_checkpoint: 0,
            database: None,
        };
        proof {
            assert(s.hot_blocks_order@.to_set() =~= Set::<Hash32>::empty());
            assert(s.children() =~= Map::<Hash32, Seq<Hash32>>::empty());
        }
        s
    }

    /// The cached block with hash `hash`, if any.
    pub fn get_block(&self, hash: &Hash32) -> (r: Result<Option<Block>, BlockchainError>)
        requires
            self.wf(),
        ensures
            r matches Ok(o) && (o is Some <==> self.blocks().contains_key(*hash)),
            r matches Ok(Some(b)) ==> same_block(b, self.blocks()[*hash]),
    {
        match self.hot_blocks.get(hash) {
            Some(b) => Ok(Some(b.duplicate())),
            None => Ok(None),
        }
    }

    /// Adds a block to the cache (a copy of it), then evicts the oldest
    /// cached blocks while the cache is over capacity; evicted blocks lose
    /// their children, blue-set and blue-score entries and become finalized.
    pub fn add_block(&mut self, block: &Block) -> (r: Result<(), BlockchainError>)
        requires
            old(self).wf(),
        ensures
            r is Ok,
            final(self).wf(),
            ({
                let h = block.hash;
                let present = old(self).blocks().contains_key(h);
                let order1 = order_after_insert(old(self).order(), present, h);
                let n = excess(order1.len(), old(self).cache_size() as nat);
                let evicted = order1.take(n as int).to_set();
                &&& final(self).order() == order1.skip(n as int)
                &&& final(self).blocks().dom() == old(self).blocks().dom().insert(h) - evicted
                &&& final(self).blocks().contains_key(h) ==> same_block(
                    final(self).blocks()[h],
                    *block,
                )
                &&& forall|k: Hash32|
                    #![trigger final(self).blocks()[k]]
                    final(self).blocks().contains_key(k) && k != h ==> final(self).blocks()[k]
                        == old(self).blocks()[k]
                &&& final(self).children() == old(self).children().remove_keys(evicted)
                &&& final(self).blue() == old(self).blue() - evicted
                &&& final(self).scores() == old(self).scores().remove_keys(evicted)
                &&& final(self).finalized() == old(self).finalized() + evicted
            }),
            final(self).blocks().len() <= old(self).cache_size(),
            old(self).cache_size() > 0 && (!old(self).blocks().contains_key(block.hash) || old(
                self,
            ).blocks().len() <= old(self).cache_size()) ==> final(self).blocks().contains_key(
                block.hash,
            ),
            final(self).cache_size() == old(self).cache_size(),
            final(self).checkpoint_confirmations() == old(self).checkpoint_confirmations(),
            final(self).counter() == old(self).counter(),
    {
        let hash = block.hash;
        proof {
            self.lemma_wf();
        }
        if !self.hot_blocks.contains_key(&hash) {
            self.hot_blocks_order.push(hash);
        }
        let copy = block.duplicate();
        self.hot_blocks.insert(hash, copy);
        proof {
            let order1 = self.hot_blocks_order@;
            if old(self).blocks().contains_key(hash) {
                assert(old(self).blocks().dom().insert(hash) =~= old(self).blocks().dom());
            } else {
                lemma_push_contains(old(self).order(), hash);
            }
            if !old(self).blocks().contains_key(hash) {
                assert(order1.no_duplicates()) by {
                    assert forall|a: int, b: int|
                        0 <= a < order1.len() && 0 <= b < order1.len() && a != b implies order1[a]
                        != order1[b] by {
                        if a == order1.len() - 1 {
                            assert(old(self).order().contains(order1[b]));
                        } else if b == order1.len() - 1 {
                            assert(old(self).order().contains(order1[a]));
                        }
                    }
                }
            }
            assert(self.hot_blocks@.dom() =~= old(self).blocks().dom().insert(hash));
            self.hot_blocks.lemma_seqs();
        }
        if self.hot_blocks.len() > self.config.hot_cache_size {
            self.prune_hot_cache();
        } else {
            proof {
                let order1 = self.hot_blocks_order@;
                assert(order1.take(0).to_set() =~= Set::<Hash32>::empty());
                assert(order1.skip(0) =~= order1);
                assert(self.children() =~= old(self).children().remove_keys(Set::empty()));
                assert(self.blue() =~= old(self).blue() - Set::empty());
                assert(self.scores() =~= old(self).scores().remove_keys(Set::empty()));
                assert(self.finalized() =~= old(self).finalized() + Set::empty());
                assert(self.blocks().dom() =~= old(self).blocks().dom().insert(hash) - Set::empty());
            }
        }
        proof {
            self.lemma_wf();
            old(self).lemma_wf();
            let present = old(self).blocks().contains_key(hash);
            let order1 = order_after_insert(old(self).order(), present, hash);
            let n = excess(order1.len(), old(self).cache_size() as nat);
            assert(self.order().len() == order1.len() - n);
            if old(self).cache_size() > 0 && !present {
                assert(order1[order1.len() - 1] == hash);
                assert(self.order()[self.order().len() - 1] == hash);
                assert(self.order().contains(hash));
            }
            if old(self).cache_size() > 0 && present && old(self).blocks().len() <= old(self).cache_size() {
                assert(n == 0);
                assert(self.order() =~= order1);
                assert(old(self).order().contains(hash));
            }
        }
        Ok(())
    }

    /// Evicts the oldest cached blocks until the cache fits its capacity.
    fn prune_hot_cache(&mut self)
        requires
            old(self).wf(),
        ensures
            final(self).wf(),
            ({
                let n = excess(old(self).order().len(), old(self).cache_size() as nat);
                let evicted = old(self).order().take(n as int).to_set();
                &&& final(self).order() == old(self).order().skip(n as int)
                &&& final(self).blocks() == old(self).blocks().remove_keys(evicted)
                &&& final(self).children() == old(self).children().remove_keys(evicted)
                &&& final(self).blue() == old(self).blue() - evicted
                &&& final(self).scores() == old(self).scores().remove_keys(evicted)
                &&& final(self).finalized() == old(self).finalized() + evicted
            }),
            final(self).cache_size() == old(self).cache_size(),
            final(self).checkpoint_confirmations() == old(self).checkpoint_confirmations(),
            final(self).counter() == old(self).counter(),
    {
        proof {
            self.lemma_wf();
        }
        let target_size = self.config.hot_cache_size;
        let mut remove_count = self.hot_blocks.len().saturating_sub(target_size);
        let ghost n = excess(old(self).order().len(), old(self).cache_size() as nat);
        let ghost o = old(self).order();
        if remove_count == 0 {
            proof {
                assert(o.take(0).to_set() =~= Set::<Hash32>::empty());
                assert(o.skip(0) =~= o);
                assert(self.blocks() =~= old(self).blocks().remove_keys(Set::empty()));
                assert(self.children() =~= old(self).children().remove_keys(Set::empty()));
                assert(self.blue() =~= old(self).blue() - Set::empty());
                assert(self.scores() =~= old(self).scores().remove_keys(Set::empty()));
                assert(self.finalized() =~= old(self).finalized() + Set::empty());
            }
            return ;
        }
        let ghost mut k: int = 0;
        proof {
            assert(o.take(0).to_set() =~= Set::<Hash32>::empty());
            assert(o.skip(0) =~= o);
            assert(self.blocks() =~= old(self).blocks().remove_keys(Set::empty()));
            assert(self.children() =~= old(self).children().remove_keys(Set::empty()));
            assert(self.blue() =~= old(self).blue() - Set::empty());
            assert(self.scores() =~= old(self).scores().remove_keys(Set::empty()));
            assert(self.finalized() =~= old(self).finalized() + Set::empty());
        }
        while remove_count > 0
            invariant
                self.wf(),
                0 <= k <= n,
                n <= o.len(),
                remove_count == n - k,
                o == old(self).order(),
                o.no_duplicates(),
                self.order() == o.skip(k),
                self.blocks() == old(self).blocks().remove_keys(o.take(k).to_set()),
                self.children() == old(self).children().remove_keys(o.take(k).to_set()),
                self.blue() == old(self).blue() - o.take(k).to_set(),
                self.scores() == old(self).scores().remove_keys(o.take(k).to_set()),
                self.finalized() == old(self).finalized() + o.take(k).to_set(),
                self.config == old(self).config,
                self.blocks_since_checkpoint == old(self).blocks_since_checkpoint,
            decreases remove_count,
        {
            proof {
                self.lemma_wf();
                assert(self.hot_blocks_order@.len() == o.len() - k);
            }
            let hash = self.hot_blocks_order.remove(0);
            let ghost prev_children = self.hot_children@;
            proof {
                assert(hash == o[k]);
                lemma_remove_no_dup(o.skip(k), 0);
                assert(o.skip(k).remove(0) =~= o.skip(k + 1));
                assert(self.hot_blocks_order@ =~= o.skip(k + 1));
                assert(o.skip(k).contains(hash));
                lemma_take_succ(o, k);
            }
            proof {
                assert(self.hot_blocks@.contains_key(hash));
            }
            if self.hot_blocks.remove(&hash).is_some() {
                self.hot_children.remove(&hash);
                self.hot_blue_set.remove(&hash);
                self.hot_blue_scores.remove(&hash);
                self.finalized_blocks.insert(hash);
                remove_count = remove_count - 1;
                proof {
                    let before = o.take(k).to_set();
                    lemma_vec_views_remove(prev_children, hash);
                    lemma_remove_keys_step(old(self).children(), before, hash);
                    lemma_remove_keys_step(old(self).blocks(), before, hash);
                    lemma_remove_keys_step(old(self).scores(), before, hash);
                    k = k + 1;
                    assert(self.blue() =~= old(self).blue() - o.take(k).to_set());
                    assert(self.finalized() =~= old(self).finalized() + o.take(k).to_set());
                    assert(self.hot_blocks_order@.to_set() =~= self.hot_blocks@.dom());
                }
            } else {
                proof {
                    assert(false);
                }
            }
        }
    }

    /// The children of `parent_hash` (empty when none are recorded).
    pub fn get_children(&self, parent_hash: &Hash32) -> (r: Result<Vec<Hash32>, BlockchainError>)
        requires
            self.wf(),
        ensures
            r matches Ok(c) && c@ == (if self.children().contains_key(*parent_hash) {
                self.children()[*parent_hash]
            } else {
                Seq::<Hash32>::empty()
            }),
    {
        match self.hot_children.get(parent_hash) {
            Some(c) => Ok(copy_hashes(c)),
            None => Ok(Vec::new()),
        }
    }

    /// Sets the children of `parent_hash`.
    pub fn set_children(&mut self, parent_hash: Hash32, children: Vec<Hash32>)
        requires
            old(self).wf(),
        ensures
            final(self).wf(),
            final(self).children() == old(self).children().insert(parent_hash, children@),
            final(self).blocks() == old(self).blocks(),
            final(self).order() == old(self).order(),
            final(self).blue() == old(self).blue(),
            final(self).scores() == old(self).scores(),
            final(self).finalized() == old(self).finalized(),
            final(self).cache_size() == old(self).cache_size(),
            final(self).checkpoint_confirmations() == old(self).checkpoint_confirmations(),
            final(self).counter() == old(self).counter(),
    {
        self.hot_children.insert(parent_hash, children);
        proof {
            assert(self.children() =~= old(self).children().insert(parent_hash, children@));
        }
    }

    /// Whether `hash` is in the blue set.
    pub fn is_blue(&self, hash: &Hash32) -> (r: bool)
        ensures
            r == self.blue().contains(*hash),
    {
        self.hot_blue_set.contains(hash)
    }

    /// Adds `hash` to the blue set.
    pub fn add_to_blue_set(&mut self, hash: Hash32)
        requires
            old(self).wf(),
        ensures
            final(self).wf(),
            final(self).blue() == old(self).blue().insert(hash),
            final(self).blocks() == old(self).blocks(),
            final(self).order() == old(self).order(),
            final(self).children() == old(self).children(),
            final(self).scores() == old(self).scores(),
            final(self).finalized() == old(self).finalized(),
            final(self).cache_size() == old(self).cache_size(),
            final(self).checkpoint_confirmations() == old(self).checkpoint_confirmations(),
            final(self).counter() == old(self).counter(),
    {
        self.hot_blue_set.insert(hash);
    }

    /// The blue score of `hash`, if recorded.
    pub fn get_blue_score(&self, hash: &Hash32) -> (r: Option<u64>)
        requires
            self.wf(),
        ensures
            r is Some <==> self.scores().contains_key(*hash),
            r matches Some(s) ==> s == self.scores()[*hash],
    {
        self.hot_blue_scores.get_copy(hash)
    }

    /// Records the blue score of `hash`.
    pub fn set_blue_score(&mut self, hash: Hash32, score: u64)
        requires
            old(self).wf(),
        ensures
            final(self).wf(),
            final(self).scores() == old(self).scores().insert(hash, score),
            final(self).blocks() == old(self).blocks(),
            final(self).order() == old(self).order(),
            final(self).children() == old(self).children(),
            final(self).blue() == old(self).blue(),
            final(self).finalized() == old(self).finalized(),
            final(self).cache_size() == old(self).cache_size(),
            final(self).checkpoint_confirmations() == old(self).checkpoint_confirmations(),
            final(self).counter() == old(self).counter(),
    {
        self.hot_blue_scores.insert(hash, score);
    }

    /// The cached blocks.
    pub fn get_hot_blocks(&self) -> (r: &KeyMap<Hash32, Block>)
        ensures
            self.wf() ==> r.wf(),
            r@ == self.blocks(),
    {
        &self.hot_blocks
    }

    /// Copies of all stored blocks, each once.
    pub fn get_all_blocks(&self) -> (r: Result<Vec<Block>, BlockchainError>)
        requires
            self.wf(),
        ensures
            r matches Ok(v) && v@.len() == self.blocks().len() && (forall|i: int|
                0 <= i < v@.len() ==> self.blocks().contains_key(#[trigger] v@[i].hash)
                    && same_block(v@[i], self.blocks()[v@[i].hash])) && (forall|i: int, j: int|
                0 <= i < j < v@.len() ==> (#[trigger] v@[i]).hash != (#[trigger] v@[j]).hash),
    {
        proof {
            self.hot_blocks.lemma_seqs();
            self.lemma_wf();
        }
        let mut out: Vec<Block> = Vec::new();
        let mut i: usize = 0;
        let n = self.hot_blocks.len();
        while i < n
            invariant
                self.wf(),
                n == self.hot_blocks.key_seq().len(),
                i <= n,
                out@.len() == i,
                self.hot_blocks.key_seq().no_duplicates(),
                forall|j: int|
                    0 <= j < i ==> (#[trigger] out@[j]).hash == self.hot_blocks.key_seq()[j],
                forall|j: int|
                    0 <= j < i ==> same_block(
                        #[trigger] out@[j],
                        self.blocks()[self.hot_blocks.key_seq()[j]],
                    ),
                forall|j: int|
                    0 <= j < n ==> #[trigger] self.blocks().contains_key(
                        self.hot_blocks.key_seq()[j],
                    ),
            decreases n - i,
        {
            let b = self.hot_blocks.value_at(i);
            proof {
                let key = self.hot_blocks.key_seq()[i as int];
                assert(self.blocks().contains_key(key));
                assert(self.hot_blocks@.contains_key(key));
                assert(self.hot_blocks@[key].hash == key);
            }
            out.push(b.duplicate());
            i = i + 1;
        }
        proof {
            assert forall|a: int, b: int| 0 <= a < b < out@.len() implies (#[trigger] out@[a]).hash
                != (#[trigger] out@[b]).hash by {
                assert(self.hot_blocks.key_seq()[a] != self.hot_blocks.key_seq()[b]);
            }
        }
        Ok(out)
    }

    /// Whether `hash` has left the cache.
    pub fn is_finalized(&self, hash: &Hash32) -> (r: bool)
        ensures
            r == self.finalized().contains(*hash),
    {
        self.finalized_blocks.contains(hash)
    }

    /// Confirmations required before a block is checkpointed (0 = disabled).
    pub fn confirmations_for_checkpoint(&self) -> (r: usize)
        ensures
            r == self.checkpoint_confirmations(),
    {
        self.config.confirmations_for_checkpoint
    }

    /// Checkpoints the given blocks: drops them from the cache and every
    /// per-block table, and marks them finalized.
    pub fn prune_blocks_by_hash(&mut self, hashes: &[Hash32])
        requires
            old(self).wf(),
        ensures
            final(self).wf(),
            final(self).blocks() == old(self).blocks().remove_keys(hashes@.to_set()),
            final(self).order() == old(self).order().filter(|h: Hash32| !hashes@.contains(h)),
            final(self).children() == old(self).children().remove_keys(hashes@.to_set()),
            final(self).blue() == old(self).blue() - hashes@.to_set(),
            final(self).scores() == old(self).scores().remove_keys(hashes@.to_set()),
            final(self).finalized() == old(self).finalized() + hashes@.to_set(),
            final(self).cache_size() == old(self).cache_size(),
            final(self).checkpoint_confirmations() == old(self).checkpoint_confirmations(),
            final(self).counter() == old(self).counter(),
            final(self).disk() == old(self).disk(),
    {
        let mut i: usize = 0;
        proof {
            assert(hashes@.take(0).to_set() =~= Set::<Hash32>::empty());
            assert(self.blocks() =~= old(self).blocks().remove_keys(Set::empty()));
            assert(self.children() =~= old(self).children().remove_keys(Set::empty()));
            assert(self.blue() =~= old(self).blue() - Set::empty());
            assert(self.scores() =~= old(self).scores().remove_keys(Set::empty()));
            assert(self.finalized() =~= old(self).finalized() + Set::empty());
        }
        while i < hashes.len()
            invariant
                self.database == old(self).database,
                i <= hashes@.len(),
                self.hot_blocks.wf(),
                self.hot_children.wf(),
                self.hot_blue_set.wf(),
                self.hot_blue_scores.wf(),
                self.finalized_blocks.wf(),
                self.hot_blocks_order == old(self).hot_blocks_order,
                self.blocks() == old(self).blocks().remove_keys(hashes@.take(i as int).to_set()),
                self.children() == old(self).children().remove_keys(
                    hashes@.take(i as int).to_set(),
                ),
                self.blue() == old(self).blue() - hashes@.take(i as int).to_set(),
                self.scores() == old(self).scores().remove_keys(hashes@.take(i as int).to_set()),
                self.finalized() == old(self).finalized() + hashes@.take(i as int).to_set(),
                self.config == old(self).config,
                self.blocks_since_checkpoint == old(self).blocks_since_checkpoint,
            decreases hashes@.len() - i,
        {
            let h = hashes[i];
            let ghost prev_children = self.hot_children@;
            self.hot_blocks.remove(&h);
            self.hot_children.remove(&h);
            self.hot_blue_set.remove(&h);
            self.hot_blue_scores.remove(&h);
            self.finalized_blocks.insert(h);
            proof {
                let before = hashes@.take(i as int).to_set();
                lemma_take_succ(hashes@, i as int);
                lemma_vec_views_remove(prev_children, h);
                lemma_remove_keys_step(old(self).children(), before, h);
                lemma_remove_keys_step(old(self).blocks(), before, h);
                lemma_remove_keys_step(old(self).scores(), before, h);
            }
            i = i + 1;
            proof {
                let s = hashes@.take(i as int).to_set();
                assert(self.blue() =~= old(self).blue() - s);
                assert(self.finalized() =~= old(self).finalized() + s);
            }
        }
        proof {
            assert(hashes@.take(hashes@.len() as int) =~= hashes@);
        }
        let kept = retain_not_in(&self.hot_blocks_order, hashes);
        self.hot_blocks_order = kept;
        proof {
            assert(self.hot_blocks_order@.to_set() =~= self.hot_blocks@.dom()) by {
                assert forall|x: Hash32| #[trigger] self.hot_blocks_order@.to_set().contains(x)
                    <==> self.hot_blocks@.dom().contains(x) by {
                    assert(old(self).hot_blocks_order@.to_set().contains(x)
                        == old(self).hot_blocks_order@.contains(x));
                    assert(hashes@.to_set().contains(x) == hashes@.contains(x));
                }
            }
        }
    }

    /// The cached blocks outside the blue set whose number is below
    /// `threshold`.
    pub open spec fn red_prunable(&self, threshold: u64) -> Set<Hash32> {
        self.blocks().dom().filter(
            |h: Hash32| !self.blue().contains(h) && self.blocks()[h].header.block_number < threshold,
        )
    }

    /// Prunes red blocks (not in the blue set) older than the finality
    /// threshold `current_height - finality_depth`; returns how many.
    pub fn prune_red_blocks(&mut self, current_height: u64, finality_depth: u64) -> (r: usize)
        requires
            old(self).wf(),
        ensures
            final(self).wf(),
            current_height <= finality_depth ==> r == 0 && *final(self) == *old(self),
            current_height > finality_depth ==> ({
                let p = old(self).red_prunable((current_height - finality_depth) as u64);
                &&& r == p.len()
                &&& final(self).blocks() == old(self).blocks().remove_keys(p)
                &&& final(self).order() == old(self).order().filter(|h: Hash32| !p.contains(h))
                &&& final(self).children() == old(self).children().remove_keys(p)
                &&& final(self).blue() == old(self).blue()
                &&& final(self).scores() == old(self).scores().remove_keys(p)
                &&& final(self).finalized() == old(self).finalized() + p
            }),
            final(self).cache_size() == old(self).cache_size(),
            final(self).checkpoint_confirmations() == old(self).checkpoint_confirmations(),
            final(self).counter() == old(self).counter(),
    {
        if current_height <= finality_depth {
            return 0;
        }
        let threshold = current_height - finality_depth;
        let ghost p = old(self).red_prunable(threshold);
        proof {
            self.hot_blocks.lemma_seqs();
        }
        let mut to_prune: Vec<Hash32> = Vec::new();
        let mut i: usize = 0;
        let n = self.hot_blocks.len();
        while i < n
            invariant
                self.database == old(self).database,
                self.wf(),
                *self == *old(self),
                n == self.hot_blocks.key_seq().len(),
                i <= n,
                self.hot_blocks.key_seq().no_duplicates(),
                self.hot_blocks.key_seq().to_set() == self.blocks().dom(),
                to_prune@.no_duplicates(),
                p == old(self).red_prunable(threshold),
                forall|x: Hash32| #[trigger]
                    to_prune@.contains(x) <==> (self.hot_blocks.key_seq().take(i as int).contains(
                        x,
                    ) && p.contains(x)),
            decreases n - i,
        {
            let h = self.hot_blocks.key_at(i);
            let b = self.hot_blocks.value_at(i);
            let ghost prev = to_prune@;
            proof {
                lemma_take_succ(self.hot_blocks.key_seq(), i as int);
                lemma_push_contains(prev, h);
                assert(self.hot_blocks.key_seq().to_set().contains(h));
            }
            if !self.hot_blue_set.contains(&h) && b.header.block_number < threshold {
                proof {
                    lemma_not_in_prefix(self.hot_blocks.key_seq(), i as int);
                    assert(!prev.contains(h));
                    assert(prev.push(h).no_duplicates()) by {
                        assert forall|a: int, c: int|
                            0 <= a < prev.len() + 1 && 0 <= c < prev.len() + 1 && a != c implies prev.push(h)[a] != prev.push(h)[c] by {
                            if a < prev.len() && c < prev.len() {
                            } else if a < prev.len() {
                                assert(prev.contains(prev[a]));
                            } else {
                                assert(prev.contains(prev[c]));
                            }
                        }
                    }
                }
                to_prune.push(h);
            }
            i = i + 1;
        }
        proof {
            assert(self.hot_blocks.key_seq().take(n as int) =~= self.hot_blocks.key_seq());
            assert(to_prune@.to_set() =~= p) by {
                assert forall|x: Hash32| #[trigger] to_prune@.to_set().contains(x) <==> p.contains(
                    x,
                ) by {
                    if p.contains(x) {
                        assert(self.hot_blocks.key_seq().to_set().contains(x));
                    }
                }
            }
            to_prune@.unique_seq_to_set();
        }
        let pruned_count = to_prune.len();
        let mut j: usize = 0;
        proof {
            assert(to_prune@.take(0).to_set() =~= Set::<Hash32>::empty());
            assert(self.blocks() =~= old(self).blocks().remove_keys(Set::empty()));
            assert(self.children() =~= old(self).children().remove_keys(Set::empty()));
            assert(self.scores() =~= old(self).scores().remove_keys(Set::empty()));
            assert(self.finalized() =~= old(self).finalized() + Set::empty());
        }
        while j < to_prune.len()
            invariant
                self.database == old(self).database,
                j <= to_prune@.len(),
                self.hot_blocks.wf(),
                self.hot_children.wf(),
                self.hot_blue_set.wf(),
                self.hot_blue_scores.wf(),
                self.finalized_blocks.wf(),
                self.hot_blocks_order == old(self).hot_blocks_order,
                self.hot_blue_set == old(self).hot_blue_set,
                self.blocks() == old(self).blocks().remove_keys(to_prune@.take(j as int).to_set()),
                self.children() == old(self).children().remove_keys(
                    to_prune@.take(j as int).to_set(),
                ),
                self.scores() == old(self).scores().remove_keys(to_prune@.take(j as int).to_set()),
                self.finalized() == old(self).finalized() + to_prune@.take(j as int).to_set(),
                self.config == old(self).config,
                self.blocks_since_checkpoint == old(self).blocks_since_checkpoint,
            decreases to_prune@.len() - j,
        {
            let h = to_prune[j];
            let ghost prev_children = self.hot_children@;
            self.hot_blocks.remove(&h);
            self.hot_children.remove(&h);
            self.hot_blue_scores.remove(&h);
            self.finalized_blocks.insert(h);
            proof {
                let before = to_prune@.take(j as int).to_set();
                lemma_take_succ(to_prune@, j as int);
                lemma_vec_views_remove(prev_children, h);
                lemma_remove_keys_step(old(self).children(), before, h);
                lemma_remove_keys_step(old(self).blocks(), before, h);
                lemma_remove_keys_step(old(self).scores(), before, h);
            }
            j = j + 1;
            proof {
                let s = to_prune@.take(j as int).to_set();
                assert(self.finalized() =~= old(self).finalized() + s);
            }
        }
        proof {
            assert(to_prune@.take(to_prune@.len() as int) =~= to_prune@);
        }
        let kept = retain_not_in(&self.hot_blocks_order, to_prune.as_slice());
        self.hot_blocks_order = kept;
        proof {
            assert((|h: Hash32| !to_prune@.contains(h)) =~= (|h: Hash32| !p.contains(h)));
            assert(self.hot_blocks_order@.to_set() =~= self.hot_blocks@.dom()) by {
                assert forall|x: Hash32| #[trigger] self.hot_blocks_order@.to_set().contains(x)
                    <==> self.hot_blocks@.dom().contains(x) by {
                    assert(old(self).hot_blocks_order@.to_set().contains(x)
                        == old(self).hot_blocks_order@.contains(x));
                    assert(to_prune@.to_set().contains(x) == to_prune@.contains(x));
                }
            }
        }
        pruned_count
    }

    /// Statistics for monitoring; cumulative counters are kept by the caller.
    pub fn get_pruning_stats(&self) -> (r: PruningStats)
        requires
            self.wf(),
        ensures
            r.hot_block_count == self.blocks().len(),
            r.finalized_count == self.finalized().len(),
            r.red_blocks_pruned == 0,
            r.last_prune_height == 0,
    {
        PruningStats {
            hot_block_count: self.hot_blocks.len(),
            finalized_count: self.finalized_blocks.len(),
            red_blocks_pruned: 0,
            last_prune_height: 0,
        }
    }

    /// Empties every table and resets the checkpoint counter.
    pub fn clear(&mut self)
        requires
            old(self).wf(),
        ensures
            final(self).wf(),
            final(self).disk() == old(self).disk(),
            final(self).blocks() == Map::<Hash32, Block>::empty(),
            final(self).order() == Seq::<Hash32>::empty(),
            final(self).children() == Map::<Hash32, Seq<Hash32>>::empty(),
            final(self).blue() == Set::<Hash32>::empty(),
            final(self).scores() == Map::<Hash32, u64>::empty(),
            final(self).finalized() == Set::<Hash32>::empty(),
            final(self).cache_size() == old(self).cache_size(),
            final(self).checkpoint_confirmations() == old(self).checkpoint_confirmations(),
            final(self).counter() == 0,
    {
        self.hot_blocks.clear();
        self.hot_blocks_order.clear();
        self.hot_children.clear();
        self.hot_blue_set.clear();
        self.hot_blue_scores.clear();
        self.finalized_blocks.clear();
        self.blocks_since_checkpoint = 0;
        proof {
            assert(self.hot_blocks_order@.to_set() =~= Set::<Hash32>::empty());
            assert(self.hot_blocks@.dom() =~= Set::<Hash32>::empty());
            assert(self.children() =~= Map::<Hash32, Seq<Hash32>>::empty());
        }
    }

    /// Counts one more block since the last checkpoint; returns the count.
    pub fn increment_checkpoint_counter(&mut self) -> (r: usize)
        requires
            old(self).counter() < usize::MAX,
        ensures
            final(self).disk() == old(self).disk(),
            r == old(self).counter() + 1,
            final(self).counter() == r,
            final(self).wf() == old(self).wf(),
            final(self).blocks() == old(self).blocks(),
            final(self).order() == old(self).order(),
            final(self).children() == old(self).children(),
            final(self).blue() == old(self).blue(),
            final(self).scores() == old(self).scores(),
            final(self).finalized() == old(self).finalized(),
            final(self).cache_size() == old(self).cache_size(),
            final(self).checkpoint_confirmations() == old(self).checkpoint_confirmations(),
    {
        self.blocks_since_checkpoint = self.blocks_since_checkpoint + 1;
        self.blocks_since_checkpoint
    }

    /// Resets the checkpoint counter.
    pub fn reset_checkpoint_counter(&mut self)
        ensures
            final(self).disk() == old(self).disk(),
            final(self).counter() == 0,
            final(self).wf() == old(self).wf(),
            final(self).blocks() == old(self).blocks(),
            final(self).order() == old(self).order(),
            final(self).children() == old(self).children(),
            final(self).blue() == old(self).blue(),
            final(self).scores() == old(self).scores(),
            final(self).finalized() == old(self).finalized(),
            final(self).cache_size() == old(self).cache_size(),
            final(self).checkpoint_confirmations() == old(self).checkpoint_confirmations(),
    {
        self.blocks_since_checkpoint = 0;
    }

    /// Blocks added since the last checkpoint.
    pub fn blocks_since_checkpoint(&self) -> (r: usize)
        ensures
            r == self.counter(),
    {
        self.blocks_since_checkpoint
    }
}

/// `a` and `b` hold the same cache, tables and counters; only their
/// persistent stores may differ.
pub open spec fn same_cache(a: HybridDagStorage, b: HybridDagStorage) -> bool {
    &&& a.blocks() == b.blocks()
    &&& a.order() == b.order()
    &&& a.children() == b.children()
    &&& a.blue() == b.blue()
    &&& a.scores() == b.scores()
    &&& a.finalized() == b.finalized()
    &&& a.cache_size() == b.cache_size()
    &&& a.checkpoint_confirmations() == b.checkpoint_confirmations()
    &&& a.counter() == b.counter()
}

/// The one-byte key prefix `b`.
fn table_prefix(b: u8) -> (r: [u8; 1])
    ensures
        r@ == seq![b],
{
    let r = [b];
    proof {
        assert(r@ =~= seq![b]);
    }
    r
}

impl HybridDagStorage {
    /// An empty storage with the given configuration, persisting its
    /// checkpoints to `database`.
    pub fn with_database(database: Database, config: DagStorageConfig) -> (s: Self)
        requires
            database.wf(),
        ensures
            s.wf(),
            s.blocks() == Map::<Hash32, Block>::empty(),
            s.order() == Seq::<Hash32>::empty(),
            s.children() == Map::<Hash32, Seq<Hash32>>::empty(),
            s.blue() == Set::<Hash32>::empty(),
            s.scores() == Map::<Hash32, u64>::empty(),
            s.finalized() == Set::<Hash32>::empty(),
            s.cache_size() == config.hot_cache_size,
            s.checkpoint_confirmations() == config.confirmations_for_checkpoint,
            s.counter() == 0,
            s.disk() == Some(database@),
    {
        let mut s = HybridDagStorage::new(config);
        s.database = Some(database);
        s
    }

    /// Stores the blue score of `hash` (nothing without a store).
    pub fn save_blue_score(&mut self, hash: &Hash32, score: u64) -> (r: Result<(), BlockchainError>)
        requires
            old(self).wf(),
        ensures
            r is Ok,
            final(self).wf(),
            same_cache(*old(self), *final(self)),
            final(self).disk() == match old(self).disk() {
                None => None,
                Some(d) => Some(d.insert(score_key(*hash), spec_u64_to_le_bytes(score))),
            },
    {
        match self.database.take() {
            Some(mut db) => {
                db.insert_raw(prefixed(PREFIX_BLUE_SCORE, &hash.0), score_bytes(score));
                self.database = Some(db);
            },
            None => {},
        }
        Ok(())
    }

    /// The blue scores held by the store (none without a store).
    pub fn load_blue_scores(&self) -> (r: Result<KeyMap<Hash32, u64>, BlockchainError>)
        requires
            self.wf(),
        ensures
            r matches Ok(m) && m.wf() && m@ == match self.disk() {
                None => Map::<Hash32, u64>::empty(),
                Some(d) => stored_scores(d),
            },
    {
        let mut scores: KeyMap<Hash32, u64> = KeyMap::new();
        match &self.database {
            Some(db) => {
                let prefix = table_prefix(PREFIX_BLUE_SCORE);
                let entries = db.scan_prefix_collect(&prefix);
                let ghost d = db@;
                let mut i: usize = 0;
                proof {
                    lemma_keys_distinct();
                    assert forall|j: int| 0 <= j < entries@.len() implies in_table(
                        #[trigger] entries@[j].0@,
                        PREFIX_BLUE_SCORE,
                    ) by {
                        lemma_prefix_one(entries@[j].0@, PREFIX_BLUE_SCORE);
                    }
                    assert(scores@ =~= Map::new(
                        |h: Hash32| exists|j: int| 0 <= j < 0 && entries@[j].0@ == score_key(h) && entries@[j].1@.len() == 8,
                        |h: Hash32| spec_u64_from_le_bytes(d[score_key(h)]),
                    ));
                }
                while i < entries.len()
                    invariant
                        i <= entries@.len(),
                        scores.wf(),
                        forall|j: int|
                            0 <= j < entries@.len() ==> {
                                &&& in_table(#[trigger] entries@[j].0@, PREFIX_BLUE_SCORE)
                                &&& d.contains_key(entries@[j].0@)
                                &&& d[entries@[j].0@] == entries@[j].1@
                            },
                        forall|g: Hash32, h: Hash32| score_key(g) == score_key(h) ==> g == h,
                        scores@ == Map::new(
                            |h: Hash32| exists|j: int| 0 <= j < i && entries@[j].0@ == score_key(h) && entries@[j].1@.len() == 8,
                            |h: Hash32| spec_u64_from_le_bytes(d[score_key(h)]),
                        ),
                    decreases entries@.len() - i,
                {
                    let ghost old_scores = scores@;
                    let k = &entries[i].0;
                    let v = &entries[i].1;
                    if k.len() == 33 && v.len() == 8 {
                        let h = hash_at(k.as_slice(), 1);
                        let sc = read_score(v.as_slice());
                        proof {
                            lemma_hash_key(k@, PREFIX_BLUE_SCORE);
                            assert(score_key(h) == k@);
                        }
                        scores.insert(h, sc);
                        proof {
                            assert(scores@ =~= Map::new(
                                |x: Hash32| exists|j: int| 0 <= j < i + 1 && entries@[j].0@ == score_key(x) && entries@[j].1@.len() == 8,
                                |x: Hash32| spec_u64_from_le_bytes(d[score_key(x)]),
                            )) by {
                                assert forall|x: Hash32| (exists|j: int| 0 <= j < i + 1 && entries@[j].0@ == score_key(x) && entries@[j].1@.len() == 8) <==> (old_scores.contains_key(x) || x == h) by {
                                    if x == h {
                                        assert(entries@[i as int].0@ == score_key(x));
                                    }
                                    if exists|j: int| 0 <= j < i + 1 && entries@[j].0@ == score_key(x) && entries@[j].1@.len() == 8 {
                                        let j = choose|j: int| 0 <= j < i + 1 && entries@[j].0@ == score_key(x) && entries@[j].1@.len() == 8;
                                        if j == i {
                                            assert(score_key(x) == score_key(h));
                                        } else {
                                            assert(old_scores.contains_key(x));
                                        }
                                    }
                                }
                            }
                        }
                    } else {
                        proof {
                            assert(scores@ =~= Map::new(
                                |x: Hash32| exists|j: int| 0 <= j < i + 1 && entries@[j].0@ == score_key(x) && entries@[j].1@.len() == 8,
                                |x: Hash32| spec_u64_from_le_bytes(d[score_key(x)]),
                            )) by {
                                assert forall|x: Hash32| (exists|j: int| 0 <= j < i + 1 && entries@[j].0@ == score_key(x) && entries@[j].1@.len() == 8) implies old_scores.contains_key(x) by {
                                    let j = choose|j: int| 0 <= j < i + 1 && entries@[j].0@ == score_key(x) && entries@[j].1@.len() == 8;
                                    if j == i {
                                        assert(score_key(x).len() == 33);
                                    }
                                }
                            }
                        }
                    }
                    i = i + 1;
                }
                proof {
                    assert(scores@ =~= stored_scores(d)) by {
                        assert forall|x: Hash32| #[trigger] scores@.contains_key(x) <==> stored_scores(d).contains_key(x) by {
                            if stored_scores(d).contains_key(x) {
                                lemma_prefix_one(score_key(x), PREFIX_BLUE_SCORE);
                                let j = choose|j: int| 0 <= j < entries@.len() && entries@[j].0@ == score_key(x);
                                assert(entries@[j].1@ == d[score_key(x)]);
                            }
                        }
                    }
                }
            },
            None => {},
        }
        Ok(scores)
    }
}

/// `k` is the blue-set key of one of the first `n` hashes of `hs`.
pub open spec fn blue_listed(hs: Seq<Hash32>, n: int, k: Seq<u8>) -> bool {
    exists|j: int| 0 <= j < n && k == blue_key(hs[j])
}

impl HybridDagStorage {
    /// Replaces the stored blue set by `blue_set` (nothing without a store).
    pub fn save_blue_set(&mut self, blue_set: &KeySet<Hash32>) -> (r: Result<(), BlockchainError>)
        requires
            old(self).wf(),
            blue_set.wf(),
        ensures
            r is Ok,
            final(self).wf(),
            same_cache(*old(self), *final(self)),
            final(self).disk() == match old(self).disk() {
                None => None,
                Some(d) => Some(replace_blue(d, blue_set@)),
            },
    {
        match self.database.take() {
            Some(mut db) => {
                let ghost d = db@;
                let prefix = table_prefix(PREFIX_BLUE_SET);
                db.remove_prefix(&prefix);
                let hs = blue_set.to_vec();
                let mut i: usize = 0;
                proof {
                    assert(db@ =~= Map::new(
                        |k: Seq<u8>| (d.contains_key(k) && !in_table(k, PREFIX_BLUE_SET)) || blue_listed(hs@, 0, k),
                        |k: Seq<u8>| if in_table(k, PREFIX_BLUE_SET) { Seq::<u8>::empty() } else { d[k] },
                    )) by {
                        assert forall|k: Seq<u8>| #[trigger] db@.contains_key(k) <==> (d.contains_key(k) && !in_table(k, PREFIX_BLUE_SET)) by {
                            lemma_prefix_one(k, PREFIX_BLUE_SET);
                        }
                    }
                }
                while i < hs.len()
                    invariant
                        db.wf(),
                        i <= hs@.len(),
                        db@ == Map::new(
                            |k: Seq<u8>| (d.contains_key(k) && !in_table(k, PREFIX_BLUE_SET)) || blue_listed(hs@, i as int, k),
                            |k: Seq<u8>| if in_table(k, PREFIX_BLUE_SET) { Seq::<u8>::empty() } else { d[k] },
                        ),
                    decreases hs@.len() - i,
                {
                    let ghost before = db@;
                    let ghost h = hs@[i as int];
                    db.insert_raw(prefixed(PREFIX_BLUE_SET, &hs[i].0), Vec::new());
                    i = i + 1;
                    proof {
                        lemma_keys_distinct();
                        assert(db@ =~= Map::new(
                            |k: Seq<u8>| (d.contains_key(k) && !in_table(k, PREFIX_BLUE_SET)) || blue_listed(hs@, i as int, k),
                            |k: Seq<u8>| if in_table(k, PREFIX_BLUE_SET) { Seq::<u8>::empty() } else { d[k] },
                        )) by {
                            assert forall|k: Seq<u8>| #[trigger] blue_listed(hs@, i as int, k) <==> (blue_listed(hs@, i - 1, k) || k == blue_key(h)) by {
                                if k == blue_key(h) {
                                    assert(0 <= i - 1 < i && k == blue_key(hs@[i - 1]));
                                }
                                if exists|j: int| 0 <= j < i && k == blue_key(hs@[j]) {
                                    let j = choose|j: int| 0 <= j < i && k == blue_key(hs@[j]);
                                    if j < i - 1 {
                                        assert(0 <= j < i - 1 && k == blue_key(hs@[j]));
                                    }
                                }
                            }
                        }
                    }
                }
                proof {
                    assert(db@ =~= replace_blue(d, blue_set@)) by {
                        assert forall|k: Seq<u8>| #[trigger] blue_listed(hs@, hs@.len() as int, k) <==> (exists|x: Hash32| #[trigger] blue_set@.contains(x) && k == blue_key(x)) by {
                            if exists|j: int| 0 <= j < hs@.len() && k == blue_key(hs@[j]) {
                                let j = choose|j: int| 0 <= j < hs@.len() && k == blue_key(hs@[j]);
                                assert(hs@.to_set().contains(hs@[j]));
                                assert(blue_set@.contains(hs@[j]));
                            }
                            if exists|x: Hash32| #[trigger] blue_set@.contains(x) && k == blue_key(x) {
                                let x = choose|x: Hash32| #[trigger] blue_set@.contains(x) && k == blue_key(x);
                                assert(hs@.to_set().contains(x));
                                assert(hs@.contains(x));
                                let j = choose|j: int| 0 <= j < hs@.len() && hs@[j] == x;
                                assert(k == blue_key(hs@[j]));
                            }
                        }
                    }
                }
                self.database = Some(db);
            },
            None => {},
        }
        Ok(())
    }

    /// The blue set held by the store (empty without a store).
    pub fn load_blue_set(&self) -> (r: Result<KeySet<Hash32>, BlockchainError>)
        requires
            self.wf(),
        ensures
            r matches Ok(b) && b.wf() && b@ == match self.disk() {
                None => Set::<Hash32>::empty(),
                Some(d) => stored_blue(d),
            },
    {
        let mut blue: KeySet<Hash32> = KeySet::new();
        match &self.database {
            Some(db) => {
                let prefix = table_prefix(PREFIX_BLUE_SET);
                let entries = db.scan_prefix_collect(&prefix);
                let ghost d = db@;
                let mut i: usize = 0;
                proof {
                    lemma_keys_distinct();
                    assert forall|j: int| 0 <= j < entries@.len() implies in_table(
                        #[trigger] entries@[j].0@,
                        PREFIX_BLUE_SET,
                    ) by {
                        lemma_prefix_one(entries@[j].0@, PREFIX_BLUE_SET);
                    }
                    assert(blue@ =~= Set::new(|h: Hash32| exists|j: int| 0 <= j < 0 && entries@[j].0@ == blue_key(h)));
                }
                while i < entries.len()
                    invariant
                        i <= entries@.len(),
                        blue.wf(),
                        forall|j: int|
                            0 <= j < entries@.len() ==> {
                                &&& in_table(#[trigger] entries@[j].0@, PREFIX_BLUE_SET)
                                &&& d.contains_key(entries@[j].0@)
                            },
                        forall|g: Hash32, h: Hash32| blue_key(g) == blue_key(h) ==> g == h,
                        blue@ == Set::new(|h: Hash32| exists|j: int| 0 <= j < i && entries@[j].0@ == blue_key(h)),
                    decreases entries@.len() - i,
                {
                    let ghost old_blue = blue@;
                    let k = &entries[i].0;
                    if k.len() == 33 {
                        let h = hash_at(k.as_slice(), 1);
                        proof {
                            lemma_hash_key(k@, PREFIX_BLUE_SET);
                            assert(blue_key(h) == k@);
                        }
                        blue.insert(h);
                        proof {
                            assert(blue@ =~= Set::new(|x: Hash32| exists|j: int| 0 <= j < i + 1 && entries@[j].0@ == blue_key(x))) by {
                                assert forall|x: Hash32| (exists|j: int| 0 <= j < i + 1 && entries@[j].0@ == blue_key(x)) <==> (old_blue.contains(x) || x == h) by {
                                    if x == h {
                                        assert(entries@[i as int].0@ == blue_key(x));
                                    }
                                    if exists|j: int| 0 <= j < i + 1 && entries@[j].0@ == blue_key(x) {
                                        let j = choose|j: int| 0 <= j < i + 1 && entries@[j].0@ == blue_key(x);
                                        if j == i {
                                            assert(blue_key(x) == blue_key(h));
                                        } else {
                                            assert(old_blue.contains(x));
                                        }
                                    }
                                }
                            }
                        }
                    } else {
                        proof {
                            assert(blue@ =~= Set::new(|x: Hash32| exists|j: int| 0 <= j < i + 1 && entries@[j].0@ == blue_key(x))) by {
                                assert forall|x: Hash32| (exists|j: int| 0 <= j < i + 1 && entries@[j].0@ == blue_key(x)) implies old_blue.contains(x) by {
                                    let j = choose|j: int| 0 <= j < i + 1 && entries@[j].0@ == blue_key(x);
                                    if j == i {
                                        assert(blue_key(x).len() == 33);
                                    }
                                }
                            }
                        }
                    }
                    i = i + 1;
                }
                proof {
                    assert(blue@ =~= stored_blue(d)) by {
                        assert forall|x: Hash32| #[trigger] blue@.contains(x) <==> stored_blue(d).contains(x) by {
                            if stored_blue(d).contains(x) {
                                lemma_prefix_one(blue_key(x), PREFIX_BLUE_SET);
                                let j = choose|j: int| 0 <= j < entries@.len() && entries@[j].0@ == blue_key(x);
                            }
                        }
                    }
                }
            },
            None => {},
        }
        Ok(blue)
    }
}

/// `k` is the ordering key of a position below `n`.
pub open spec fn order_listed(n: int, k: Seq<u8>) -> bool {
    exists|x: u64| x < n && #[trigger] order_key(x) == k
}

impl HybridDagStorage {
    /// Replaces the stored ordering by `ordering`, position `i` holding the
    /// `i`-th hash (nothing without a store).
    pub fn save_ordering(&mut self, ordering: &[Hash32]) -> (r: Result<(), BlockchainError>)
        requires
            old(self).wf(),
        ensures
            r is Ok,
            final(self).wf(),
            same_cache(*old(self), *final(self)),
            final(self).disk() == match old(self).disk() {
                None => None,
                Some(d) => Some(replace_order(d, ordering@)),
            },
    {
        match self.database.take() {
            Some(mut db) => {
                let ghost d = db@;
                let ghost ord = ordering@;
                let prefix = table_prefix(PREFIX_ORDERING);
                db.remove_prefix(&prefix);
                let n = ordering.len();
                let mut i: usize = 0;
                proof {
                    assert(db@ =~= Map::new(
                        |k: Seq<u8>| (d.contains_key(k) && !in_table(k, PREFIX_ORDERING)) || order_listed(0, k),
                        |k: Seq<u8>| if in_table(k, PREFIX_ORDERING) { ord[from_be_u64(k.subrange(1, 9)) as int].0@ } else { d[k] },
                    )) by {
                        assert forall|k: Seq<u8>| #[trigger] db@.contains_key(k) <==> (d.contains_key(k) && !in_table(k, PREFIX_ORDERING)) by {
                            lemma_prefix_one(k, PREFIX_ORDERING);
                        }
                    }
                }
                while i < n
                    invariant
                        db.wf(),
                        n == ord.len(),
                        ord == ordering@,
                        i <= n,
                        db@ == Map::new(
                            |k: Seq<u8>| (d.contains_key(k) && !in_table(k, PREFIX_ORDERING)) || order_listed(i as int, k),
                            |k: Seq<u8>| if in_table(k, PREFIX_ORDERING) { ord[from_be_u64(k.subrange(1, 9)) as int].0@ } else { d[k] },
                        ),
                    decreases n - i,
                {
                    let mut value: Vec<u8> = Vec::new();
                    push_all(&mut value, &ordering[i].0);
                    let key = prefixed(PREFIX_ORDERING, be_bytes(i as u64).as_slice());
                    proof {
                        assert(value@ =~= ord[i as int].0@);
                        assert(key@ == order_key(i as u64));
                        lemma_order_key_index(i as u64);
                        lemma_keys_distinct();
                    }
                    db.insert_raw(key, value);
                    i = i + 1;
                    proof {
                        assert(db@ =~= Map::new(
                            |k: Seq<u8>| (d.contains_key(k) && !in_table(k, PREFIX_ORDERING)) || order_listed(i as int, k),
                            |k: Seq<u8>| if in_table(k, PREFIX_ORDERING) { ord[from_be_u64(k.subrange(1, 9)) as int].0@ } else { d[k] },
                        )) by {
                            assert forall|k: Seq<u8>| #[trigger] order_listed(i as int, k) <==> (order_listed(i - 1, k) || k == order_key((i - 1) as u64)) by {
                                if k == order_key((i - 1) as u64) {
                                    assert(((i - 1) as u64) < i && order_key((i - 1) as u64) == k);
                                }
                                if order_listed(i as int, k) {
                                    let x = choose|x: u64| x < i && #[trigger] order_key(x) == k;
                                    if x < i - 1 {
                                        assert(order_listed(i - 1, k));
                                    }
                                }
                            }
                        }
                    }
                }
                proof {
                    assert(db@ =~= replace_order(d, ord));
                }
                self.database = Some(db);
            },
            None => {},
        }
        Ok(())
    }

    /// The stored ordering: the stored hashes by increasing position
    /// (empty without a store).
    pub fn load_ordering(&self) -> (r: Result<Vec<Hash32>, BlockchainError>)
        requires
            self.wf(),
        ensures
            r matches Ok(v) && in_position_order(v@, match self.disk() {
                None => Map::<u64, Seq<u8>>::empty(),
                Some(d) => stored_order(d),
            }),
    {
        let mut pairs: Vec<(u64, Hash32)> = Vec::new();
        let ghost m = match self.disk() {
            None => Map::<u64, Seq<u8>>::empty(),
            Some(d) => stored_order(d),
        };
        match &self.database {
            Some(db) => {
                let prefix = table_prefix(PREFIX_ORDERING);
                let entries = db.scan_prefix_collect(&prefix);
                let ghost d = db@;
                let mut i: usize = 0;
                proof {
                    lemma_keys_distinct();
                    assert forall|j: int| 0 <= j < entries@.len() implies in_table(
                        #[trigger] entries@[j].0@,
                        PREFIX_ORDERING,
                    ) by {
                        lemma_prefix_one(entries@[j].0@, PREFIX_ORDERING);
                    }
                }
                while i < entries.len()
                    invariant
                        i <= entries@.len(),
                        m == stored_order(d),
                        forall|j: int|
                            0 <= j < entries@.len() ==> {
                                &&& in_table(#[trigger] entries@[j].0@, PREFIX_ORDERING)
                                &&& d.contains_key(entries@[j].0@)
                                &&& d[entries@[j].0@] == entries@[j].1@
                            },
                        forall|a: int, b: int| 0 <= a < b < entries@.len() ==> entries@[a].0@ != entries@[b].0@,
                        forall|x: u64, y: u64| order_key(x) == order_key(y) ==> x == y,
                        forall|p: int|
                            0 <= p < pairs@.len() ==> m.contains_key((#[trigger] pairs@[p]).0) && pairs@[p].1.0@ == m[pairs@[p].0]
                                && exists|j: int| 0 <= j < i && entries@[j].0@ == order_key(pairs@[p].0),
                        forall|p: int, q: int| 0 <= p < q < pairs@.len() ==> (#[trigger] pairs@[p]).0 != (#[trigger] pairs@[q]).0,
                        forall|j: int|
                            0 <= j < i && entries@[j].0@.len() == 9 && entries@[j].1@.len() == 32 ==> exists|p: int|
                                0 <= p < pairs@.len() && order_key(pairs@[p].0) == #[trigger] entries@[j].0@,
                    decreases entries@.len() - i,
                {
                    let k = &entries[i].0;
                    let v = &entries[i].1;
                    if k.len() == 9 && v.len() == 32 {
                        let idx = read_be(k.as_slice(), 1);
                        let h = hash_at(v.as_slice(), 0);
                        proof {
                            lemma_order_key(k@);
                            assert(order_key(idx) == k@);
                            assert(h.0@ =~= v@);
                            assert forall|p: int| 0 <= p < pairs@.len() implies (#[trigger] pairs@[p]).0 != idx by {
                                let j = choose|j: int| 0 <= j < i && entries@[j].0@ == order_key(pairs@[p].0);
                                if pairs@[p].0 == idx {
                                    assert(entries@[j].0@ == entries@[i as int].0@);
                                }
                            }
                        }
                        let ghost before = pairs@;
                        pairs.push((idx, h));
                        proof {
                            assert forall|p: int| 0 <= p < pairs@.len() implies m.contains_key((#[trigger] pairs@[p]).0) && pairs@[p].1.0@ == m[pairs@[p].0]
                                && exists|j: int| 0 <= j < i + 1 && entries@[j].0@ == order_key(pairs@[p].0) by {
                                if p < before.len() {
                                    assert(pairs@[p] == before[p]);
                                    let j = choose|j: int| 0 <= j < i && entries@[j].0@ == order_key(before[p].0);
                                    assert(0 <= j < i + 1 && entries@[j].0@ == order_key(pairs@[p].0));
                                } else {
                                    assert(entries@[i as int].0@ == order_key(pairs@[p].0));
                                }
                            }
                            assert forall|j: int| 0 <= j < i + 1 && entries@[j].0@.len() == 9 && entries@[j].1@.len() == 32 implies exists|p: int|
                                0 <= p < pairs@.len() && order_key(pairs@[p].0) == #[trigger] entries@[j].0@ by {
                                if j == i {
                                    assert(order_key(pairs@[before.len() as int].0) == entries@[j].0@);
                                } else {
                                    let p = choose|p: int| 0 <= p < before.len() && order_key(before[p].0) == entries@[j].0@;
                                    assert(pairs@[p] == before[p]);
                                }
                            }
                        }
                    }
                    i = i + 1;
                }
                proof {
                    assert forall|x: u64| #[trigger] m.contains_key(x) implies exists|p: int| 0 <= p < pairs@.len() && pairs@[p].0 == x by {
                        lemma_prefix_one(order_key(x), PREFIX_ORDERING);
                        let j = choose|j: int| 0 <= j < entries@.len() && entries@[j].0@ == order_key(x);
                        let p = choose|p: int| 0 <= p < pairs@.len() && order_key(pairs@[p].0) == #[trigger] entries@[j].0@;
                    }
                }
            },
            None => {},
        }
        let sorted = sort_by_position(&pairs);
        let mut out: Vec<Hash32> = Vec::new();
        let mut p: usize = 0;
        while p < sorted.len()
            invariant
                p <= sorted@.len(),
                out@.len() == p,
                forall|q: int| 0 <= q < p ==> out@[q] == (#[trigger] sorted@[q]).1,
            decreases sorted@.len() - p,
        {
            out.push(sorted[p].1);
            p = p + 1;
        }
        proof {
            let idx = sorted@.map_values(|e: (u64, Hash32)| e.0);
            assert forall|x: u64| #[trigger] m.contains_key(x) <==> idx.contains(x) by {
                if m.contains_key(x) {
                    let q = choose|q: int| 0 <= q < pairs@.len() && pairs@[q].0 == x;
                    assert(pairs@.contains(pairs@[q]));
                    assert(sorted@.contains(pairs@[q]));
                    let s = choose|s: int| 0 <= s < sorted@.len() && sorted@[s] == pairs@[q];
                    assert(idx[s] == x);
                }
                if idx.contains(x) {
                    let s = choose|s: int| 0 <= s < idx.len() && idx[s] == x;
                    assert(sorted@.contains(sorted@[s]));
                    assert(pairs@.contains(sorted@[s]));
                    let q = choose|q: int| 0 <= q < pairs@.len() && pairs@[q] == sorted@[s];
                    assert(m.contains_key(pairs@[q].0));
                }
            }
            assert forall|q: int| 0 <= q < out@.len() implies (#[trigger] out@[q]).0@ == m[idx[q]] by {
                assert(sorted@.contains(sorted@[q]));
                assert(pairs@.contains(sorted@[q]));
                let a = choose|a: int| 0 <= a < pairs@.len() && pairs@[a] == sorted@[q];
                assert(out@[q] == sorted@[q].1);
            }
            assert forall|a: int, b: int| 0 <= a < b < idx.len() implies #[trigger] idx[a] < #[trigger] idx[b] by {
                assert(sorted@[a].0 < sorted@[b].0);
            }
        }
        Ok(out)
    }
}

/// The scores of the first `n` keys of `keys`, as `m` holds them.
pub open spec fn scores_upto(m: Map<Hash32, u64>, keys: Seq<Hash32>, n: int) -> Map<Hash32, u64> {
    Map::new(|h: Hash32| exists|j: int| 0 <= j < n && keys[j] == h, |h: Hash32| m[h])
}

/// What loading a checkpoint from the store `d` gives: nothing without
/// valid metadata or when both the blue set and the ordering are empty.
pub open spec fn loads_checkpoint(
    d: Map<Seq<u8>, Seq<u8>>,
    r: Option<(Option<Hash32>, KeySet<Hash32>, KeyMap<Hash32, u64>, Vec<Hash32>)>,
) -> bool {
    if !d.contains_key(meta_key()) || d[meta_key()].len() < 40 || (stored_blue(d).is_empty()
        && stored_order(d).dom().is_empty()) {
        r is None
    } else {
        r matches Some((g, b, sc, o)) && b.wf() && b@ == stored_blue(d) && sc.wf() && sc@
            == stored_scores(d) && in_position_order(o@, stored_order(d)) && genesis_matches(
            g,
            d[meta_key()],
        )
    }
}

impl HybridDagStorage {
    /// Saves a checkpoint of the consensus state: the metadata (genesis
    /// hash and ordering length), the blue set (replacing the stored one),
    /// the blue scores (added to the stored ones) and the ordering
    /// (replacing the stored one). Nothing without a store.
    pub fn save_checkpoint(
        &mut self,
        genesis_hash: Option<Hash32>,
        blue_set: &KeySet<Hash32>,
        blue_scores: &KeyMap<Hash32, u64>,
        ordering: &[Hash32],
    ) -> (r: Result<(), BlockchainError>)
        requires
            old(self).wf(),
            blue_set.wf(),
            blue_scores.wf(),
        ensures
            r is Ok,
            final(self).wf(),
            same_cache(*old(self), *final(self)),
            final(self).disk() == match old(self).disk() {
                None => None,
                Some(d) => Some(
                    saved_checkpoint(d, genesis_hash, blue_set@, blue_scores@, ordering@),
                ),
            },
    {
        if self.database.is_none() {
            return Ok(());
        }
        let ghost d = self.disk().unwrap();
        let mut meta: Vec<u8> = Vec::new();
        match genesis_hash {
            Some(g) => push_all(&mut meta, &g.0),
            None => {
                let zero = [0u8; 32];
                proof {
                    assert(zero@ =~= zero_hash_bytes());
                }
                push_all(&mut meta, &zero);
            },
        }
        let count = be_bytes(ordering.len() as u64);
        push_all(&mut meta, count.as_slice());
        proof {
            assert(meta@ =~= meta_value(genesis_hash, ordering@.len() as u64));
        }
        match self.database.take() {
            Some(mut db) => {
                db.insert_raw(meta_key_bytes(), meta);
                self.database = Some(db);
            },
            None => {},
        }
        let ghost d1 = d.insert(meta_key(), meta_value(genesis_hash, ordering@.len() as u64));
        let _ = self.save_blue_set(blue_set);
        let ghost d2 = replace_blue(d1, blue_set@);
        proof {
            blue_scores.lemma_seqs();
            lemma_add_no_scores(d2);
            assert(scores_upto(blue_scores@, blue_scores.key_seq(), 0) =~= Map::<Hash32, u64>::empty());
        }
        let n = blue_scores.len();
        let mut i: usize = 0;
        while i < n
            invariant
                self.wf(),
                same_cache(*old(self), *self),
                blue_scores.wf(),
                n == blue_scores.key_seq().len(),
                i <= n,
                self.disk() == Some(add_scores(d2, scores_upto(blue_scores@, blue_scores.key_seq(), i as int))),
            decreases n - i,
        {
            let h = blue_scores.key_at(i);
            let sc = *blue_scores.value_at(i);
            let _ = self.save_blue_score(&h, sc);
            proof {
                lemma_add_scores_insert(d2, scores_upto(blue_scores@, blue_scores.key_seq(), i as int), h, sc);
                assert(scores_upto(blue_scores@, blue_scores.key_seq(), i as int).insert(h, sc) =~= scores_upto(
                    blue_scores@,
                    blue_scores.key_seq(),
                    i + 1,
                )) by {
                    assert forall|x: Hash32| #[trigger] scores_upto(blue_scores@, blue_scores.key_seq(), i + 1).contains_key(x) <==> (scores_upto(blue_scores@, blue_scores.key_seq(), i as int).contains_key(x) || x == h) by {
                        if x == h {
                            assert(blue_scores.key_seq()[i as int] == x);
                        }
                        if exists|j: int| 0 <= j < i + 1 && blue_scores.key_seq()[j] == x {
                            let j = choose|j: int| 0 <= j < i + 1 && blue_scores.key_seq()[j] == x;
                            if j < i {
                                assert(0 <= j < i && blue_scores.key_seq()[j] == x);
                            }
                        }
                    }
                }
            }
            i = i + 1;
        }
        proof {
            blue_scores.lemma_seqs();
            assert(scores_upto(blue_scores@, blue_scores.key_seq(), n as int) =~= blue_scores@) by {
                assert forall|x: Hash32| #[trigger] blue_scores@.contains_key(x) implies exists|j: int| 0 <= j < n && blue_scores.key_seq()[j] == x by {
                    assert(blue_scores.key_seq().contains(x));
                }
            }
        }
        let _ = self.save_ordering(ordering);
        Ok(())
    }

    /// Loads the last checkpoint: the genesis hash (none when stored as
    /// zeros), the blue set, the blue scores and the ordering; nothing
    /// without a store, without valid metadata, or when the blue set and
    /// the ordering are both empty.
    pub fn load_checkpoint(&self) -> (r: Result<
        Option<(Option<Hash32>, KeySet<Hash32>, KeyMap<Hash32, u64>, Vec<Hash32>)>,
        BlockchainError,
    >)
        requires
            self.wf(),
        ensures
            r matches Ok(res) && match self.disk() {
                None => res is None,
                Some(d) => loads_checkpoint(d, res),
            },
    {
        let meta = match &self.database {
            None => {
                return Ok(None);
            },
            Some(db) => db.get_raw(meta_key_bytes().as_slice()),
        };
        let ghost d = self.disk().unwrap();
        let meta = match meta {
            Some(m) => m,
            None => {
                return Ok(None);
            },
        };
        if meta.len() < 40 {
            return Ok(None);
        }
        let g = hash_at(meta.as_slice(), 0);
        let zero = [0u8; 32];
        let genesis = if bytes_equal(&g.0, &zero) {
            None
        } else {
            Some(g)
        };
        proof {
            assert(zero@ =~= zero_hash_bytes());
            assert(g.0@ =~= meta@.take(32));
            if g.0@ == zero_hash_bytes() {
                vstd::array::axiom_array_ext_equal(g.0, zero);
                assert(g.0 =~= zero);
            }
        }
        let blue = match self.load_blue_set() {
            Ok(b) => b,
            Err(e) => {
                return Err(e);
            },
        };
        let scores = match self.load_blue_scores() {
            Ok(s) => s,
            Err(e) => {
                return Err(e);
            },
        };
        let ordering = match self.load_ordering() {
            Ok(o) => o,
            Err(e) => {
                return Err(e);
            },
        };
        proof {
            lemma_position_order_empty(ordering@, stored_order(d));
            assert(stored_order(d).dom().is_empty() == (stored_order(d).dom() == Set::<u64>::empty()));
            assert(stored_blue(d).is_empty() == (stored_blue(d) == Set::<Hash32>::empty()));
        }
        if blue.is_empty() && ordering.len() == 0 {
            return Ok(None);
        }
        Ok(Some((genesis, blue, scores, ordering)))
    }
}

} // verus!
