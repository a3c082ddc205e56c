//! GhostDAG consensus: blue-set selection and block ordering over a DAG of
//! blocks, with hybrid storage as the only holder of block data.
pub mod sort;
pub mod storage;
pub mod checkpoint;
pub mod stats;

use vstd::prelude::*;

use crate::block::{same_block, Block};
use crate::collections::{lemma_push_contains, KeyMap, KeySet};
use crate::error::BlockchainError;
use crate::types::Hash32;

use self::sort::{entry_hashes, entry_le, sort_entries, sorted_entries, ScoredEntry};
use self::checkpoint::{
    genesis_matches, in_position_order, meta_key, saved_checkpoint, stored_blue, stored_order,
    stored_scores,
};
use self::storage::{pool, DagStorageConfig, HybridDagStorage};
use crate::database::Database;

verus! {

/// The most tips `get_tips` returns.
pub const MAX_TIPS: usize = 3;

/// The children recorded for `h` (empty when none are).
pub open spec fn children_of(store: HybridDagStorage, h: Hash32) -> Seq<Hash32> {
    if store.children().contains_key(h) {
        store.children()[h]
    } else {
        Seq::empty()
    }
}

/// The parents of the stored block `h`.
pub open spec fn parents_of(store: HybridDagStorage, h: Hash32) -> Seq<Hash32> {
    store.blocks()[h].header.parent_hashes@
}

/// `x` is reached from `from` by following `n` child links.
pub open spec fn reaches(store: HybridDagStorage, from: Hash32, x: Hash32, n: nat) -> bool
    decreases n,
{
    if n == 0 {
        x == from
    } else {
        exists|p: Hash32|
            reaches(store, from, p, (n - 1) as nat) && #[trigger] children_of(store, p).contains(x)
    }
}

/// `x` is `from` or one of its descendants along child links.
pub open spec fn descends(store: HybridDagStorage, from: Hash32, x: Hash32) -> bool {
    exists|n: nat| #[trigger] reaches(store, from, x, n)
}

/// A child of a descendant is a descendant.
pub proof fn lemma_descends_child(store: HybridDagStorage, from: Hash32, p: Hash32, c: Hash32)
    requires
        descends(store, from, p),
        children_of(store, p).contains(c),
    ensures
        descends(store, from, c),
{
    let n = choose|n: nat| #[trigger] reaches(store, from, p, n);
    assert(reaches(store, from, c, n + 1));
}

/// The colors and score of `x` are the same in `a` and `b`.
pub open spec fn same_color_at(a: GhostDAG, b: GhostDAG, x: Hash32) -> bool {
    &&& b.blue().contains(x) == a.blue().contains(x)
    &&& b.red().contains(x) == a.red().contains(x)
    &&& b.scores().contains_key(x) == a.scores().contains_key(x)
    &&& a.scores().contains_key(x) ==> b.scores()[x] == a.scores()[x]
}

/// The highest score among the parents in `ps` that are blue and scored.
pub open spec fn best_parent(ps: Seq<Hash32>, blue: Set<Hash32>, sc: Map<Hash32, u64>) -> Option<
    u64,
>
    decreases ps.len(),
{
    if ps.len() == 0 {
        None
    } else {
        let rest = best_parent(ps.drop_last(), blue, sc);
        let p = ps.last();
        if blue.contains(p) && sc.contains_key(p) {
            match rest {
                None => Some(sc[p]),
                Some(m) => Some(
                    if sc[p] > m {
                        sc[p]
                    } else {
                        m
                    },
                ),
            }
        } else {
            rest
        }
    }
}

/// A coloring of blocks: blue set, red set and blue scores.
pub type Coloring = (Set<Hash32>, Set<Hash32>, Map<Hash32, u64>);

/// Colors block `h`: a stored block with a blue, scored parent is blue with
/// score one more than the best such parent; a stored block without one is
/// red; a hash with no stored block is left alone.
pub open spec fn color_step(store: HybridDagStorage, c: Coloring, h: Hash32) -> Coloring {
    if !store.blocks().contains_key(h) {
        c
    } else {
        match best_parent(parents_of(store, h), c.0, c.2) {
            Some(m) => (c.0.insert(h), c.1, c.2.insert(h, (m + 1) as u64)),
            None => (c.0, c.1.insert(h), c.2),
        }
    }
}

/// The coloring obtained by visiting `vs` in order, starting from the
/// genesis `vs[0]`, blue with score 1.
pub open spec fn visit_coloring(store: HybridDagStorage, vs: Seq<Hash32>) -> Coloring
    decreases vs.len(),
{
    if vs.len() == 0 {
        (Set::empty(), Set::empty(), Map::empty())
    } else if vs.len() == 1 {
        (Set::empty().insert(vs[0]), Set::empty(), Map::empty().insert(vs[0], 1u64))
    } else {
        color_step(store, visit_coloring(store, vs.drop_last()), vs.last())
    }
}

/// `vs` is a search of the DAG from `g` along children links: it starts at
/// `g`, lists no hash twice, every later hash is a child of an earlier one,
/// and every child of a listed hash is listed.
pub open spec fn search_order(store: HybridDagStorage, g: Hash32, vs: Seq<Hash32>) -> bool {
    &&& vs.len() >= 1
    &&& vs[0] == g
    &&& vs.no_duplicates()
    &&& forall|i: int| 1 <= i < vs.len() ==> #[trigger] found_from_earlier(store, vs, i)
    &&& forall|i: int, c: Hash32|
        0 <= i < vs.len() && #[trigger] children_of(store, vs[i]).contains(c) ==> vs.contains(c)
}

/// `vs[i]` is a child of some `vs[j]` with `j < i`.
pub open spec fn found_from_earlier(store: HybridDagStorage, vs: Seq<Hash32>, i: int) -> bool {
    exists|j: int| 0 <= j < i && #[trigger] children_of(store, vs[j]).contains(vs[i])
}

/// The score used to order `h`: its blue score, or 0 when it has none.
pub open spec fn score_or_zero(sc: Map<Hash32, u64>, h: Hash32) -> u64 {
    if sc.contains_key(h) {
        sc[h]
    } else {
        0
    }
}

/// `a` may precede `b` in the ordering: higher score, or equal score and
/// no later timestamp.
pub open spec fn precedes(store: HybridDagStorage, sc: Map<Hash32, u64>, a: Hash32, b: Hash32) -> bool {
    entry_le(
        (a, score_or_zero(sc, a), store.blocks()[a].header.timestamp),
        (b, score_or_zero(sc, b), store.blocks()[b].header.timestamp),
    )
}

/// `o` lists each stored blue block once, sorted by score (highest first)
/// and then timestamp (earliest first).
pub open spec fn ordering_of(
    store: HybridDagStorage,
    blue: Set<Hash32>,
    sc: Map<Hash32, u64>,
    o: Seq<Hash32>,
) -> bool {
    &&& o.no_duplicates()
    &&& forall|h: Hash32| #[trigger]
        o.contains(h) <==> (blue.contains(h) && store.blocks().contains_key(h))
    &&& forall|a: int, b: int|
        0 <= a < b < o.len() ==> precedes(store, sc, #[trigger] o[a], #[trigger] o[b])
}

/// GhostDAG consensus engine. Block data lives only in `storage`; this
/// struct holds the consensus state.
pub struct GhostDAG {
    /// Security parameter K: the most tips returned for parent selection.
    k: usize,
    storage: HybridDagStorage,
    genesis_hash: Option<Hash32>,
    blue_set: KeySet<Hash32>,
    red_set: KeySet<Hash32>,
    blue_score: KeyMap<Hash32, u64>,
    /// Timestamps of added blocks, for ordering without reading storage.
    block_timestamps: KeyMap<Hash32, u64>,
    /// Consensus ordering: highest blue score first.
    ordering: Vec<Hash32>,
    /// Whether a stale consensus state was already rebuilt once.
    checkpoint_stale_rebuilt: bool,
}

impl GhostDAG {
    /// Containers are well formed, K is in 1..=64, every blue block has a
    /// score, and the checkpoint counter stays below its interval.
    pub closed spec fn wf(&self) -> bool {
        &&& self.storage.wf()
        &&& self.blue_set.wf()
        &&& self.red_set.wf()
        &&& self.blue_score.wf()
        &&& self.block_timestamps.wf()
        &&& 1 <= self.k <= 64
        &&& forall|h: Hash32| #[trigger] self.blue_set@.contains(h) ==> self.blue_score@.contains_key(h)
        &&& self.storage.checkpoint_confirmations() > 0 ==> self.storage.counter()
            < self.storage.checkpoint_confirmations()
        &&& self.storage.checkpoint_confirmations() <= usize::MAX / 2
    }

    pub closed spec fn k_spec(&self) -> usize {
        self.k
    }

    pub closed spec fn store(&self) -> HybridDagStorage {
        self.storage
    }

    pub closed spec fn genesis(&self) -> Option<Hash32> {
        self.genesis_hash
    }

    pub closed spec fn blue(&self) -> Set<Hash32> {
        self.blue_set@
    }

    pub closed spec fn red(&self) -> Set<Hash32> {
        self.red_set@
    }

    pub closed spec fn scores(&self) -> Map<Hash32, u64> {
        self.blue_score@
    }

    pub closed spec fn timestamps(&self) -> Map<Hash32, u64> {
        self.block_timestamps@
    }

    pub closed spec fn ordering(&self) -> Seq<Hash32> {
        self.ordering@
    }

    pub closed spec fn stale_rebuilt(&self) -> bool {
        self.checkpoint_stale_rebuilt
    }

    pub proof fn lemma_wf(&self)
        requires
            self.wf(),
        ensures
            self.store().wf(),
            1 <= self.k_spec() <= 64,
            self.blue().finite(),
            self.red().finite(),
            forall|h: Hash32| #[trigger] self.blue().contains(h) ==> self.scores().contains_key(h),
    {
        self.blue_set.lemma_seq();
        self.red_set.lemma_seq();
    }

    /// A GhostDAG with K = 4.
    pub fn new() -> (d: Self)
        ensures
            d.wf(),
            d.k_spec() == 4,
            d.genesis() is None,
            d.blue() == Set::<Hash32>::empty(),
            d.red() == Set::<Hash32>::empty(),
            d.scores() == Map::<Hash32, u64>::empty(),
            d.ordering() == Seq::<Hash32>::empty(),
            d.store().blocks() == Map::<Hash32, Block>::empty(),
            d.store().cache_size() == 1000,
            d.store().checkpoint_confirmations() == 100,
            d.store().children() == Map::<Hash32, Seq<Hash32>>::empty(),
    {
        Self::with_k(4)
    }

    /// A GhostDAG with security parameter `k` (1 to 64) and default storage.
    pub fn with_k(k: usize) -> (d: Self)
        requires
            1 <= k <= 64,
        ensures
            d.wf(),
            d.k_spec() == k,
            d.genesis() is None,
            d.blue() == Set::<Hash32>::empty(),
            d.red() == Set::<Hash32>::empty(),
            d.scores() == Map::<Hash32, u64>::empty(),
            d.timestamps() == Map::<Hash32, u64>::empty(),
            d.ordering() == Seq::<Hash32>::empty(),
            !d.stale_rebuilt(),
            d.store().blocks() == Map::<Hash32, Block>::empty(),
            d.store().children() == Map::<Hash32, Seq<Hash32>>::empty(),
            d.store().finalized() == Set::<Hash32>::empty(),
            d.store().cache_size() == 1000,
            d.store().checkpoint_confirmations() == 100,
            d.store().counter() == 0,
    {
        GhostDAG {
            k,
            storage: HybridDagStorage::new(DagStorageConfig::default()),
            genesis_hash: None,
            blue_set: KeySet::new(),
            red_set: KeySet::new(),
            blue_score: KeyMap::new(),
            block_timestamps: KeyMap::new(),
            ordering: Vec::new(),
            checkpoint_stale_rebuilt: false,
        }
    }

    /// A GhostDAG with K = 4 over `database`, starting from the checkpoint
    /// stored there, if any.
    pub fn with_database(database: Database) -> (d: Self)
        requires
            database.wf(),
            checkpoint_consistent(database@),
        ensures
            d.wf(),
            d.k_spec() == 4,
            opened_from(d, database@),
    {
        Self::with_database_and_k(database, 4)
    }

    /// A GhostDAG with security parameter `k` (1 to 64) over `database`: the
    /// consensus state is the checkpoint stored there when one is present
    /// (see `HybridDagStorage::load_checkpoint`), and empty otherwise.
    /// A store whose checkpoint has a blue block without a score is opened
    /// by `open_checked`, which reports it.
    pub fn with_database_and_k(database: Database, k: usize) -> (d: Self)
        requires
            1 <= k <= 64,
            database.wf(),
            checkpoint_consistent(database@),
        ensures
            d.wf(),
            d.k_spec() == k,
            opened_from(d, database@),
    {
        match Self::open_checked(database, k) {
            Some(d) => d,
            None => {
                proof {
                    assert(false);
                }
                Self::with_k(k)
            },
        }
    }

    /// Opens a GhostDAG with security parameter `k` (1 to 64) over any
    /// `database`: `None` when its checkpoint has a blue block without a
    /// score (see `checkpoint_consistent`), and otherwise the GhostDAG that
    /// `with_database_and_k` opens.
    pub fn open_checked(database: Database, k: usize) -> (r: Option<Self>)
        requires
            1 <= k <= 64,
            database.wf(),
        ensures
            r is Some <==> checkpoint_consistent(database@),
            r matches Some(d) ==> d.wf() && d.k_spec() == k && opened_from(d, database@),
    {
        let config = DagStorageConfig {
            hot_cache_size: 1000,
            finalized_depth: 500,
            confirmations_for_checkpoint: 100,
        };
        let ghost dm = database@;
        let storage = HybridDagStorage::with_database(database, config);
        let (genesis_hash, blue_set, blue_score, ordering) = match storage.load_checkpoint() {
            Ok(Some((genesis, blue_set, blue_scores, ordering))) => {
                if !all_scored(&blue_set, &blue_scores) {
                    proof {
                        let h = choose|h: Hash32| blue_set@.contains(h) && !blue_scores@.contains_key(h);
                        assert(stored_blue(dm).contains(h));
                    }
                    return None;
                }
                (genesis, blue_set, blue_scores, ordering)
            },
            _ => (None, KeySet::new(), KeyMap::new(), Vec::new()),
        };
        Some(GhostDAG {
            k,
            storage,
            genesis_hash,
            blue_set,
            red_set: KeySet::new(),
            blue_score,
            block_timestamps: KeyMap::new(),
            ordering,
            checkpoint_stale_rebuilt: false,
        })
    }

    /// Whether any consensus state is present.
    pub fn loaded_from_checkpoint(&self) -> (r: bool)
        requires
            self.wf(),
        ensures
            r == (self.blue().len() > 0 || self.ordering().len() > 0),
    {
        !self.blue_set.is_empty() || self.ordering.len() != 0
    }

    /// The security parameter K.
    pub fn get_k(&self) -> (r: usize)
        ensures
            r == self.k_spec(),
    {
        self.k
    }

    /// The highest score among the blue, scored hashes of `parents`.
    fn best_blue_parent_score(&self, parents: &Vec<Hash32>) -> (r: Option<u64>)
        requires
            self.blue_score.wf(),
        ensures
            r == best_parent(parents@, self.blue(), self.scores()),
    {
        let mut best: Option<u64> = None;
        let mut i: usize = 0;
        while i < parents.len()
            invariant
                i <= parents@.len(),
                self.blue_score.wf(),
                best == best_parent(parents@.take(i as int), self.blue(), self.scores()),
            decreases parents@.len() - i,
        {
            let p = parents[i];
            proof {
                assert(parents@.take(i + 1).drop_last() =~= parents@.take(i as int));
            }
            if self.blue_set.contains(&p) {
                match self.blue_score.get_copy(&p) {
                    Some(s) => {
                        best = match best {
                            None => Some(s),
                            Some(m) => Some(
                                if s > m {
                                    s
                                } else {
                                    m
                                },
                            ),
                        };
                    },
                    None => {},
                }
            }
            i = i + 1;
        }
        proof {
            assert(parents@.take(parents@.len() as int) =~= parents@);
        }
        best
    }
}

/// An ordering entry carries the score and timestamp of a stored block.
pub open spec fn keyed(store: HybridDagStorage, sc: Map<Hash32, u64>, e: ScoredEntry) -> bool {
    &&& store.blocks().contains_key(e.0)
    &&& e.1 == score_or_zero(sc, e.0)
    &&& e.2 == store.blocks()[e.0].header.timestamp
}

/// Sorting keyed entries with distinct hashes yields an ordering.
proof fn lemma_sorted_entries_ordering(
    store: HybridDagStorage,
    blue: Set<Hash32>,
    sc: Map<Hash32, u64>,
    entries: Seq<ScoredEntry>,
    r: Seq<ScoredEntry>,
    o: Seq<Hash32>,
)
    requires
        forall|t: int| 0 <= t < entries.len() ==> keyed(store, sc, #[trigger] entries[t]),
        forall|a: int, b: int|
            0 <= a < b < entries.len() ==> (#[trigger] entries[a]).0 != (#[trigger] entries[b]).0,
        forall|x: Hash32|
            (exists|t: int| 0 <= t < entries.len() && #[trigger] entries[t].0 == x) <==> (blue.contains(x)
                && store.blocks().contains_key(x)),
        r.to_multiset() == entries.to_multiset(),
        sorted_entries(r),
        o == r.map_values(|e: ScoredEntry| e.0),
    ensures
        ordering_of(store, blue, sc, o),
{
    broadcast use vstd::seq_lib::group_to_multiset_ensures;

    assert(entries.no_duplicates()) by {
        assert forall|a: int, b: int|
            0 <= a < entries.len() && 0 <= b < entries.len() && a != b implies entries[a]
            != entries[b] by {
            if a < b {
                assert(entries[a].0 != entries[b].0);
            } else {
                assert(entries[b].0 != entries[a].0);
            }
        }
    }
    entries.lemma_multiset_has_no_duplicates();
    assert forall|x: ScoredEntry| r.to_multiset().contains(x) implies r.to_multiset().count(x)
        == 1 by {
        assert(entries.to_multiset().contains(x));
    }
    r.lemma_multiset_has_no_duplicates_conv();
    assert forall|t: int| 0 <= t < r.len() implies keyed(store, sc, #[trigger] r[t]) by {
        assert(r.to_multiset().count(r[t]) > 0);
        assert(entries.contains(r[t]));
        let u = choose|u: int| 0 <= u < entries.len() && entries[u] == r[t];
        assert(keyed(store, sc, entries[u]));
    }
    assert(o.no_duplicates()) by {
        assert forall|a: int, b: int| 0 <= a < o.len() && 0 <= b < o.len() && a != b implies o[a]
            != o[b] by {
            assert(keyed(store, sc, r[a]));
            assert(keyed(store, sc, r[b]));
            if o[a] == o[b] {
                assert(r[a] == r[b]);
            }
        }
    }
    assert forall|h: Hash32| #[trigger] o.contains(h) <==> (blue.contains(h)
        && store.blocks().contains_key(h)) by {
        if o.contains(h) {
            let a = choose|a: int| 0 <= a < o.len() && o[a] == h;
            assert(keyed(store, sc, r[a]));
            assert(r.to_multiset().count(r[a]) > 0);
            assert(entries.contains(r[a]));
            let u = choose|u: int| 0 <= u < entries.len() && entries[u] == r[a];
            assert(entries[u].0 == h);
        }
        if blue.contains(h) && store.blocks().contains_key(h) {
            let u = choose|u: int| 0 <= u < entries.len() && #[trigger] entries[u].0 == h;
            assert(entries.to_multiset().count(entries[u]) > 0);
            assert(r.contains(entries[u]));
            let a = choose|a: int| 0 <= a < r.len() && r[a] == entries[u];
            assert(o[a] == h);
        }
    }
    assert forall|a: int, b: int| 0 <= a < b < o.len() implies precedes(
        store,
        sc,
        #[trigger] o[a],
        #[trigger] o[b],
    ) by {
        assert(keyed(store, sc, r[a]));
        assert(keyed(store, sc, r[b]));
        assert(entry_le(r[a], r[b]));
    }
}

impl GhostDAG {
    /// The stored blue blocks sorted by blue score (highest first), then
    /// timestamp (earliest first).
    fn compute_ordering(&self) -> (r: Vec<Hash32>)
        requires
            self.storage.wf(),
            self.blue_set.wf(),
            self.blue_score.wf(),
        ensures
            ordering_of(self.store(), self.blue(), self.scores(), r@),
    {
        let ghost store = self.store();
        let ghost sc = self.scores();
        let ghost bs = self.blue_set.seq();
        proof {
            self.blue_set.lemma_seq();
        }
        let mut entries: Vec<ScoredEntry> = Vec::new();
        let n = self.blue_set.len();
        let mut i: usize = 0;
        while i < n
            invariant
                self.storage.wf(),
                self.blue_set.wf(),
                self.blue_score.wf(),
                store == self.store(),
                sc == self.scores(),
                bs == self.blue_set.seq(),
                bs.no_duplicates(),
                n == bs.len(),
                i <= n,
                forall|t: int| 0 <= t < entries@.len() ==> keyed(store, sc, #[trigger] entries@[t]),
                forall|a: int, b: int|
                    0 <= a < b < entries@.len() ==> (#[trigger] entries@[a]).0 != (
                    #[trigger] entries@[b]).0,
                forall|x: Hash32|
                    (exists|t: int| 0 <= t < entries@.len() && #[trigger] entries@[t].0 == x) <==> (
                    bs.take(i as int).contains(x) && store.blocks().contains_key(x)),
            decreases n - i,
        {
            let h = self.blue_set.at(i);
            let ghost prev = entries@;
            proof {
                crate::collections::lemma_take_succ(bs, i as int);
                crate::collections::lemma_not_in_prefix(bs, i as int);
            }
            match self.storage.get_block(&h) {
                Ok(Some(b)) => {
                    let score = match self.blue_score.get_copy(&h) {
                        Some(s) => s,
                        None => 0,
                    };
                    entries.push((h, score, b.header.timestamp));
                    proof {
                        assert(entries@[prev.len() as int] == (h, score, b.header.timestamp));
                        assert forall|a: int, c: int|
                            0 <= a < c < entries@.len() implies (#[trigger] entries@[a]).0 != (
                            #[trigger] entries@[c]).0 by {
                            if c == prev.len() {
                                if prev[a].0 == h {
                                    assert(bs.take(i as int).contains(h));
                                }
                            } else {
                                assert(entries@[a] == prev[a] && entries@[c] == prev[c]);
                            }
                        }
                        assert forall|x: Hash32|
                            (exists|t: int| 0 <= t < entries@.len() && #[trigger] entries@[t].0 == x)
                                <==> (bs.take(i + 1).contains(x) && store.blocks().contains_key(
                                x,
                            )) by {
                            if exists|t: int| 0 <= t < entries@.len() && #[trigger] entries@[t].0 == x {
                                let t = choose|t: int| 0 <= t < entries@.len() && #[trigger] entries@[t].0 == x;
                                if t < prev.len() {
                                    assert(prev[t].0 == x);
                                }
                            }
                            if bs.take(i + 1).contains(x) && store.blocks().contains_key(x) {
                                if x == h {
                                    assert(entries@[prev.len() as int].0 == x);
                                } else {
                                    assert(bs.take(i as int).contains(x));
                                    let t = choose|t: int| 0 <= t < prev.len() && #[trigger] prev[t].0 == x;
                                    assert(entries@[t].0 == x);
                                }
                            }
                        }
                    }
                },
                _ => {
                    proof {
                        assert forall|x: Hash32|
                            (exists|t: int| 0 <= t < entries@.len() && #[trigger] entries@[t].0 == x)
                                <==> (bs.take(i + 1).contains(x) && store.blocks().contains_key(
                                x,
                            )) by {
                            if x == h {
                                assert(!store.blocks().contains_key(h));
                            }
                        }
                    }
                },
            }
            i = i + 1;
        }
        proof {
            assert(bs.take(n as int) =~= bs);
            assert forall|x: Hash32|
                (exists|t: int| 0 <= t < entries@.len() && #[trigger] entries@[t].0 == x) <==> (
                self.blue().contains(x) && store.blocks().contains_key(x)) by {
                assert(bs.to_set().contains(x) == bs.contains(x));
            }
        }
        let sorted = sort_entries(&entries);
        let r = entry_hashes(&sorted);
        proof {
            lemma_sorted_entries_ordering(store, self.blue(), sc, entries@, sorted@, r@);
        }
        r
    }
}

/// The genesis is known, stored, and has no parents: a full recomputation
/// of the coloring applies.
pub open spec fn genesis_ready(d: GhostDAG) -> bool {
    &&& d.genesis() is Some
    &&& d.store().blocks().contains_key(d.genesis()->0)
    &&& parents_of(d.store(), d.genesis()->0).len() == 0
}

/// A sequence without duplicates inside a finite set is no longer than it.
proof fn lemma_seq_within(s: Seq<Hash32>, set: Set<Hash32>)
    requires
        s.no_duplicates(),
        set.finite(),
        forall|x: Hash32| #[trigger] s.contains(x) ==> set.contains(x),
    ensures
        s.len() <= set.len(),
{
    s.unique_seq_to_set();
    assert(s.to_set().subset_of(set));
    vstd::set_lib::lemma_len_subset(s.to_set(), set);
}

/// Every hash after the first is a child of an earlier one.
#[verifier::opaque]
spec fn discovered(store: HybridDagStorage, vs: Seq<Hash32>) -> bool {
    forall|i: int| 1 <= i < vs.len() ==> #[trigger] found_from_earlier(store, vs, i)
}

/// The children of the first `n` hashes are all listed.
#[verifier::opaque]
spec fn closed_upto(store: HybridDagStorage, vs: Seq<Hash32>, n: int) -> bool {
    forall|i: int, c: Hash32|
        0 <= i < n && #[trigger] children_of(store, vs[i]).contains(c) ==> vs.contains(c)
}

/// Every listed hash is in `cand`.
#[verifier::opaque]
spec fn within(vs: Seq<Hash32>, cand: Set<Hash32>) -> bool {
    forall|x: Hash32| #[trigger] vs.contains(x) ==> cand.contains(x)
}

/// Every score is at most `n`, and every blue hash is scored.
#[verifier::opaque]
spec fn scores_ok(c: Coloring, n: int) -> bool {
    &&& forall|h: Hash32| #[trigger] c.2.contains_key(h) ==> c.2[h] <= n
    &&& forall|h: Hash32| #[trigger] c.0.contains(h) ==> c.2.contains_key(h)
}

proof fn lemma_search_start(store: HybridDagStorage, g: Hash32, cand: Set<Hash32>)
    requires
        cand.contains(g),
        cand.finite(),
    ensures
        discovered(store, seq![g]),
        closed_upto(store, seq![g], 0),
        within(seq![g], cand),
        seq![g].len() <= cand.len(),
        visit_coloring(store, seq![g]) == (Set::empty().insert(g), Set::<Hash32>::empty(), Map::empty().insert(g, 1u64)),
        scores_ok(visit_coloring(store, seq![g]), 1),
{
    reveal(discovered);
    reveal(closed_upto);
    reveal(within);
    reveal(scores_ok);
    assert(seq![g].contains(g) ==> cand.contains(g));
    assert forall|x: Hash32| #[trigger] seq![g].contains(x) implies cand.contains(x) by {
        assert(seq![g][0] == g);
    }
    assert(seq![g].no_duplicates());
    lemma_seq_within(seq![g], cand);
}

/// Listing a new child of an already expanded hash keeps the search facts.
proof fn lemma_search_push(
    store: HybridDagStorage,
    cand: Set<Hash32>,
    vs_old: Seq<Hash32>,
    cur: int,
    child: Hash32,
)
    requires
        cand.finite(),
        pool(store.children()).subset_of(cand),
        0 <= cur < vs_old.len(),
        vs_old.no_duplicates(),
        !vs_old.contains(child),
        children_of(store, vs_old[cur]).contains(child),
        within(vs_old, cand),
        discovered(store, vs_old),
        closed_upto(store, vs_old, cur),
    ensures
        vs_old.push(child).no_duplicates(),
        within(vs_old.push(child), cand),
        vs_old.push(child).len() <= cand.len(),
        discovered(store, vs_old.push(child)),
        closed_upto(store, vs_old.push(child), cur),
        forall|x: Hash32| #[trigger] vs_old.push(child).contains(x) <==> (vs_old.contains(x) || x == child),
{
    reveal(discovered);
    reveal(closed_upto);
    reveal(within);
    let vs = vs_old.push(child);
    lemma_push_contains(vs_old, child);
    assert(vs.no_duplicates()) by {
        assert forall|a: int, b: int| 0 <= a < vs.len() && 0 <= b < vs.len() && a != b implies vs[a] != vs[b] by {
            if a < vs_old.len() && b < vs_old.len() {
            } else if a < vs_old.len() {
                assert(vs_old.contains(vs_old[a]));
            } else {
                assert(vs_old.contains(vs_old[b]));
            }
        }
    }
    assert(store.children().contains_key(vs_old[cur]));
    assert(pool(store.children()).contains(child));
    assert forall|x: Hash32| #[trigger] vs.contains(x) implies cand.contains(x) by {
        if x != child {
            assert(vs_old.contains(x));
        }
    }
    lemma_seq_within(vs, cand);
    assert forall|i: int| 1 <= i < vs.len() implies #[trigger] found_from_earlier(store, vs, i) by {
        if i < vs_old.len() {
            assert(found_from_earlier(store, vs_old, i));
            let jj = choose|jj: int|
                0 <= jj < i && #[trigger] children_of(store, vs_old[jj]).contains(vs_old[i]);
            assert(vs[jj] == vs_old[jj]);
            assert(vs[i] == vs_old[i]);
            assert(children_of(store, vs[jj]).contains(vs[i]));
        } else {
            assert(vs[cur] == vs_old[cur]);
            assert(children_of(store, vs[cur]).contains(vs[i]));
        }
    }
    assert forall|i: int, c: Hash32|
        0 <= i < cur && #[trigger] children_of(store, vs[i]).contains(c) implies vs.contains(c) by {
        assert(vs[i] == vs_old[i]);
        assert(vs_old.contains(c));
    }
}

/// Coloring one more visited hash is one more coloring step.
proof fn lemma_coloring_push(store: HybridDagStorage, vs_old: Seq<Hash32>, child: Hash32)
    requires
        vs_old.len() >= 1,
    ensures
        visit_coloring(store, vs_old.push(child)) == color_step(
            store,
            visit_coloring(store, vs_old),
            child,
        ),
{
    assert(vs_old.push(child).drop_last() =~= vs_old);
}

/// A coloring step keeps scores bounded by one more than before.
proof fn lemma_color_step_scores(store: HybridDagStorage, c: Coloring, h: Hash32, n: int)
    requires
        scores_ok(c, n),
        n >= 0,
    ensures
        scores_ok(color_step(store, c, h), n + 1),
        store.blocks().contains_key(h) ==> (best_parent(parents_of(store, h), c.0, c.2) matches Some(m) ==> m <= n),
{
    reveal(scores_ok);
    lemma_best_parent_bound(parents_of(store, h), c.0, c.2, n);
}

/// The search facts at the end of the search make a search order.
proof fn lemma_search_done(store: HybridDagStorage, g: Hash32, vs: Seq<Hash32>)
    requires
        vs.len() >= 1,
        vs[0] == g,
        vs.no_duplicates(),
        discovered(store, vs),
        closed_upto(store, vs, vs.len() as int),
    ensures
        search_order(store, g, vs),
{
    reveal(discovered);
    reveal(closed_upto);
    assert forall|i: int, c: Hash32|
        0 <= i < vs.len() && #[trigger] children_of(store, vs[i]).contains(c) implies vs.contains(c) by {
    }
}

/// Expanding all children of `vs[cur]` extends the closure to `cur + 1`.
proof fn lemma_closed_step(store: HybridDagStorage, vs: Seq<Hash32>, cur: int, kids: Seq<Hash32>)
    requires
        0 <= cur < vs.len(),
        closed_upto(store, vs, cur),
        kids == children_of(store, vs[cur]),
        forall|t: int| 0 <= t < kids.len() ==> vs.contains(#[trigger] kids[t]),
    ensures
        closed_upto(store, vs, cur + 1),
{
    reveal(closed_upto);
    assert forall|i: int, c: Hash32|
        0 <= i < cur + 1 && #[trigger] children_of(store, vs[i]).contains(c) implies vs.contains(c) by {
        if i == cur {
            let t = choose|t: int| 0 <= t < kids.len() && kids[t] == c;
            assert(vs.contains(kids[t]));
        }
    }
}

/// Listing more hashes keeps the closure of the first `n`.
proof fn lemma_closed_grow(store: HybridDagStorage, vs: Seq<Hash32>, x: Hash32, n: int)
    requires
        closed_upto(store, vs, n),
        0 <= n <= vs.len(),
    ensures
        closed_upto(store, vs.push(x), n),
{
    reveal(closed_upto);
    lemma_push_contains(vs, x);
    assert forall|i: int, c: Hash32|
        0 <= i < n && #[trigger] children_of(store, vs.push(x)[i]).contains(c) implies vs.push(x).contains(c) by {
        assert(vs.push(x)[i] == vs[i]);
    }
}

impl GhostDAG {
    /// Recomputes the blue set, red set, blue scores and ordering from the
    /// genesis: a breadth-first search along children links colors each
    /// newly reached block (see `visit_coloring`), then the stored blue
    /// blocks are ordered. Nothing changes when the genesis is unknown,
    /// not stored, or has parents.
    fn update_blue_set(&mut self) -> (r: Result<(), BlockchainError>)
        requires
            old(self).wf(),
        ensures
            r is Ok,
            final(self).wf(),
            final(self).store() == old(self).store(),
            final(self).genesis() == old(self).genesis(),
            final(self).timestamps() == old(self).timestamps(),
            final(self).k_spec() == old(self).k_spec(),
            final(self).stale_rebuilt() == old(self).stale_rebuilt(),
            !genesis_ready(*old(self)) ==> *final(self) == *old(self),
            genesis_ready(*old(self)) ==> exists|vs: Seq<Hash32>|
                search_order(old(self).store(), old(self).genesis()->0, vs) && (
                final(self).blue(),
                final(self).red(),
                final(self).scores(),
            ) == visit_coloring(old(self).store(), vs),
            genesis_ready(*old(self)) ==> ordering_of(
                final(self).store(),
                final(self).blue(),
                final(self).scores(),
                final(self).ordering(),
            ),
    {
        let genesis_hash = match self.genesis_hash {
            Some(g) => g,
            None => {
                return Ok(());
            },
        };
        let genesis_block = match self.storage.get_block(&genesis_hash) {
            Ok(Some(b)) => b,
            _ => {
                return Ok(());
            },
        };
        if genesis_block.header.parent_hashes.len() != 0 {
            return Ok(());
        }
        let ghost store = self.store();
        let ghost g = genesis_hash;
        let ghost cand = pool(store.children()).insert(g);
        proof {
            store.lemma_wf();
            lemma_search_start(store, g, cand);
        }
        let ghost bound = cand.len();
        self.blue_score.clear();
        self.blue_set.clear();
        self.red_set.clear();
        self.blue_score.insert(genesis_hash, 1);
        self.blue_set.insert(genesis_hash);
        let mut visited: KeySet<Hash32> = KeySet::new();
        visited.insert(genesis_hash);
        let mut head: usize = 0;
        proof {
            assert(visited.seq() =~= seq![g]);
            assert(self.blue() =~= Set::empty().insert(g));
            assert(self.red() =~= Set::<Hash32>::empty());
            assert(self.scores() =~= Map::empty().insert(g, 1u64));
        }
        while head < visited.len()
            invariant
                self.storage == old(self).storage,
                self.genesis_hash == old(self).genesis_hash,
                self.block_timestamps == old(self).block_timestamps,
                self.k == old(self).k,
                self.checkpoint_stale_rebuilt == old(self).checkpoint_stale_rebuilt,
                store == self.store(),
                store.wf(),
                old(self).wf(),
                self.blue_set.wf(),
                self.red_set.wf(),
                self.blue_score.wf(),
                visited.wf(),
                cand == pool(store.children()).insert(g),
                cand.finite(),
                bound == cand.len(),
                visited.seq().len() >= 1,
                visited.seq()[0] == g,
                head <= visited.seq().len(),
                visited.seq().len() <= bound,
                within(visited.seq(), cand),
                (self.blue(), self.red(), self.scores()) == visit_coloring(store, visited.seq()),
                scores_ok(visit_coloring(store, visited.seq()), visited.seq().len() as int),
                discovered(store, visited.seq()),
                closed_upto(store, visited.seq(), head as int),
            decreases bound - head,
        {
            let current = visited.at(head);
            let ghost cur = head as int;
            head = head + 1;
            let children = match self.storage.get_children(&current) {
                Ok(c) => c,
                Err(e) => {
                    return Err(e);
                },
            };
            let mut j: usize = 0;
            while j < children.len()
                invariant
                    self.storage == old(self).storage,
                    self.genesis_hash == old(self).genesis_hash,
                    self.block_timestamps == old(self).block_timestamps,
                    self.k == old(self).k,
                    self.checkpoint_stale_rebuilt == old(self).checkpoint_stale_rebuilt,
                    store == self.store(),
                    store.wf(),
                    old(self).wf(),
                    self.blue_set.wf(),
                    self.red_set.wf(),
                    self.blue_score.wf(),
                    visited.wf(),
                    cand == pool(store.children()).insert(g),
                    cand.finite(),
                    bound == cand.len(),
                    visited.seq().len() >= 1,
                    visited.seq()[0] == g,
                    0 <= cur,
                    head == cur + 1,
                    head <= visited.seq().len(),
                    visited.seq().len() <= bound,
                    current == visited.seq()[cur],
                    children@ == children_of(store, current),
                    j <= children@.len(),
                    within(visited.seq(), cand),
                    (self.blue(), self.red(), self.scores()) == visit_coloring(
                        store,
                        visited.seq(),
                    ),
                    scores_ok(visit_coloring(store, visited.seq()), visited.seq().len() as int),
                    discovered(store, visited.seq()),
                    closed_upto(store, visited.seq(), cur),
                    forall|t: int| 0 <= t < j ==> visited.seq().contains(#[trigger] children@[t]),
                decreases children@.len() - j,
            {
                let child = children[j];
                j = j + 1;
                proof {
                    visited.lemma_seq();
                }
                if visited.contains(&child) {
                    continue;
                }
                let ghost vs_old = visited.seq();
                let ghost col_old = (self.blue(), self.red(), self.scores());
                proof {
                    assert(children_of(store, vs_old[cur]).contains(child)) by {
                        assert(children@[j - 1] == child);
                    }
                    assert(pool(store.children()).subset_of(cand));
                    lemma_search_push(store, cand, vs_old, cur, child);
                    lemma_coloring_push(store, vs_old, child);
                    lemma_closed_grow(store, vs_old, child, cur);
                    lemma_color_step_scores(store, col_old, child, vs_old.len() as int);
                }
                visited.insert(child);
                proof {
                    visited.lemma_seq();
                    assert forall|t: int| 0 <= t < j implies visited.seq().contains(#[trigger] children@[t]) by {
                        if t < j - 1 {
                            assert(vs_old.contains(children@[t]));
                        }
                    }
                }
                match self.storage.get_block(&child) {
                    Ok(Some(block)) => {
                        let best = self.best_blue_parent_score(&block.header.parent_hashes);
                        proof {
                            assert(block.header.parent_hashes@ == parents_of(store, child));
                            assert(usize::MAX <= u64::MAX);
                        }
                        match best {
                            Some(m) => {
                                self.blue_score.insert(child, m + 1);
                                self.blue_set.insert(child);
                            },
                            None => {
                                self.red_set.insert(child);
                            },
                        }
                    },
                    _ => {},
                }
            }
            proof {
                lemma_closed_step(store, visited.seq(), cur, children@);
            }
        }
        proof {
            visited.lemma_seq();
            lemma_search_done(store, g, visited.seq());
            reveal(scores_ok);
        }
        self.ordering = self.compute_ordering();
        Ok(())
    }
}

/// The best blue parent score is one of the scores.
pub proof fn lemma_best_parent_bound(
    ps: Seq<Hash32>,
    blue: Set<Hash32>,
    sc: Map<Hash32, u64>,
    bound: int,
)
    requires
        forall|h: Hash32| #[trigger] sc.contains_key(h) ==> sc[h] <= bound,
    ensures
        best_parent(ps, blue, sc) matches Some(m) ==> m <= bound,
    decreases ps.len(),
{
    if ps.len() > 0 {
        lemma_best_parent_bound(ps.drop_last(), blue, sc, bound);
    }
}

/// Tip entries of the hashes `hs` (those without recorded children), in
/// order, each with its blue score when `scored` and 0 otherwise.
pub open spec fn tip_entries(
    store: HybridDagStorage,
    hs: Seq<Hash32>,
    sc: Map<Hash32, u64>,
    scored: bool,
) -> Seq<ScoredEntry>
    decreases hs.len(),
{
    if hs.len() == 0 {
        Seq::empty()
    } else {
        let rest = tip_entries(store, hs.drop_last(), sc, scored);
        let h = hs.last();
        if children_of(store, h).len() == 0 {
            rest.push(
                (
                    h,
                    if scored {
                        score_or_zero(sc, h)
                    } else {
                        0
                    },
                    0,
                ),
            )
        } else {
            rest
        }
    }
}

/// The depth at which a block counts as finalized: the checkpoint
/// confirmations when set, else 1.
pub open spec fn finality_depth_of(confirmations: usize) -> usize {
    if confirmations > 0 {
        confirmations
    } else {
        1
    }
}

impl GhostDAG {
    /// The candidate tips: blue blocks without children with their blue
    /// scores, then red blocks without children with score 0.
    pub closed spec fn tip_candidates(&self) -> Seq<ScoredEntry> {
        tip_entries(self.storage, self.blue_set.seq(), self.blue_score@, true) + tip_entries(
            self.storage,
            self.red_set.seq(),
            self.blue_score@,
            false,
        )
    }

    /// The blue set.
    pub fn get_blue_set(&self) -> (r: &KeySet<Hash32>)
        ensures
            r@ == self.blue(),
            self.wf() ==> r.wf(),
    {
        &self.blue_set
    }

    /// The red set.
    pub fn get_red_set(&self) -> (r: &KeySet<Hash32>)
        ensures
            r@ == self.red(),
            self.wf() ==> r.wf(),
    {
        &self.red_set
    }

    /// The blue score of a block, if it has one.
    pub fn get_blue_score(&self, hash: &Hash32) -> (r: Option<u64>)
        requires
            self.wf(),
        ensures
            r is Some <==> self.scores().contains_key(*hash),
            r matches Some(s) ==> s == self.scores()[*hash],
    {
        self.blue_score.get_copy(hash)
    }

    fn finality_depth(&self) -> (r: usize)
        ensures
            r == finality_depth_of(self.store().checkpoint_confirmations()),
    {
        let n = self.storage.confirmations_for_checkpoint();
        if n > 0 {
            n
        } else {
            1
        }
    }

    /// The hash at position `depth` of the ordering (the finalized tip),
    /// where `depth` is the finality depth; `None` when the ordering is not
    /// longer than that.
    pub fn get_finalized_block_hash(&self) -> (r: Result<Option<Hash32>, BlockchainError>)
        ensures
            r matches Ok(o) && o == (if self.ordering().len() > finality_depth_of(
                self.store().checkpoint_confirmations(),
            ) {
                Some(self.ordering()[finality_depth_of(self.store().checkpoint_confirmations()) as int])
            } else {
                None
            }),
    {
        let depth = self.finality_depth();
        if self.ordering.len() <= depth {
            return Ok(None);
        }
        Ok(Some(self.ordering[depth]))
    }

    /// The block number of the finalized tip, when it is known and stored.
    pub fn get_finalized_block_number(&self) -> (r: Result<Option<u64>, BlockchainError>)
        requires
            self.wf(),
        ensures
            r matches Ok(o) && o == (if self.ordering().len() > finality_depth_of(
                self.store().checkpoint_confirmations(),
            ) && self.store().blocks().contains_key(
                self.ordering()[finality_depth_of(self.store().checkpoint_confirmations()) as int],
            ) {
                Some(
                    self.store().blocks()[self.ordering()[finality_depth_of(
                        self.store().checkpoint_confirmations(),
                    ) as int]].header.block_number,
                )
            } else {
                None
            }),
    {
        let hash = match self.get_finalized_block_hash() {
            Ok(h) => h,
            Err(e) => {
                return Err(e);
            },
        };
        let hash = match hash {
            Some(h) => h,
            None => {
                return Ok(None);
            },
        };
        match self.storage.get_block(&hash) {
            Ok(Some(b)) => Ok(Some(b.header.block_number)),
            Ok(None) => Ok(None),
            Err(e) => Err(e),
        }
    }

    /// Prunes stored red blocks more than 100 blocks below `current_height`.
    pub fn prune_old_blocks(&mut self, current_height: u64)
        requires
            old(self).wf(),
        ensures
            final(self).wf(),
            old_blocks_pruned(*old(self), *final(self), current_height),
    {
        let finality_depth: u64 = 100;
        let _pruned = self.storage.prune_red_blocks(current_height, finality_depth);
    }

    /// Clears all consensus state and storage.
    pub fn clear(&mut self)
        requires
            old(self).wf(),
        ensures
            final(self).wf(),
            final(self).genesis() is None,
            final(self).blue() == Set::<Hash32>::empty(),
            final(self).red() == Set::<Hash32>::empty(),
            final(self).scores() == Map::<Hash32, u64>::empty(),
            final(self).timestamps() == Map::<Hash32, u64>::empty(),
            final(self).ordering() == Seq::<Hash32>::empty(),
            final(self).store().blocks() == Map::<Hash32, Block>::empty(),
            final(self).store().children() == Map::<Hash32, Seq<Hash32>>::empty(),
            final(self).store().blue() == Set::<Hash32>::empty(),
            final(self).store().scores() == Map::<Hash32, u64>::empty(),
            final(self).store().finalized() == Set::<Hash32>::empty(),
            final(self).store().counter() == 0,
            final(self).store().cache_size() == old(self).store().cache_size(),
            final(self).store().checkpoint_confirmations() == old(self).store().checkpoint_confirmations(),
            final(self).k_spec() == old(self).k_spec(),
            final(self).stale_rebuilt() == old(self).stale_rebuilt(),
    {
        self.genesis_hash = None;
        self.blue_set.clear();
        self.red_set.clear();
        self.blue_score.clear();
        self.block_timestamps.clear();
        self.ordering.clear();
        self.storage.clear();
    }

    /// The number of blocks in the hot cache.
    pub fn get_block_count(&self) -> (r: usize)
        requires
            self.wf(),
        ensures
            r == self.store().blocks().len(),
    {
        proof {
            self.storage.lemma_wf();
        }
        self.storage.get_hot_blocks().len()
    }

    /// The number of blue blocks.
    pub fn get_blue_block_count(&self) -> (r: usize)
        requires
            self.wf(),
        ensures
            r == self.blue().len(),
    {
        self.blue_set.len()
    }

    /// The number of red blocks.
    pub fn get_red_block_count(&self) -> (r: usize)
        requires
            self.wf(),
        ensures
            r == self.red().len(),
    {
        self.red_set.len()
    }

    /// The stored block with this hash, if any.
    pub fn get_block(&self, hash: &Hash32) -> (r: Result<Option<Block>, BlockchainError>)
        requires
            self.wf(),
        ensures
            r matches Ok(o) && (o is Some <==> self.store().blocks().contains_key(*hash)),
            r matches Ok(Some(b)) ==> same_block(b, self.store().blocks()[*hash]),
    {
        self.storage.get_block(hash)
    }

    /// Whether the block is blue.
    pub fn is_blue(&self, hash: &Hash32) -> (r: bool)
        ensures
            r == self.blue().contains(*hash),
    {
        self.blue_set.contains(hash)
    }

    /// Whether the block is red.
    pub fn is_red(&self, hash: &Hash32) -> (r: bool)
        ensures
            r == self.red().contains(*hash),
    {
        self.red_set.contains(hash)
    }

    /// Copies of the stored blocks of the ordering, in ordering order
    /// (hashes without a stored block are skipped).
    pub fn get_ordered_blocks(&self) -> (r: Result<Vec<Block>, BlockchainError>)
        requires
            self.wf(),
        ensures
            r matches Ok(v) && ({
                let stored = self.ordering().filter(
                    |h: Hash32| self.store().blocks().contains_key(h),
                );
                &&& v@.len() == stored.len()
                &&& forall|i: int|
                    0 <= i < v@.len() ==> same_block(
                        #[trigger] v@[i],
                        self.store().blocks()[stored[i]],
                    )
            }),
    {
        let ghost p = |h: Hash32| self.store().blocks().contains_key(h);
        let mut blocks: Vec<Block> = Vec::new();
        let mut i: usize = 0;
        proof {
            assert(self.ordering@.take(0) =~= Seq::<Hash32>::empty());
            reveal(Seq::filter);
        }
        while i < self.ordering.len()
            invariant
                self.wf(),
                i <= self.ordering@.len(),
                p == (|h: Hash32| self.store().blocks().contains_key(h)),
                blocks@.len() == self.ordering@.take(i as int).filter(p).len(),
                forall|t: int|
                    0 <= t < blocks@.len() ==> same_block(
                        #[trigger] blocks@[t],
                        self.store().blocks()[self.ordering@.take(i as int).filter(p)[t]],
                    ),
            decreases self.ordering@.len() - i,
        {
            let h = self.ordering[i];
            proof {
                crate::collections::lemma_take_succ(self.ordering@, i as int);
                self.ordering@.take(i as int).lemma_filter_push(h, p);
            }
            match self.storage.get_block(&h) {
                Ok(Some(b)) => {
                    blocks.push(b);
                },
                _ => {},
            }
            i = i + 1;
        }
        proof {
            assert(self.ordering@.take(self.ordering@.len() as int) =~= self.ordering@);
        }
        Ok(blocks)
    }

    fn collect_tips(&self, from_blue: bool) -> (r: Vec<ScoredEntry>)
        requires
            self.wf(),
        ensures
            r@ == tip_entries(
                self.storage,
                if from_blue {
                    self.blue_set.seq()
                } else {
                    self.red_set.seq()
                },
                self.blue_score@,
                from_blue,
            ),
    {
        let set = if from_blue {
            &self.blue_set
        } else {
            &self.red_set
        };
        let ghost hs = set.seq();
        let mut out: Vec<ScoredEntry> = Vec::new();
        let n = set.len();
        let mut i: usize = 0;
        while i < n
            invariant
                self.wf(),
                set.wf(),
                hs == set.seq(),
                n == hs.len(),
                i <= n,
                hs == (if from_blue {
                    self.blue_set.seq()
                } else {
                    self.red_set.seq()
                }),
                out@ == tip_entries(self.storage, hs.take(i as int), self.blue_score@, from_blue),
            decreases n - i,
        {
            let h = set.at(i);
            proof {
                assert(hs.take(i + 1).drop_last() =~= hs.take(i as int));
            }
            let children = match self.storage.get_children(&h) {
                Ok(c) => c,
                Err(_) => Vec::new(),
            };
            if children.len() == 0 {
                let score = if from_blue {
                    match self.blue_score.get_copy(&h) {
                        Some(s) => s,
                        None => 0,
                    }
                } else {
                    0
                };
                out.push((h, score, 0));
            }
            i = i + 1;
        }
        proof {
            assert(hs.take(n as int) =~= hs);
        }
        out
    }

    /// The current tips: blocks without children, highest blue score first
    /// (red blocks count with score 0), at most `MAX_TIPS` of them. Empty when the
    /// DAG holds no colored block or no genesis is known; the genesis alone
    /// when no colored block is a tip.
    pub fn get_tips(&self) -> (r: Vec<Hash32>)
        requires
            self.wf(),
        ensures
            (self.blue().len() == 0 && self.red().len() == 0) || self.genesis() is None ==> r@
                == Seq::<Hash32>::empty(),
            !((self.blue().len() == 0 && self.red().len() == 0) || self.genesis() is None)
                && self.tip_candidates().len() == 0 ==> r@ == seq![self.genesis()->0],
            !((self.blue().len() == 0 && self.red().len() == 0) || self.genesis() is None)
                && self.tip_candidates().len() > 0 ==> exists|s: Seq<ScoredEntry>|
                s.to_multiset() == self.tip_candidates().to_multiset() && sorted_entries(s)
                    && r@ == s.take(
                    if s.len() < MAX_TIPS {
                        s.len() as int
                    } else {
                        MAX_TIPS as int
                    },
                ).map_values(|e: ScoredEntry| e.0),
    {
        proof {
            self.lemma_wf();
        }
        if self.blue_set.is_empty() && self.red_set.is_empty() {
            return Vec::new();
        }
        let genesis = match self.genesis_hash {
            Some(h) => h,
            None => {
                return Vec::new();
            },
        };
        let mut tips = self.collect_tips(true);
        let mut red_tips = self.collect_tips(false);
        tips.append(&mut red_tips);
        if tips.len() == 0 {
            return vec![genesis];
        }
        let sorted = sort_entries(&tips);
        let take = if sorted.len() < MAX_TIPS {
            sorted.len()
        } else {
            MAX_TIPS
        };
        let mut out: Vec<Hash32> = Vec::new();
        let mut i: usize = 0;
        while i < take
            invariant
                i <= take,
                take <= sorted@.len(),
                out@ == sorted@.take(i as int).map_values(|e: ScoredEntry| e.0),
            decreases take - i,
        {
            out.push(sorted[i].0);
            i = i + 1;
            proof {
                assert(out@ =~= sorted@.take(i as int).map_values(|e: ScoredEntry| e.0));
            }
        }
        out
    }
}

/// Some parent in `ps` is a stored block.
pub open spec fn some_stored(store: HybridDagStorage, ps: Seq<Hash32>) -> bool {
    exists|i: int| 0 <= i < ps.len() && #[trigger] store.blocks().contains_key(ps[i])
}

/// Some parent in `ps` is blue.
pub open spec fn some_blue(blue: Set<Hash32>, ps: Seq<Hash32>) -> bool {
    exists|i: int| 0 <= i < ps.len() && #[trigger] blue.contains(ps[i])
}

/// The consensus state is stale for stored block `h`: it has parents,
/// some of them are stored, and none of them is blue.
pub open spec fn stale_for(store: HybridDagStorage, blue: Set<Hash32>, h: Hash32) -> bool {
    &&& store.blocks().contains_key(h)
    &&& parents_of(store, h).len() > 0
    &&& some_stored(store, parents_of(store, h))
    &&& !some_blue(blue, parents_of(store, h))
}

/// Every hash of `ps` is blue and scored; then some blue parent score exists.
pub proof fn lemma_best_parent_some(ps: Seq<Hash32>, blue: Set<Hash32>, sc: Map<Hash32, u64>)
    requires
        ps.len() > 0,
        forall|i: int| 0 <= i < ps.len() ==> blue.contains(#[trigger] ps[i]) && sc.contains_key(ps[i]),
    ensures
        best_parent(ps, blue, sc) is Some,
    decreases ps.len(),
{
    assert(blue.contains(ps[ps.len() - 1]));
    if ps.len() > 1 {
        lemma_best_parent_some(ps.drop_last(), blue, sc);
    }
}

/// The best blue parent score does not depend on hashes outside `ps`.
pub proof fn lemma_best_parent_frame(
    ps: Seq<Hash32>,
    blue1: Set<Hash32>,
    sc1: Map<Hash32, u64>,
    blue2: Set<Hash32>,
    sc2: Map<Hash32, u64>,
)
    requires
        forall|i: int|
            0 <= i < ps.len() ==> (blue1.contains(#[trigger] ps[i]) == blue2.contains(ps[i]) && sc1.contains_key(ps[i])
                == sc2.contains_key(ps[i]) && (sc1.contains_key(ps[i]) ==> sc1[ps[i]] == sc2[ps[i]])),
    ensures
        best_parent(ps, blue1, sc1) == best_parent(ps, blue2, sc2),
    decreases ps.len(),
{
    if ps.len() > 0 {
        assert(blue1.contains(ps[ps.len() - 1]) == blue2.contains(ps[ps.len() - 1]));
        lemma_best_parent_frame(ps.drop_last(), blue1, sc1, blue2, sc2);
    }
}

/// Every earlier hash has a blue score at least every later one's.
pub open spec fn score_sorted(o: Seq<Hash32>, sc: Map<Hash32, u64>) -> bool {
    forall|a: int, b: int|
        0 <= a < b < o.len() ==> score_or_zero(sc, #[trigger] o[a]) >= score_or_zero(sc, #[trigger] o[b])
}

/// The consensus ordering lists no hash twice, only blue blocks, and is
/// ranked by blue score (highest first) and then cached timestamp
/// (earliest first).
pub open spec fn ordering_sound(d: GhostDAG) -> bool {
    &&& d.ordering().no_duplicates()
    &&& forall|x: Hash32| #[trigger] d.ordering().contains(x) ==> d.blue().contains(x)
    &&& rank_sorted(d.ordering(), d.scores(), d.timestamps())
}

/// The timestamp used to order `h`: its cached timestamp, or 0 when it has none.
pub open spec fn ts_or_zero(ts: Map<Hash32, u64>, h: Hash32) -> u64 {
    if ts.contains_key(h) {
        ts[h]
    } else {
        0
    }
}

/// Score `s1` with timestamp `t1` may precede score `s2` with timestamp
/// `t2`: a higher score, or an equal score and no later timestamp.
pub open spec fn rank_le(s1: u64, t1: u64, s2: u64, t2: u64) -> bool {
    s1 > s2 || (s1 == s2 && t1 <= t2)
}

/// Every earlier hash may precede every later one by blue score (highest
/// first) and then cached timestamp (earliest first).
pub open spec fn rank_sorted(o: Seq<Hash32>, sc: Map<Hash32, u64>, ts: Map<Hash32, u64>) -> bool {
    forall|a: int, b: int|
        0 <= a < b < o.len() ==> rank_le(
            score_or_zero(sc, #[trigger] o[a]),
            ts_or_zero(ts, o[a]),
            score_or_zero(sc, #[trigger] o[b]),
            ts_or_zero(ts, o[b]),
        )
}

impl GhostDAG {
    /// Whether some hash of `ps` is a stored block.
    fn any_stored(&self, ps: &Vec<Hash32>) -> (r: bool)
        requires
            self.storage.wf(),
        ensures
            r == some_stored(self.store(), ps@),
    {
        let hot = self.storage.get_hot_blocks();
        let mut i: usize = 0;
        while i < ps.len()
            invariant
                i <= ps@.len(),
                hot@ == self.store().blocks(),
                forall|j: int| 0 <= j < i ==> !#[trigger] self.store().blocks().contains_key(ps@[j]),
            decreases ps@.len() - i,
        {
            if hot.contains_key(&ps[i]) {
                return true;
            }
            i = i + 1;
        }
        false
    }

    /// Whether some hash of `ps` is blue.
    fn any_blue(&self, ps: &Vec<Hash32>) -> (r: bool)
        ensures
            r == some_blue(self.blue(), ps@),
    {
        let mut i: usize = 0;
        while i < ps.len()
            invariant
                i <= ps@.len(),
                forall|j: int| 0 <= j < i ==> !#[trigger] self.blue().contains(ps@[j]),
            decreases ps@.len() - i,
        {
            if self.blue_set.contains(&ps[i]) {
                return true;
            }
            i = i + 1;
        }
        false
    }

    /// The highest blue score, or 0 when there is none.
    fn max_score(&self) -> (r: u64)
        requires
            self.blue_score.wf(),
        ensures
            forall|h: Hash32| #[trigger] self.scores().contains_key(h) ==> self.scores()[h] <= r,
    {
        proof {
            self.blue_score.lemma_seqs();
        }
        let mut best: u64 = 0;
        let n = self.blue_score.len();
        let mut i: usize = 0;
        while i < n
            invariant
                self.blue_score.wf(),
                n == self.blue_score.key_seq().len(),
                i <= n,
                forall|j: int| 0 <= j < i ==> #[trigger] self.blue_score.val_seq()[j] <= best,
            decreases n - i,
        {
            let v = *self.blue_score.value_at(i);
            if v > best {
                best = v;
            }
            i = i + 1;
        }
        proof {
            assert forall|h: Hash32| #[trigger] self.scores().contains_key(h) implies self.scores()[h]
                <= best by {
                let j = choose|j: int| 0 <= j < n && self.blue_score.key_seq()[j] == h;
                assert(self.scores()[self.blue_score.key_seq()[j]] == self.blue_score.val_seq()[j]);
            }
        }
        best
    }

    /// Detects consensus state that does not match the stored blocks: the
    /// new block has stored parents but none of them is blue. The first
    /// time, the state is cleared and `true` is returned (a full rebuild
    /// follows); afterwards, the stored non-blue parents are made blue,
    /// with a score above every existing one where they have none.
    fn handle_stale_state(&mut self, new_block_hash: &Hash32) -> (rebuild: bool)
        requires
            old(self).wf(),
        ensures
            final(self).wf(),
            final(self).store() == old(self).store(),
            final(self).genesis() == old(self).genesis(),
            final(self).timestamps() == old(self).timestamps(),
            final(self).k_spec() == old(self).k_spec(),
            !stale_for(old(self).store(), old(self).blue(), *new_block_hash) ==> !rebuild
                && *final(self) == *old(self),
            stale_for(old(self).store(), old(self).blue(), *new_block_hash)
                && !old(self).stale_rebuilt() ==> rebuild && final(self).stale_rebuilt()
                && final(self).blue() == Set::<Hash32>::empty()
                && final(self).red() == Set::<Hash32>::empty()
                && final(self).scores() == Map::<Hash32, u64>::empty()
                && final(self).ordering() == Seq::<Hash32>::empty(),
            stale_for(old(self).store(), old(self).blue(), *new_block_hash)
                && old(self).stale_rebuilt() ==> !rebuild && final(self).stale_rebuilt()
                && final(self).red() == old(self).red()
                && final(self).ordering() == old(self).ordering()
                && old(self).blue().subset_of(final(self).blue()),
    {
        let block = match self.storage.get_block(new_block_hash) {
            Ok(Some(b)) => b,
            _ => {
                return false;
            },
        };
        let parents = &block.header.parent_hashes;
        proof {
            assert(parents@ == parents_of(self.store(), *new_block_hash));
        }
        if parents.len() == 0 {
            return false;
        }
        let parents_in_hot = self.any_stored(parents);
        let parents_in_blue = self.any_blue(parents);
        if !(parents_in_hot && !parents_in_blue) {
            return false;
        }
        if !self.checkpoint_stale_rebuilt {
            self.blue_set.clear();
            self.red_set.clear();
            self.blue_score.clear();
            self.ordering.clear();
            self.checkpoint_stale_rebuilt = true;
            proof {
                assert(self.blue_set@ =~= Set::<Hash32>::empty());
            }
            return true;
        }
        let next_score = self.max_score().saturating_add(1);
        let mut i: usize = 0;
        while i < parents.len()
            invariant
                i <= parents@.len(),
                self.storage == old(self).storage,
                self.genesis_hash == old(self).genesis_hash,
                self.block_timestamps == old(self).block_timestamps,
                self.k == old(self).k,
                self.checkpoint_stale_rebuilt == old(self).checkpoint_stale_rebuilt,
                self.red_set == old(self).red_set,
                self.ordering == old(self).ordering,
                self.wf(),
                old(self).blue().subset_of(self.blue()),
            decreases parents@.len() - i,
        {
            let p = parents[i];
            let hot = self.storage.get_hot_blocks();
            if hot.contains_key(&p) && !self.blue_set.contains(&p) {
                self.blue_set.insert(p);
                if !self.blue_score.contains_key(&p) {
                    self.blue_score.insert(p, next_score);
                }
            }
            i = i + 1;
        }
        false
    }
}

/// Number of entries of `ps` that are in `a`.
pub open spec fn count_in(ps: Seq<Hash32>, a: Set<Hash32>) -> nat
    decreases ps.len(),
{
    if ps.len() == 0 {
        0
    } else {
        count_in(ps.drop_last(), a) + if a.contains(ps.last()) {
            1nat
        } else {
            0nat
        }
    }
}

proof fn lemma_count_in_zero(ps: Seq<Hash32>, a: Set<Hash32>)
    requires
        forall|i: int| 0 <= i < ps.len() ==> !a.contains(#[trigger] ps[i]),
    ensures
        count_in(ps, a) == 0,
    decreases ps.len(),
{
    if ps.len() > 0 {
        assert(!a.contains(ps[ps.len() - 1]));
        lemma_count_in_zero(ps.drop_last(), a);
    }
}

/// The block needs reclassification as blue: it is stored, not blue, and
/// has no parents or only blue ones.
pub open spec fn needs_fallback(store: HybridDagStorage, blue: Set<Hash32>, h: Hash32) -> bool {
    &&& store.blocks().contains_key(h)
    &&& !blue.contains(h)
    &&& forall|i: int|
        0 <= i < parents_of(store, h).len() ==> blue.contains(#[trigger] parents_of(store, h)[i])
}

/// The next score after the best score among the scored hashes of `ps`
/// (blue or not), or 1 when none is scored.
pub open spec fn next_score_of(ps: Seq<Hash32>, sc: Map<Hash32, u64>) -> u64 {
    match best_parent(ps, Set::<Hash32>::full(), sc) {
        None => 1u64,
        Some(m) => score_after(m),
    }
}

/// Marks `h` blue (out of the red set) with the next score after its
/// scored parents.
pub open spec fn mark_blue(store: HybridDagStorage, c: Coloring, h: Hash32) -> Coloring {
    (c.0.insert(h), c.1.remove(h), c.2.insert(h, next_score_of(parents_of(store, h), c.2)))
}

/// Marks the hashes of `hs` blue in turn.
pub open spec fn mark_all(store: HybridDagStorage, c: Coloring, hs: Seq<Hash32>) -> Coloring
    decreases hs.len(),
{
    if hs.len() == 0 {
        c
    } else {
        mark_blue(store, mark_all(store, c, hs.drop_last()), hs.last())
    }
}

/// Marking the hashes of `hs` blue adds exactly them to the blue set.
proof fn lemma_mark_all_blue(store: HybridDagStorage, c: Coloring, hs: Seq<Hash32>)
    ensures
        mark_all(store, c, hs).0 == c.0 + hs.to_set(),
    decreases hs.len(),
{
    if hs.len() == 0 {
        assert(hs.to_set() =~= Set::<Hash32>::empty());
        assert(c.0 + hs.to_set() =~= c.0);
    } else {
        lemma_mark_all_blue(store, c, hs.drop_last());
        lemma_push_contains(hs.drop_last(), hs.last());
        assert(hs.drop_last().push(hs.last()) =~= hs);
        assert(mark_all(store, c, hs).0 =~= c.0 + hs.to_set());
    }
}

/// The red blocks of `a`, in order, whose parents are all blue.
pub open spec fn fallback_candidates(store: HybridDagStorage, blue: Set<Hash32>, red: Set<Hash32>, a: Seq<Hash32>) -> Seq<
    Hash32,
>
    decreases a.len(),
{
    if a.len() == 0 {
        Seq::empty()
    } else {
        let prev = fallback_candidates(store, blue, red, a.drop_last());
        if red.contains(a.last()) && needs_fallback(store, blue, a.last()) {
            prev.push(a.last())
        } else {
            prev
        }
    }
}

/// The blocks the fallback marks blue, in order: the new block `h` when all
/// its parents are blue, then the red candidates of `a`.
pub open spec fn fallback_blocks(store: HybridDagStorage, blue: Set<Hash32>, red: Set<Hash32>, h: Hash32, a: Seq<Hash32>) -> Seq<
    Hash32,
> {
    (if needs_fallback(store, blue, h) {
        seq![h]
    } else {
        Seq::empty()
    }) + fallback_candidates(store, blue, red, a)
}

/// The candidates are members of `a`.
proof fn lemma_fallback_candidates_in(store: HybridDagStorage, blue: Set<Hash32>, red: Set<Hash32>, a: Seq<Hash32>, k: int)
    requires
        0 <= k < fallback_candidates(store, blue, red, a).len(),
    ensures
        a.contains(fallback_candidates(store, blue, red, a)[k]),
    decreases a.len(),
{
    let prev = fallback_candidates(store, blue, red, a.drop_last());
    if k < prev.len() {
        lemma_fallback_candidates_in(store, blue, red, a.drop_last(), k);
        let x = prev[k];
        let i = choose|i: int| 0 <= i < a.drop_last().len() && a.drop_last()[i] == x;
        assert(a[i] == x);
    } else {
        assert(a[a.len() - 1] == a.last());
    }
}

/// Without a red block needing the fallback, there is no candidate.
proof fn lemma_fallback_candidates_empty(store: HybridDagStorage, blue: Set<Hash32>, red: Set<Hash32>, a: Seq<Hash32>)
    requires
        forall|h: Hash32| #[trigger] a.contains(h) && red.contains(h) ==> !needs_fallback(store, blue, h),
    ensures
        fallback_candidates(store, blue, red, a) == Seq::<Hash32>::empty(),
    decreases a.len(),
{
    if a.len() > 0 {
        assert forall|h: Hash32| #[trigger] a.drop_last().contains(h) && red.contains(h) implies !needs_fallback(store, blue, h) by {
            let i = choose|i: int| 0 <= i < a.drop_last().len() && a.drop_last()[i] == h;
            assert(a[i] == h);
            assert(a.contains(h));
        }
        lemma_fallback_candidates_empty(store, blue, red, a.drop_last());
        assert(a[a.len() - 1] == a.last());
        assert(a.contains(a.last()));
    }
}

/// A set that holds `from` and every child of each of its members holds
/// every descendant of `from`.
proof fn lemma_closed_has_descendants(
    store: HybridDagStorage,
    s: Seq<Hash32>,
    m: Set<Hash32>,
    from: Hash32,
    x: Hash32,
    n: nat,
)
    requires
        m.contains(from),
        forall|y: Hash32| #[trigger] m.contains(y) <==> s.contains(y),
        forall|i: int, c: Hash32|
            0 <= i < s.len() && #[trigger] children_of(store, s[i]).contains(c) ==> m.contains(c),
        reaches(store, from, x, n),
    ensures
        m.contains(x),
    decreases n,
{
    if n > 0 {
        let p = choose|p: Hash32|
            reaches(store, from, p, (n - 1) as nat) && #[trigger] children_of(store, p).contains(x);
        lemma_closed_has_descendants(store, s, m, from, p, (n - 1) as nat);
        assert(s.contains(p));
        let i = choose|i: int| 0 <= i < s.len() && s[i] == p;
        assert(children_of(store, s[i]).contains(x));
    }
}

impl GhostDAG {
    /// The new block and, when it already has children, every block
    /// reachable from it along children links.
    fn affected_set(&self, new_block_hash: &Hash32) -> (r: KeySet<Hash32>)
        requires
            self.storage.wf(),
        ensures
            r.wf(),
            r@.contains(*new_block_hash),
            children_of(self.store(), *new_block_hash).len() == 0 ==> r@ == Set::empty().insert(
                *new_block_hash,
            ),
            forall|x: Hash32| #[trigger] r@.contains(x) ==> descends(self.store(), *new_block_hash, x),
            forall|x: Hash32| descends(self.store(), *new_block_hash, x) ==> #[trigger] r@.contains(x),
    {
        let ghost store = self.store();
        proof {
            assert(reaches(store, *new_block_hash, *new_block_hash, 0));
        }
        let ghost cand = pool(store.children()).insert(*new_block_hash);
        proof {
            store.lemma_wf();
        }
        let children = match self.storage.get_children(new_block_hash) {
            Ok(c) => c,
            Err(_) => Vec::new(),
        };
        let mut affected: KeySet<Hash32> = KeySet::new();
        affected.insert(*new_block_hash);
        proof {
            assert(affected@ =~= Set::empty().insert(*new_block_hash));
        }
        if children.len() == 0 {
            proof {
                affected.lemma_seq();
                assert(affected.seq() =~= seq![*new_block_hash]);
                assert forall|x: Hash32| descends(store, *new_block_hash, x) implies #[trigger] affected@.contains(x) by {
                    let n = choose|n: nat| #[trigger] reaches(store, *new_block_hash, x, n);
                    lemma_closed_has_descendants(store, affected.seq(), affected@, *new_block_hash, x, n);
                }
            }
            return affected;
        }
        let mut head: usize = 0;
        proof {
            affected.lemma_seq();
            assert(affected.seq() =~= seq![*new_block_hash]);
            lemma_seq_within(affected.seq(), cand);
        }
        while head < affected.len()
            invariant
                self.storage.wf(),
                store == self.store(),
                affected.wf(),
                affected@.contains(*new_block_hash),
                cand == pool(store.children()).insert(*new_block_hash),
                cand.finite(),
                head <= affected.seq().len(),
                affected.seq().len() <= cand.len(),
                forall|x: Hash32| #[trigger] affected.seq().contains(x) ==> cand.contains(x),
                forall|x: Hash32| #[trigger] affected@.contains(x) ==> descends(store, *new_block_hash, x),
                forall|i: int, c: Hash32|
                    0 <= i < head && #[trigger] children_of(store, affected.seq()[i]).contains(c)
                        ==> affected@.contains(c),
            decreases cand.len() - head,
        {
            let h = affected.at(head);
            head = head + 1;
            let kids = match self.storage.get_children(&h) {
                Ok(c) => c,
                Err(_) => Vec::new(),
            };
            let mut j: usize = 0;
            while j < kids.len()
                invariant
                    self.storage.wf(),
                    store == self.store(),
                    affected.wf(),
                    affected@.contains(*new_block_hash),
                    cand == pool(store.children()).insert(*new_block_hash),
                    cand.finite(),
                    head <= affected.seq().len(),
                    affected.seq().len() <= cand.len(),
                    forall|x: Hash32| #[trigger] affected.seq().contains(x) ==> cand.contains(x),
                    kids@ == children_of(store, h),
                    j <= kids@.len(),
                    forall|x: Hash32| #[trigger] affected@.contains(x) ==> descends(store, *new_block_hash, x),
                    descends(store, *new_block_hash, h),
                    1 <= head <= affected.seq().len(),
                    affected.seq()[head - 1] == h,
                    forall|i: int, c: Hash32|
                        0 <= i < head - 1 && #[trigger] children_of(store, affected.seq()[i]).contains(c)
                            ==> affected@.contains(c),
                    forall|k: int| 0 <= k < j ==> affected@.contains(#[trigger] kids@[k]),
                decreases kids@.len() - j,
            {
                let child = kids[j];
                let ghost before = affected.seq();
                proof {
                    assert(children_of(store, h).contains(child)) by {
                        assert(kids@[j as int] == child);
                    }
                    assert(store.children().contains_key(h));
                    assert(pool(store.children()).contains(child));
                    lemma_descends_child(store, *new_block_hash, h, child);
                }
                if affected.insert(child) {
                    proof {
                        lemma_push_contains(before, child);
                        affected.lemma_seq();
                        lemma_seq_within(affected.seq(), cand);
                        assert forall|i: int| 0 <= i < before.len() implies affected.seq()[i] == #[trigger] before[i] by {}
                    }
                }
                j = j + 1;
            }
            proof {
                assert forall|i: int, c: Hash32|
                    0 <= i < head && #[trigger] children_of(store, affected.seq()[i]).contains(c)
                        implies affected@.contains(c) by {
                    if i == head - 1 {
                        let k = choose|k: int| 0 <= k < kids@.len() && kids@[k] == c;
                        assert(affected@.contains(kids@[k]));
                    }
                }
            }
        }
        proof {
            affected.lemma_seq();
            assert forall|x: Hash32| descends(store, *new_block_hash, x) implies #[trigger] affected@.contains(x) by {
                let n = choose|n: nat| #[trigger] reaches(store, *new_block_hash, x, n);
                lemma_closed_has_descendants(store, affected.seq(), affected@, *new_block_hash, x, n);
            }
        }
        affected
    }

    /// Drops the affected blocks from the blue set, the red set and the
    /// scores; returns those that were blue.
    fn clear_affected(&mut self, affected: &KeySet<Hash32>) -> (removed: KeySet<Hash32>)
        requires
            old(self).wf(),
            affected.wf(),
        ensures
            final(self).wf(),
            removed.wf(),
            removed@ == old(self).blue().intersect(affected@),
            final(self).blue() == old(self).blue() - affected@,
            final(self).red() == old(self).red() - affected@,
            final(self).scores() == old(self).scores().remove_keys(affected@),
            final(self).store() == old(self).store(),
            final(self).genesis() == old(self).genesis(),
            final(self).timestamps() == old(self).timestamps(),
            final(self).k_spec() == old(self).k_spec(),
            final(self).ordering() == old(self).ordering(),
            final(self).stale_rebuilt() == old(self).stale_rebuilt(),
    {
        let ghost a = affected.seq();
        proof {
            affected.lemma_seq();
        }
        let mut removed: KeySet<Hash32> = KeySet::new();
        let n = affected.len();
        let mut i: usize = 0;
        proof {
            assert(a.take(0).to_set() =~= Set::<Hash32>::empty());
            assert(removed@ =~= old(self).blue().intersect(Set::empty()));
            assert(self.blue() =~= old(self).blue() - Set::empty());
            assert(self.red() =~= old(self).red() - Set::empty());
            assert(self.scores() =~= old(self).scores().remove_keys(Set::empty()));
        }
        while i < n
            invariant
                old(self).wf(),
                self.store() == old(self).store(),
                self.genesis() == old(self).genesis(),
                self.block_timestamps == old(self).block_timestamps,
                self.k_spec() == old(self).k_spec(),
                self.ordering == old(self).ordering,
                self.stale_rebuilt() == old(self).stale_rebuilt(),
                self.blue_set.wf(),
                self.red_set.wf(),
                self.blue_score.wf(),
                removed.wf(),
                a == affected.seq(),
                n == a.len(),
                i <= n,
                removed@ == old(self).blue().intersect(a.take(i as int).to_set()),
                self.blue() == old(self).blue() - a.take(i as int).to_set(),
                self.red() == old(self).red() - a.take(i as int).to_set(),
                self.scores() == old(self).scores().remove_keys(a.take(i as int).to_set()),
            decreases n - i,
        {
            let h = affected.at(i);
            proof {
                crate::collections::lemma_take_succ(a, i as int);
            }
            if self.blue_set.remove(&h) {
                removed.insert(h);
            }
            self.blue_score.remove(&h);
            self.red_set.remove(&h);
            i = i + 1;
            proof {
                let t = a.take(i as int).to_set();
                assert(removed@ =~= old(self).blue().intersect(t));
                assert(self.blue() =~= old(self).blue() - t);
                assert(self.red() =~= old(self).red() - t);
                assert(self.scores() =~= old(self).scores().remove_keys(t));
            }
        }
        proof {
            assert(a.take(n as int) =~= a);
            assert(a.to_set() == affected@);
            assert forall|h: Hash32| #[trigger] self.blue_set@.contains(h) implies self.blue_score@.contains_key(h) by {
                assert(old(self).blue_set@.contains(h));
            }
        }
        removed
    }
}

/// The topological-order scan of a single stored tip `h` that is not its
/// own parent.
pub open spec fn single_tip(store: HybridDagStorage, a: Seq<Hash32>) -> bool {
    &&& a.len() == 1
    &&& store.blocks().contains_key(a[0])
    &&& !parents_of(store, a[0]).contains(a[0])
    &&& children_of(store, a[0]).len() == 0
}

impl GhostDAG {
    /// Counts the hashes of `ps` that are in `set`.
    fn count_affected(ps: &Vec<Hash32>, set: &KeySet<Hash32>) -> (r: usize)
        ensures
            r == count_in(ps@, set@),
    {
        let mut c: usize = 0;
        let mut j: usize = 0;
        while j < ps.len()
            invariant
                j <= ps@.len(),
                c == count_in(ps@.take(j as int), set@),
                c <= j,
            decreases ps@.len() - j,
        {
            proof {
                assert(ps@.take(j + 1).drop_last() =~= ps@.take(j as int));
            }
            if set.contains(&ps[j]) {
                c = c + 1;
            }
            j = j + 1;
        }
        proof {
            assert(ps@.take(ps@.len() as int) =~= ps@);
        }
        c
    }

    /// Orders the affected blocks parents first: a stored block is listed
    /// once all its parents inside the affected set have been listed
    /// (Kahn's algorithm over in-degrees within the set).
    fn topo_order(&self, affected: &KeySet<Hash32>) -> (r: Vec<Hash32>)
        requires
            self.storage.wf(),
            affected.wf(),
        ensures
            r@.no_duplicates(),
            forall|x: Hash32| #[trigger] r@.contains(x) ==> affected@.contains(x),
            single_tip(self.store(), affected.seq()) ==> r@ == affected.seq(),
            forall|x: Hash32|
                affected@.contains(x) && self.store().blocks().contains_key(x) && count_in(
                    parents_of(self.store(), x),
                    affected@,
                ) == 0 ==> #[trigger] r@.contains(x),
    {
        let ghost store = self.store();
        let ghost a = affected.seq();
        let ghost tip = single_tip(store, a);
        proof {
            affected.lemma_seq();
        }
        let n = affected.len();
        let mut in_degree: KeyMap<Hash32, u32> = KeyMap::new();
        let mut i: usize = 0;
        while i < n
            invariant
                self.storage.wf(),
                store == self.store(),
                affected.wf(),
                a == affected.seq(),
                a.no_duplicates(),
                n == a.len(),
                i <= n,
                in_degree.wf(),
                forall|x: Hash32| #[trigger]
                    in_degree@.contains_key(x) <==> (a.take(i as int).contains(x)
                        && store.blocks().contains_key(x)),
                forall|x: Hash32| #[trigger]
                    in_degree@.contains_key(x) ==> in_degree@[x] == (count_in(
                        parents_of(store, x),
                        affected@,
                    ) as u32),
            decreases n - i,
        {
            let h = affected.at(i);
            proof {
                crate::collections::lemma_take_succ(a, i as int);
            }
            match self.storage.get_block(&h) {
                Ok(Some(b)) => {
                    let c = Self::count_affected(&b.header.parent_hashes, affected);
                    proof {
                        assert(b.header.parent_hashes@ == parents_of(store, h));
                    }
                    in_degree.insert(h, c as u32);
                },
                _ => {},
            }
            i = i + 1;
        }
        proof {
            assert(a.take(n as int) =~= a);
        }
        proof {
            assert(a.take(n as int) =~= a);
            if tip {
                assert(a.contains(a[0]));
                assert(in_degree@.contains_key(a[0]));
                assert forall|k: int| 0 <= k < parents_of(store, a[0]).len() implies !affected@.contains(
                    #[trigger] parents_of(store, a[0])[k],
                ) by {
                    if affected@.contains(parents_of(store, a[0])[k]) {
                        assert(a.contains(parents_of(store, a[0])[k]));
                        assert(a[0] == parents_of(store, a[0])[k]);
                        assert(parents_of(store, a[0]).contains(a[0]));
                    }
                }
                lemma_count_in_zero(parents_of(store, a[0]), affected@);
                assert(in_degree@[a[0]] == 0);
            }
        }
        let ghost deg0 = in_degree@;
        let mut topo: Vec<Hash32> = Vec::new();
        let mut i: usize = 0;
        while i < n
            invariant
                in_degree@ == deg0,
                affected.wf(),
                a == affected.seq(),
                a.no_duplicates(),
                n == a.len(),
                i <= n,
                tip == single_tip(store, a),
                in_degree.wf(),
                forall|x: Hash32| #[trigger]
                    in_degree@.contains_key(x) ==> a.contains(x),
                topo@.no_duplicates(),
                forall|x: Hash32| #[trigger]
                    topo@.contains(x) <==> (a.take(i as int).contains(x) && in_degree@.contains_key(
                        x,
                    ) && in_degree@[x] == 0),
                tip ==> (in_degree@.contains_key(a[0]) && in_degree@[a[0]] == 0),
                tip && i >= 1 ==> topo@ == a,
            decreases n - i,
        {
            let h = affected.at(i);
            let ghost prev = topo@;
            proof {
                crate::collections::lemma_take_succ(a, i as int);
                crate::collections::lemma_not_in_prefix(a, i as int);
                lemma_push_contains(prev, h);
            }
            match in_degree.get_copy(&h) {
                Some(d) => {
                    if d == 0 {
                        proof {
                            assert(!prev.contains(h));
                            assert(prev.push(h).no_duplicates()) by {
                                assert forall|x: int, y: int|
                                    0 <= x < prev.len() + 1 && 0 <= y < prev.len() + 1 && x != y implies prev.push(
                                        h,
                                    )[x] != prev.push(h)[y] by {
                                    if x < prev.len() && y < prev.len() {
                                    } else if x < prev.len() {
                                        assert(prev.contains(prev[x]));
                                    } else {
                                        assert(prev.contains(prev[y]));
                                    }
                                }
                            }
                            if tip {
                                if prev.len() > 0 {
                                    assert(prev.contains(prev[0]));
                                }
                                assert(prev.len() == 0);
                                assert(i == 0);
                                assert(h == a[0]);
                                assert(a.len() == 1);
                                assert(prev.push(h)[0] == h);
                                assert(prev.push(h) =~= a);
                            }
                        }
                        topo.push(h);
                    }
                },
                None => {},
            }
            i = i + 1;
        }
        proof {
            assert(a.take(n as int) =~= a);
        }
        let mut head: usize = 0;
        proof {
            lemma_seq_within(topo@, a.to_set());
            a.unique_seq_to_set();
            assert forall|x: Hash32|
                affected@.contains(x) && store.blocks().contains_key(x) && count_in(
                    parents_of(store, x),
                    affected@,
                ) == 0 implies #[trigger] topo@.contains(x) by {
                assert(a.contains(x));
                assert(in_degree@.contains_key(x));
            }
        }
        while head < topo.len()
            invariant
                self.storage.wf(),
                store == self.store(),
                tip == single_tip(store, a),
                affected.wf(),
                a == affected.seq(),
                a.no_duplicates(),
                a.len() == a.to_set().len(),
                in_degree.wf(),
                forall|x: Hash32| #[trigger]
                    in_degree@.contains_key(x) ==> a.contains(x),
                topo@.no_duplicates(),
                forall|x: Hash32| #[trigger]
                    topo@.contains(x) <==> (in_degree@.contains_key(x) && in_degree@[x] == 0),
                head <= topo@.len(),
                topo@.len() <= a.len(),
                tip ==> topo@ == a,
                forall|x: Hash32|
                    affected@.contains(x) && store.blocks().contains_key(x) && count_in(
                        parents_of(store, x),
                        affected@,
                    ) == 0 ==> #[trigger] topo@.contains(x),
            decreases a.len() - head,
        {
            let ghost hd = head as int;
            let h = topo[head];
            head = head + 1;
            let kids = match self.storage.get_children(&h) {
                Ok(c) => c,
                Err(_) => Vec::new(),
            };
            proof {
                if tip {
                    assert(h == topo@[hd]);
                    assert(hd == 0);
                    assert(h == a[0]);
                    assert(kids@.len() == 0);
                }
            }
            let mut j: usize = 0;
            while j < kids.len()
                invariant
                    affected.wf(),
                    tip == single_tip(store, a),
                    a == affected.seq(),
                    a.no_duplicates(),
                    a.len() == a.to_set().len(),
                    in_degree.wf(),
                    forall|x: Hash32| #[trigger]
                        in_degree@.contains_key(x) ==> a.contains(x),
                    topo@.no_duplicates(),
                    forall|x: Hash32| #[trigger]
                        topo@.contains(x) <==> (in_degree@.contains_key(x) && in_degree@[x] == 0),
                    head <= topo@.len(),
                    topo@.len() <= a.len(),
                    j <= kids@.len(),
                    tip ==> kids@.len() == 0,
                    tip ==> topo@ == a,
                    forall|x: Hash32|
                        affected@.contains(x) && store.blocks().contains_key(x) && count_in(
                            parents_of(store, x),
                            affected@,
                        ) == 0 ==> #[trigger] topo@.contains(x),
                decreases kids@.len() - j,
            {
                let child = kids[j];
                if affected.contains(&child) {
                    match in_degree.get_copy(&child) {
                        Some(d) => {
                            if d > 0 {
                                let nd = d - 1;
                                let ghost prev = topo@;
                                in_degree.insert(child, nd);
                                if nd == 0 {
                                    proof {
                                        assert(!prev.contains(child));
                                        lemma_push_contains(prev, child);
                                        assert(prev.push(child).no_duplicates()) by {
                                            assert forall|x: int, y: int|
                                                0 <= x < prev.len() + 1 && 0 <= y < prev.len() + 1 && x != y implies prev.push(
                                                    child,
                                                )[x] != prev.push(child)[y] by {
                                                if x < prev.len() && y < prev.len() {
                                                } else if x < prev.len() {
                                                    assert(prev.contains(prev[x]));
                                                } else {
                                                    assert(prev.contains(prev[y]));
                                                }
                                            }
                                        }
                                    }
                                    topo.push(child);
                                    proof {
                                        assert forall|x: Hash32| #[trigger] topo@.contains(x) implies a.to_set().contains(x) by {
                                            if x != child {
                                                assert(prev.contains(x));
                                            }
                                        }
                                        lemma_seq_within(topo@, a.to_set());
                                    }
                                }
                            }
                        },
                        None => {},
                    }
                }
                j = j + 1;
            }
        }
        proof {
            assert forall|x: Hash32| #[trigger] topo@.contains(x) implies affected@.contains(x) by {
                assert(a.to_set().contains(x) == a.contains(x));
            }
        }
        topo
    }
}

/// One more than `m`, saturating at the largest score.
pub open spec fn score_after(m: u64) -> u64 {
    if m < u64::MAX {
        (m + 1) as u64
    } else {
        m
    }
}

/// Recolors the stored block `h` from its parents: blue with the next score
/// after its best blue, scored parent; blue with score 1 when it has no
/// parents; red otherwise. A hash with no stored block is left alone.
pub open spec fn recolor_block(store: HybridDagStorage, c: Coloring, h: Hash32) -> Coloring {
    if !store.blocks().contains_key(h) {
        c
    } else {
        match best_parent(parents_of(store, h), c.0, c.2) {
            Some(m) => (c.0.insert(h), c.1, c.2.insert(h, score_after(m))),
            None => if parents_of(store, h).len() == 0 {
                (c.0.insert(h), c.1, c.2.insert(h, 1u64))
            } else {
                (c.0, c.1.insert(h), c.2)
            },
        }
    }
}

/// Recolors the hashes of `vs` in turn.
pub open spec fn recolor_all(store: HybridDagStorage, c: Coloring, vs: Seq<Hash32>) -> Coloring
    decreases vs.len(),
{
    if vs.len() == 0 {
        c
    } else {
        recolor_block(store, recolor_all(store, c, vs.drop_last()), vs.last())
    }
}

impl GhostDAG {
    /// Recolors one block of the affected set: a stored block with a blue,
    /// scored parent becomes blue with the next score; a stored parentless
    /// block becomes blue with score 1; any other stored block becomes red.
    /// Blocks that become blue again leave `removed`; newly blue ones join
    /// `added` (the parentless case is not tracked).
    fn recolor_one(&mut self, hash: Hash32, removed: &mut KeySet<Hash32>, added: &mut KeySet<Hash32>)
        requires
            old(self).wf(),
            old(removed).wf(),
            old(added).wf(),
        ensures
            final(self).wf(),
            final(removed).wf(),
            final(added).wf(),
            final(self).store() == old(self).store(),
            final(self).genesis() == old(self).genesis(),
            final(self).timestamps() == old(self).timestamps(),
            final(self).k_spec() == old(self).k_spec(),
            final(self).ordering() == old(self).ordering(),
            final(self).stale_rebuilt() == old(self).stale_rebuilt(),
            !old(self).store().blocks().contains_key(hash) ==> *final(self) == *old(self) && final(removed)@ == old(removed)@ && final(added)@ == old(added)@,
            old(self).store().blocks().contains_key(hash) ==> match best_parent(
                parents_of(old(self).store(), hash),
                old(self).blue(),
                old(self).scores(),
            ) {
                Some(m) => final(self).blue() == old(self).blue().insert(hash) && final(self).scores()
                    == old(self).scores().insert(hash, score_after(m)) && final(self).red() == old(self).red() && final(removed)@ == old(removed)@.remove(hash) && final(added)@ == (if old(removed)@.contains(hash) {
                    old(added)@
                } else {
                    old(added)@.insert(hash)
                }),
                None => if parents_of(old(self).store(), hash).len() == 0 {
                    final(self).blue() == old(self).blue().insert(hash) && final(self).scores() == old(self).scores().insert(hash, 1u64) && final(self).red() == old(self).red() && final(removed)@ == old(removed)@ && final(added)@ == old(added)@
                } else {
                    final(self).blue() == old(self).blue() && final(self).scores() == old(self).scores() && final(self).red() == old(self).red().insert(hash) && final(removed)@ == old(removed)@ && final(added)@ == old(added)@
                },
            },
            forall|x: Hash32| x != hash ==> #[trigger] same_color_at(*old(self), *final(self), x),
            old(self).blue().subset_of(final(self).blue()),
            final(removed)@.subset_of(old(removed)@),
            forall|x: Hash32| #[trigger] final(added)@.contains(x) ==> old(added)@.contains(x) || final(self).blue().contains(x),
    {
        let block = match self.storage.get_block(&hash) {
            Ok(Some(b)) => b,
            _ => {
                return ;
            },
        };
        proof {
            assert(block.header.parent_hashes@ == parents_of(self.store(), hash));
        }
        let best = self.best_blue_parent_score(&block.header.parent_hashes);
        match best {
            None => {
                if block.header.parent_hashes.len() == 0 {
                    self.blue_set.insert(hash);
                    self.blue_score.insert(hash, 1);
                } else {
                    self.red_set.insert(hash);
                }
                proof {
                    assert(removed@ == old(removed)@);
                }
            },
            Some(m) => {
                let score = m.saturating_add(1);
                self.blue_score.insert(hash, score);
                self.blue_set.insert(hash);
                if removed.contains(&hash) {
                    removed.remove(&hash);
                } else {
                    added.insert(hash);
                    proof {
                        assert(removed@ =~= old(removed)@.remove(hash));
                    }
                }
            },
        }
    }

    /// Recolors the blocks of `topo` in order.
    fn recolor(&mut self, topo: &Vec<Hash32>, removed: &mut KeySet<Hash32>, added: &mut KeySet<Hash32>)
        requires
            old(self).wf(),
            old(removed).wf(),
            old(added).wf(),
        ensures
            final(self).wf(),
            final(removed).wf(),
            final(added).wf(),
            final(self).store() == old(self).store(),
            final(self).genesis() == old(self).genesis(),
            final(self).timestamps() == old(self).timestamps(),
            final(self).k_spec() == old(self).k_spec(),
            final(self).ordering() == old(self).ordering(),
            final(self).stale_rebuilt() == old(self).stale_rebuilt(),
            topo@.len() == 1 && old(self).store().blocks().contains_key(topo@[0]) ==> match best_parent(
                parents_of(old(self).store(), topo@[0]),
                old(self).blue(),
                old(self).scores(),
            ) {
                Some(m) => final(self).blue() == old(self).blue().insert(topo@[0]) && final(self).scores() == old(self).scores().insert(topo@[0], score_after(m)) && final(self).red() == old(self).red() && final(removed)@ == old(removed)@.remove(topo@[0])
                    && final(added)@ == (if old(removed)@.contains(topo@[0]) {
                    old(added)@
                } else {
                    old(added)@.insert(topo@[0])
                }),
                None => if parents_of(old(self).store(), topo@[0]).len() == 0 {
                    final(self).blue() == old(self).blue().insert(topo@[0]) && final(self).scores()
                        == old(self).scores().insert(topo@[0], 1u64) && final(self).red() == old(self).red() && final(removed)@ == old(removed)@ && final(added)@ == old(added)@
                } else {
                    final(self).blue() == old(self).blue() && final(self).scores() == old(self).scores() && final(self).red() == old(self).red().insert(topo@[0]) && final(removed)@ == old(removed)@ && final(added)@ == old(added)@
                },
            },
            forall|x: Hash32| !topo@.contains(x) ==> #[trigger] same_color_at(*old(self), *final(self), x),
            (final(self).blue(), final(self).red(), final(self).scores()) == recolor_all(
                old(self).store(),
                (old(self).blue(), old(self).red(), old(self).scores()),
                topo@,
            ),
            old(self).blue().subset_of(final(self).blue()),
            final(removed)@.subset_of(old(removed)@),
            forall|x: Hash32| #[trigger] final(added)@.contains(x) ==> old(added)@.contains(x) || final(self).blue().contains(x),
    {
        let mut i: usize = 0;
        proof {
            assert(topo@.take(0) =~= Seq::<Hash32>::empty());
        }
        while i < topo.len()
            invariant
                i <= topo@.len(),
                (self.blue(), self.red(), self.scores()) == recolor_all(
                    old(self).store(),
                    (old(self).blue(), old(self).red(), old(self).scores()),
                    topo@.take(i as int),
                ),
                old(self).blue().subset_of(self.blue()),
                removed@.subset_of(old(removed)@),
                forall|x: Hash32| #[trigger] added@.contains(x) ==> old(added)@.contains(x) || self.blue().contains(x),
                self.wf(),
                removed.wf(),
                added.wf(),
                self.store() == old(self).store(),
                self.genesis() == old(self).genesis(),
                self.timestamps() == old(self).timestamps(),
                self.k_spec() == old(self).k_spec(),
                self.ordering() == old(self).ordering(),
                self.stale_rebuilt() == old(self).stale_rebuilt(),
                i == 0 ==> *self == *old(self) && *removed == *old(removed) && *added == *old(added),
                topo@.len() == 1 && i == 1 && old(self).store().blocks().contains_key(topo@[0]) ==> match best_parent(
                    parents_of(old(self).store(), topo@[0]),
                    old(self).blue(),
                    old(self).scores(),
                ) {
                    Some(m) => self.blue() == old(self).blue().insert(topo@[0]) && self.scores()
                        == old(self).scores().insert(topo@[0], score_after(m)) && self.red() == old(self).red() && removed@ == old(removed)@.remove(topo@[0]) && added@ == (if old(removed)@.contains(topo@[0]) {
                        old(added)@
                    } else {
                        old(added)@.insert(topo@[0])
                    }),
                    None => if parents_of(old(self).store(), topo@[0]).len() == 0 {
                        self.blue() == old(self).blue().insert(topo@[0]) && self.scores() == old(self).scores().insert(topo@[0], 1u64) && self.red() == old(self).red()
                            && removed@ == old(removed)@ && added@ == old(added)@
                    } else {
                        self.blue() == old(self).blue() && self.scores() == old(self).scores()
                            && self.red() == old(self).red().insert(topo@[0]) && removed@ == old(removed)@ && added@ == old(added)@
                    },
                },
                forall|x: Hash32| !topo@.contains(x) ==> #[trigger] same_color_at(*old(self), *self, x),
            decreases topo@.len() - i,
        {
            let ghost pre = *self;
            self.recolor_one(topo[i], removed, added);
            proof {
                assert(topo@.take(i + 1).drop_last() =~= topo@.take(i as int));
                assert(self.blue() =~= recolor_all(
                    old(self).store(),
                    (old(self).blue(), old(self).red(), old(self).scores()),
                    topo@.take(i + 1),
                ).0);
                assert(self.red() =~= recolor_all(
                    old(self).store(),
                    (old(self).blue(), old(self).red(), old(self).scores()),
                    topo@.take(i + 1),
                ).1);
                assert(self.scores() =~= recolor_all(
                    old(self).store(),
                    (old(self).blue(), old(self).red(), old(self).scores()),
                    topo@.take(i + 1),
                ).2);
                assert forall|x: Hash32| !topo@.contains(x) implies #[trigger] same_color_at(*old(self), *self, x) by {
                    assert(x != topo@[i as int]);
                    assert(same_color_at(*old(self), pre, x));
                    assert(same_color_at(pre, *self, x));
                }
            }
            i = i + 1;
        }
        proof {
            assert(topo@.take(topo@.len() as int) =~= topo@);
        }
    }

    /// Whether every hash of `ps` is blue.
    fn all_blue(&self, ps: &Vec<Hash32>) -> (r: bool)
        ensures
            r == forall|i: int| 0 <= i < ps@.len() ==> self.blue().contains(#[trigger] ps@[i]),
    {
        let mut i: usize = 0;
        while i < ps.len()
            invariant
                i <= ps@.len(),
                forall|j: int| 0 <= j < i ==> self.blue().contains(#[trigger] ps@[j]),
            decreases ps@.len() - i,
        {
            if !self.blue_set.contains(&ps[i]) {
                return false;
            }
            i = i + 1;
        }
        true
    }

    /// The next score after the best score among the scored hashes of `ps`
    /// (blue or not), or 1 when none is scored.
    fn next_score_from(&self, ps: &Vec<Hash32>) -> (r: u64)
        requires
            self.blue_score.wf(),
        ensures
            r == match best_parent(ps@, Set::<Hash32>::full(), self.scores()) {
                None => 1u64,
                Some(m) => score_after(m),
            },
    {
        let mut best: Option<u64> = None;
        let mut i: usize = 0;
        proof {
            assert(ps@.take(0) =~= Seq::<Hash32>::empty());
        }
        while i < ps.len()
            invariant
                i <= ps@.len(),
                self.blue_score.wf(),
                best == best_parent(ps@.take(i as int), Set::<Hash32>::full(), self.scores()),
            decreases ps@.len() - i,
        {
            proof {
                assert(ps@.take(i + 1).drop_last() =~= ps@.take(i as int));
            }
            match self.blue_score.get_copy(&ps[i]) {
                Some(s) => {
                    best = match best {
                        None => Some(s),
                        Some(m) => Some(
                            if s > m {
                                s
                            } else {
                                m
                            },
                        ),
                    };
                },
                None => {},
            }
            i = i + 1;
        }
        proof {
            assert(ps@.take(ps@.len() as int) =~= ps@);
        }
        match best {
            None => 1,
            Some(m) => m.saturating_add(1),
        }
    }

    /// Makes `hash` blue with the next score after its scored parents.
    fn mark_blue_from_parents(
        &mut self,
        hash: Hash32,
        parents: &Vec<Hash32>,
        removed: &mut KeySet<Hash32>,
        added: &mut KeySet<Hash32>,
    )
        requires
            old(self).wf(),
            old(removed).wf(),
            old(added).wf(),
        ensures
            final(self).wf(),
            final(removed).wf(),
            final(added).wf(),
            final(self).store() == old(self).store(),
            final(self).genesis() == old(self).genesis(),
            final(self).timestamps() == old(self).timestamps(),
            final(self).k_spec() == old(self).k_spec(),
            final(self).ordering() == old(self).ordering(),
            final(self).stale_rebuilt() == old(self).stale_rebuilt(),
            final(self).blue() == old(self).blue().insert(hash),
            final(self).red() == old(self).red().remove(hash),
            final(self).scores() == old(self).scores().insert(
                hash,
                match best_parent(parents@, Set::<Hash32>::full(), old(self).scores()) {
                    None => 1u64,
                    Some(m) => score_after(m),
                },
            ),
            final(removed)@ == old(removed)@,
            final(added)@ == old(added)@.insert(hash),
            forall|x: Hash32| x != hash ==> #[trigger] same_color_at(*old(self), *final(self), x),
    {
        let score = self.next_score_from(parents);
        self.blue_score.insert(hash, score);
        self.blue_set.insert(hash);
        self.red_set.remove(&hash);
        added.insert(hash);
    }

    /// Reclassifies as blue the new block, and the affected red blocks,
    /// when all their parents are blue (or they have none): the blocks of
    /// `fallback_blocks` are marked blue in turn, each with the next score
    /// after its scored parents; the affected red ones leave `removed` and
    /// all of them join `added`.
    fn fallback_recolor(
        &mut self,
        new_block_hash: &Hash32,
        affected: &KeySet<Hash32>,
        removed: &mut KeySet<Hash32>,
        added: &mut KeySet<Hash32>,
    )
        requires
            old(self).wf(),
            old(removed).wf(),
            old(added).wf(),
            affected.wf(),
        ensures
            final(self).wf(),
            final(removed).wf(),
            final(added).wf(),
            final(self).store() == old(self).store(),
            final(self).genesis() == old(self).genesis(),
            final(self).timestamps() == old(self).timestamps(),
            final(self).k_spec() == old(self).k_spec(),
            final(self).ordering() == old(self).ordering(),
            final(self).stale_rebuilt() == old(self).stale_rebuilt(),
            ({
                let cands = fallback_candidates(old(self).store(), old(self).blue(), old(self).red(), affected.seq());
                let hs = fallback_blocks(old(self).store(), old(self).blue(), old(self).red(), *new_block_hash, affected.seq());
                &&& (final(self).blue(), final(self).red(), final(self).scores()) == mark_all(
                    old(self).store(),
                    (old(self).blue(), old(self).red(), old(self).scores()),
                    hs,
                )
                &&& final(added)@ == old(added)@ + hs.to_set()
                &&& final(removed)@ == old(removed)@ - cands.to_set()
            }),
            !needs_fallback(old(self).store(), old(self).blue(), *new_block_hash) && (forall|h: Hash32|
                #[trigger] affected@.contains(h) && old(self).red().contains(h) ==> !needs_fallback(
                    old(self).store(),
                    old(self).blue(),
                    h,
                )) ==> *final(self) == *old(self) && final(removed)@ == old(removed)@ && final(added)@ == old(added)@,
            forall|x: Hash32| !affected@.contains(x) && x != *new_block_hash ==> #[trigger] same_color_at(*old(self), *final(self), x),
            old(self).blue().subset_of(final(self).blue()),
            final(removed)@.subset_of(old(removed)@),
            forall|x: Hash32| #[trigger] final(added)@.contains(x) ==> old(added)@.contains(x) || final(self).blue().contains(x),
    {
        let ghost store = self.store();
        let ghost b0 = self.blue();
        let ghost r0 = self.red();
        let mut new_block_parents: Option<Vec<Hash32>> = None;
        let mut affected_red_blocks: Vec<(Hash32, Vec<Hash32>)> = Vec::new();
        if !self.blue_set.contains(new_block_hash) {
            match self.storage.get_block(new_block_hash) {
                Ok(Some(block)) => {
                    let parents = block.header.parent_hashes;
                    proof {
                        assert(parents@ == parents_of(self.store(), *new_block_hash));
                    }
                    let all_parents_blue = self.all_blue(&parents);
                    if all_parents_blue || parents.len() == 0 {
                        new_block_parents = Some(parents);
                    }
                },
                _ => {},
            }
        }
        proof {
            assert((new_block_parents is Some) == needs_fallback(store, b0, *new_block_hash));
        }
        let ghost a = affected.seq();
        proof {
            affected.lemma_seq();
            assert(a.take(0) =~= Seq::<Hash32>::empty());
        }
        let n = affected.len();
        let mut i: usize = 0;
        while i < n
            invariant
                affected.wf(),
                a == affected.seq(),
                a.to_set() == affected@,
                (new_block_parents is Some) == needs_fallback(store, b0, *new_block_hash),
                new_block_parents matches Some(p) ==> p@ == parents_of(store, *new_block_hash),
                n == a.len(),
                i <= n,
                self.wf(),
                *self == *old(self),
                store == old(self).store(),
                b0 == old(self).blue(),
                r0 == old(self).red(),
                affected_red_blocks@.len() == fallback_candidates(store, b0, r0, a.take(i as int)).len(),
                forall|k: int|
                    0 <= k < affected_red_blocks@.len() ==> (#[trigger] affected_red_blocks@[k]).0
                        == fallback_candidates(store, b0, r0, a.take(i as int))[k] && affected_red_blocks@[k].1@
                        == parents_of(store, affected_red_blocks@[k].0),
            decreases n - i,
        {
            let h = affected.at(i);
            proof {
                assert(a.take(i + 1).drop_last() =~= a.take(i as int));
                assert(a.take(i + 1).last() == h);
            }
            let ghost before = fallback_candidates(store, b0, r0, a.take(i as int));
            if self.red_set.contains(&h) && !self.blue_set.contains(&h) {
                match self.storage.get_block(&h) {
                    Ok(Some(block)) => {
                        let parents = block.header.parent_hashes;
                        proof {
                            assert(parents@ == parents_of(self.store(), h));
                        }
                        let all_parents_blue = self.all_blue(&parents);
                        if all_parents_blue || parents.len() == 0 {
                            affected_red_blocks.push((h, parents));
                            proof {
                                assert(needs_fallback(store, b0, h));
                                assert(fallback_candidates(store, b0, r0, a.take(i + 1)) == before.push(h));
                            }
                        } else {
                            proof {
                                assert(!needs_fallback(store, b0, h));
                            }
                        }
                    },
                    _ => {},
                }
            }
            i = i + 1;
        }
        proof {
            assert(a.take(n as int) =~= a);
        }
        let ghost cands = fallback_candidates(store, b0, r0, a);
        let ghost first: Seq<Hash32> = if new_block_parents is Some {
            seq![*new_block_hash]
        } else {
            Seq::empty()
        };
        let ghost c0 = (b0, r0, old(self).scores());
        let ghost a0 = old(added)@;
        let ghost m0 = old(removed)@;
        proof {
            assert(mark_all(store, c0, Seq::<Hash32>::empty()) == c0);
        }
        match new_block_parents {
            Some(parents) => {
                self.mark_blue_from_parents(*new_block_hash, &parents, removed, added);
                proof {
                    assert(first.drop_last() =~= Seq::<Hash32>::empty());
                    assert(first.last() == *new_block_hash);
                    assert(self.scores() == c0.2.insert(*new_block_hash, next_score_of(parents_of(store, *new_block_hash), c0.2)));
                    assert((self.blue(), self.red(), self.scores()) == mark_blue(store, c0, *new_block_hash));
                }
            },
            None => {
                proof {
                    assert(first =~= Seq::<Hash32>::empty());
                }
            },
        }
        proof {
            assert((self.blue(), self.red(), self.scores()) == mark_all(store, c0, first));
            assert(added@ =~= a0 + first.to_set());
            assert(removed@ =~= m0 - cands.take(0).to_set());
            assert(first + cands.take(0) =~= first);
            assert forall|x: Hash32| !affected@.contains(x) && x != *new_block_hash implies #[trigger] same_color_at(
                *old(self),
                *self,
                x,
            ) by {}
        }
        let mut j: usize = 0;
        while j < affected_red_blocks.len()
            invariant
                j <= affected_red_blocks@.len(),
                affected_red_blocks@.len() == cands.len(),
                first.len() == 0 && cands.len() == 0 ==> *self == *old(self) && removed@ == m0 && added@ == a0,
                forall|k: int|
                    0 <= k < affected_red_blocks@.len() ==> (#[trigger] affected_red_blocks@[k]).0 == cands[k]
                        && affected_red_blocks@[k].1@ == parents_of(store, affected_red_blocks@[k].0),
                a.to_set() == affected@,
                cands == fallback_candidates(store, b0, r0, a),
                (self.blue(), self.red(), self.scores()) == mark_all(store, c0, first + cands.take(j as int)),
                added@ == a0 + (first + cands.take(j as int)).to_set(),
                removed@ == m0 - cands.take(j as int).to_set(),
                self.wf(),
                removed.wf(),
                added.wf(),
                store == old(self).store(),
                self.store() == old(self).store(),
                self.genesis() == old(self).genesis(),
                self.timestamps() == old(self).timestamps(),
                self.k_spec() == old(self).k_spec(),
                self.ordering() == old(self).ordering(),
                self.stale_rebuilt() == old(self).stale_rebuilt(),
                forall|x: Hash32| !affected@.contains(x) && x != *new_block_hash ==> #[trigger] same_color_at(
                    *old(self),
                    *self,
                    x,
                ),
            decreases affected_red_blocks@.len() - j,
        {
            let h = affected_red_blocks[j].0;
            let ghost hs_before = first + cands.take(j as int);
            proof {
                lemma_fallback_candidates_in(store, b0, r0, a, j as int);
                assert(cands.take(j + 1) =~= cands.take(j as int).push(h));
                assert(first + cands.take(j + 1) =~= hs_before.push(h));
                lemma_push_contains(cands.take(j as int), h);
                lemma_push_contains(hs_before, h);
            }
            removed.remove(&h);
            let ghost pre = *self;
            self.mark_blue_from_parents(h, &affected_red_blocks[j].1, removed, added);
            proof {
                assert(hs_before.push(h).drop_last() =~= hs_before);
                assert(removed@ =~= m0 - cands.take(j + 1).to_set());
                assert(added@ =~= a0 + (first + cands.take(j + 1)).to_set());
                assert forall|x: Hash32| !affected@.contains(x) && x != *new_block_hash implies #[trigger] same_color_at(
                    *old(self),
                    *self,
                    x,
                ) by {
                    assert(same_color_at(*old(self), pre, x));
                    assert(same_color_at(pre, *self, x));
                }
            }
            j = j + 1;
        }
        proof {
            assert(cands.take(cands.len() as int) =~= cands);
            if !needs_fallback(old(self).store(), old(self).blue(), *new_block_hash) && (forall|h: Hash32|
                #[trigger] affected@.contains(h) && old(self).red().contains(h) ==> !needs_fallback(
                    old(self).store(),
                    old(self).blue(),
                    h,
                )) {
                assert forall|h: Hash32| #[trigger] a.contains(h) && r0.contains(h) implies !needs_fallback(store, b0, h) by {
                    assert(a.to_set().contains(h));
                    assert(affected@.contains(h));
                }
                lemma_fallback_candidates_empty(store, b0, r0, a);
                assert(first + cands =~= Seq::<Hash32>::empty());
                assert(cands.to_set() =~= Set::<Hash32>::empty());
                assert(added@ =~= a0);
                assert(removed@ =~= m0);
                assert(self.blue() =~= old(self).blue());
                assert(self.red() =~= old(self).red());
                assert(self.scores() =~= old(self).scores());
            }
            lemma_mark_all_blue(
                store,
                (old(self).blue(), old(self).red(), old(self).scores()),
                fallback_blocks(store, b0, r0, *new_block_hash, a),
            );
            assert(added@ =~= a0 + (first + cands).to_set());
        }
    }

    /// The position at which a block with this score and timestamp goes in
    /// the ordering (binary search on blue score, highest first, then on
    /// timestamp, earliest first).
    fn search_position(&self, score: u64, timestamp: u64) -> (pos: usize)
        requires
            self.blue_score.wf(),
            self.block_timestamps.wf(),
        ensures
            pos <= self.ordering@.len(),
            score_sorted(self.ordering@, self.scores()) ==> (forall|i: int|
                0 <= i < pos ==> score_or_zero(self.scores(), #[trigger] self.ordering@[i]) >= score)
                && (forall|i: int|
                pos <= i < self.ordering@.len() ==> score_or_zero(
                    self.scores(),
                    #[trigger] self.ordering@[i],
                ) <= score),
            rank_sorted(self.ordering@, self.scores(), self.timestamps()) ==> (forall|i: int|
                0 <= i < pos ==> rank_le(
                    score_or_zero(self.scores(), #[trigger] self.ordering@[i]),
                    ts_or_zero(self.timestamps(), self.ordering@[i]),
                    score,
                    timestamp,
                )) && (forall|i: int|
                pos <= i < self.ordering@.len() ==> rank_le(
                    score,
                    timestamp,
                    score_or_zero(self.scores(), #[trigger] self.ordering@[i]),
                    ts_or_zero(self.timestamps(), self.ordering@[i]),
                )),
    {
        let mut left: usize = 0;
        let mut right: usize = self.ordering.len();
        while left < right
            invariant
                self.blue_score.wf(),
                self.block_timestamps.wf(),
                left <= right <= self.ordering@.len(),
                score_sorted(self.ordering@, self.scores()) ==> (forall|i: int|
                    0 <= i < left ==> score_or_zero(self.scores(), #[trigger] self.ordering@[i])
                        >= score),
                score_sorted(self.ordering@, self.scores()) ==> (forall|i: int|
                    right <= i < self.ordering@.len() ==> score_or_zero(
                        self.scores(),
                        #[trigger] self.ordering@[i],
                    ) <= score),
                rank_sorted(self.ordering@, self.scores(), self.timestamps()) ==> (forall|i: int|
                    0 <= i < left ==> rank_le(
                        score_or_zero(self.scores(), #[trigger] self.ordering@[i]),
                        ts_or_zero(self.timestamps(), self.ordering@[i]),
                        score,
                        timestamp,
                    )),
                rank_sorted(self.ordering@, self.scores(), self.timestamps()) ==> (forall|i: int|
                    right <= i < self.ordering@.len() ==> rank_le(
                        score,
                        timestamp,
                        score_or_zero(self.scores(), #[trigger] self.ordering@[i]),
                        ts_or_zero(self.timestamps(), self.ordering@[i]),
                    )),
            decreases right - left,
        {
            let mid = left + (right - left) / 2;
            let probe = self.ordering[mid];
            let probe_score = match self.blue_score.get_copy(&probe) {
                Some(s) => s,
                None => 0,
            };
            let probe_timestamp = match self.block_timestamps.get_copy(&probe) {
                Some(t) => t,
                None => 0,
            };
            proof {
                assert(probe_score == score_or_zero(self.scores(), self.ordering@[mid as int]));
                assert(probe_timestamp == ts_or_zero(self.timestamps(), self.ordering@[mid as int]));
            }
            if score < probe_score || (score == probe_score && timestamp > probe_timestamp) {
                left = mid + 1;
            } else if score > probe_score || (score == probe_score && timestamp < probe_timestamp) {
                right = mid;
            } else {
                return mid;
            }
        }
        left
    }

    /// The first position of `h` in the ordering.
    fn position_in_ordering(&self, h: &Hash32) -> (r: Option<usize>)
        ensures
            r matches Some(p) ==> p < self.ordering@.len() && self.ordering@[p as int] == *h,
            r is None ==> !self.ordering@.contains(*h),
    {
        let mut pos: usize = 0;
        while pos < self.ordering.len()
            invariant
                pos <= self.ordering@.len(),
                forall|k: int| 0 <= k < pos ==> self.ordering@[k] != *h,
            decreases self.ordering@.len() - pos,
        {
            if self.ordering[pos] == *h {
                return Some(pos);
            }
            pos = pos + 1;
        }
        None
    }

    /// Removes the blocks of `removed` from the ordering and inserts those
    /// of `added` at their binary-search positions.
    fn apply_ordering_changes(&mut self, removed: &KeySet<Hash32>, added: &KeySet<Hash32>)
        requires
            old(self).wf(),
            removed.wf(),
            added.wf(),
        ensures
            final(self).wf(),
            final(self).store() == old(self).store(),
            final(self).genesis() == old(self).genesis(),
            final(self).blue() == old(self).blue(),
            final(self).red() == old(self).red(),
            final(self).scores() == old(self).scores(),
            final(self).timestamps() == old(self).timestamps(),
            final(self).k_spec() == old(self).k_spec(),
            final(self).stale_rebuilt() == old(self).stale_rebuilt(),
            removed@ == Set::<Hash32>::empty() && added@ == Set::<Hash32>::empty() ==> final(self).ordering() == old(self).ordering(),
            removed@ == Set::<Hash32>::empty() && added.seq().len() == 1 ==> exists|pos: int|
                0 <= pos <= old(self).ordering().len() && final(self).ordering() == old(self).ordering().insert(pos, added.seq()[0]),
            removed@ == Set::<Hash32>::empty() && added.seq().len() == 1 && score_sorted(
                old(self).ordering(),
                old(self).scores(),
            ) ==> score_sorted(final(self).ordering(), final(self).scores()),
            removed@ == Set::<Hash32>::empty() && added.seq().len() == 1 && rank_sorted(
                old(self).ordering(),
                old(self).scores(),
                old(self).timestamps(),
            ) ==> rank_sorted(final(self).ordering(), final(self).scores(), final(self).timestamps()),
            forall|x: Hash32|
                old(self).ordering().contains(x) && !removed@.contains(x) ==> #[trigger] final(self).ordering().contains(x),
            forall|x: Hash32|
                #[trigger] final(self).ordering().contains(x) ==> old(self).ordering().contains(x) || added@.contains(x),
    {
        proof {
            removed.lemma_seq();
            added.lemma_seq();
        }
        let nr = removed.len();
        let mut i: usize = 0;
        while i < nr
            invariant
                removed.wf(),
                nr == removed.seq().len(),
                i <= nr,
                self.wf(),
                self.storage == old(self).storage,
                self.genesis_hash == old(self).genesis_hash,
                self.blue_set == old(self).blue_set,
                self.red_set == old(self).red_set,
                self.blue_score == old(self).blue_score,
                self.block_timestamps == old(self).block_timestamps,
                self.k == old(self).k,
                self.checkpoint_stale_rebuilt == old(self).checkpoint_stale_rebuilt,
                nr == 0 ==> self.ordering == old(self).ordering,
                forall|x: Hash32|
                    old(self).ordering@.contains(x) && !removed@.contains(x) ==> #[trigger] self.ordering@.contains(x),
                forall|x: Hash32| #[trigger] self.ordering@.contains(x) ==> old(self).ordering@.contains(x),
            decreases nr - i,
        {
            let h = removed.at(i);
            match self.position_in_ordering(&h) {
                Some(pos) => {
                    let ghost pre = self.ordering@;
                    self.ordering.remove(pos);
                    proof {
                        crate::collections::lemma_remove_contains(pre, pos as int);
                    }
                },
                None => {},
            }
            i = i + 1;
        }
        let ghost ord0 = self.ordering@;
        let na = added.len();
        let mut j: usize = 0;
        while j < na
            invariant
                added.wf(),
                na == added.seq().len(),
                j <= na,
                self.wf(),
                self.storage == old(self).storage,
                self.genesis_hash == old(self).genesis_hash,
                self.blue_set == old(self).blue_set,
                self.red_set == old(self).red_set,
                self.blue_score == old(self).blue_score,
                self.block_timestamps == old(self).block_timestamps,
                self.k == old(self).k,
                self.checkpoint_stale_rebuilt == old(self).checkpoint_stale_rebuilt,
                j == 0 ==> self.ordering@ == ord0,
                na == 1 && j == 1 ==> exists|pos: int|
                    0 <= pos <= ord0.len() && self.ordering@ == ord0.insert(pos, added.seq()[0]),
                na == 1 && j == 1 && score_sorted(ord0, self.scores()) ==> score_sorted(
                    self.ordering@,
                    self.scores(),
                ),
                na == 1 && j == 1 && rank_sorted(ord0, self.scores(), self.timestamps()) ==> rank_sorted(
                    self.ordering@,
                    self.scores(),
                    self.timestamps(),
                ),
                forall|x: Hash32| ord0.contains(x) ==> #[trigger] self.ordering@.contains(x),
                forall|x: Hash32| #[trigger] self.ordering@.contains(x) ==> ord0.contains(x) || added@.contains(x),
            decreases na - j,
        {
            let h = added.at(j);
            let score = match self.blue_score.get_copy(&h) {
                Some(s) => s,
                None => 0,
            };
            let timestamp = match self.block_timestamps.get_copy(&h) {
                Some(t) => t,
                None => 0,
            };
            let pos = self.search_position(score, timestamp);
            let ghost before = self.ordering@;
            self.ordering.insert(pos, h);
            proof {
                crate::collections::lemma_insert_contains(before, pos as int, h);
                before.insert_ensures(pos as int, h);
                if na == 1 {
                    assert(j == 0);
                    assert(before == ord0);
                    assert(h == added.seq()[0]);
                    assert(self.ordering@ == ord0.insert(pos as int, added.seq()[0]));
                }
                assert(score == score_or_zero(self.scores(), h));
                assert(timestamp == ts_or_zero(self.timestamps(), h));
                if rank_sorted(before, self.scores(), self.timestamps()) {
                    lemma_insert_rank_sorted(before, pos as int, h, self.scores(), self.timestamps());
                }
                if score_sorted(before, self.scores()) {
                    let t = before.insert(pos as int, h);
                    assert forall|a: int, b: int| 0 <= a < b < t.len() implies score_or_zero(
                        self.scores(),
                        #[trigger] t[a],
                    ) >= score_or_zero(self.scores(), #[trigger] t[b]) by {
                        if b < pos {
                            assert(t[a] == before[a] && t[b] == before[b]);
                        } else if b == pos {
                            assert(t[a] == before[a]);
                        } else if a < pos {
                            assert(t[a] == before[a] && t[b] == before[b - 1]);
                        } else if a == pos {
                            assert(t[b] == before[b - 1]);
                        } else {
                            assert(t[a] == before[a - 1] && t[b] == before[b - 1]);
                        }
                    }
                }
            }
            j = j + 1;
        }
        proof {
            if removed@ == Set::<Hash32>::empty() {
                if nr > 0 {
                    assert(removed.seq().to_set().contains(removed.seq()[0]));
                }
                assert(nr == 0);
                assert(ord0 == old(self).ordering@);
                if added.seq().len() == 1 {
                    let pos = choose|pos: int|
                        0 <= pos <= ord0.len() && self.ordering@ == ord0.insert(pos, added.seq()[0]);
                    assert(0 <= pos <= old(self).ordering().len() && self.ordering()
                        == old(self).ordering().insert(pos, added.seq()[0]));
                }
            }
            if added@ == Set::<Hash32>::empty() {
                if na > 0 {
                    assert(added.seq().to_set().contains(added.seq()[0]));
                }
            }
        }
    }
}

/// Inserting `h` at a position whose earlier hashes may precede it and
/// whose later ones may follow it keeps a ranked ordering ranked.
proof fn lemma_insert_rank_sorted(
    o: Seq<Hash32>,
    pos: int,
    h: Hash32,
    sc: Map<Hash32, u64>,
    ts: Map<Hash32, u64>,
)
    requires
        0 <= pos <= o.len(),
        rank_sorted(o, sc, ts),
        forall|i: int|
            0 <= i < pos ==> rank_le(
                score_or_zero(sc, #[trigger] o[i]),
                ts_or_zero(ts, o[i]),
                score_or_zero(sc, h),
                ts_or_zero(ts, h),
            ),
        forall|i: int|
            pos <= i < o.len() ==> rank_le(
                score_or_zero(sc, h),
                ts_or_zero(ts, h),
                score_or_zero(sc, #[trigger] o[i]),
                ts_or_zero(ts, o[i]),
            ),
    ensures
        rank_sorted(o.insert(pos, h), sc, ts),
{
    let t = o.insert(pos, h);
    o.insert_ensures(pos, h);
    assert forall|a: int, b: int| 0 <= a < b < t.len() implies rank_le(
        score_or_zero(sc, #[trigger] t[a]),
        ts_or_zero(ts, t[a]),
        score_or_zero(sc, #[trigger] t[b]),
        ts_or_zero(ts, t[b]),
    ) by {
        if b < pos {
            assert(t[a] == o[a] && t[b] == o[b]);
        } else if b == pos {
            assert(t[a] == o[a]);
        } else if a < pos {
            assert(t[a] == o[a] && t[b] == o[b - 1]);
        } else if a == pos {
            assert(t[b] == o[b - 1]);
        } else {
            assert(t[a] == o[a - 1] && t[b] == o[b - 1]);
        }
    }
}

/// The new block `h` is a stored tip with a stored genesis, the state is
/// not stale for it, and it is neither blue nor ordered yet (nor its own
/// parent): the incremental update colors just this block.
pub open spec fn incremental_tip(d: GhostDAG, h: Hash32) -> bool {
    &&& d.genesis() is Some
    &&& d.store().blocks().contains_key(d.genesis()->0)
    &&& d.store().blocks().contains_key(h)
    &&& children_of(d.store(), h).len() == 0
    &&& !stale_for(d.store(), d.blue(), h)
    &&& !d.blue().contains(h)
    &&& !parents_of(d.store(), h).contains(h)
    &&& !d.ordering().contains(h)
}

/// The coloring and ordering after the incremental update of tip `h`: with
/// a blue, scored parent it is blue with score one more than the best such
/// parent and enters the ordering; without parents it is blue with score 1
/// (outside the ordering); otherwise it is red.
pub open spec fn tip_outcome(before: GhostDAG, after: GhostDAG, h: Hash32, ps: Seq<Hash32>) -> bool {
    match best_parent(ps, before.blue(), before.scores()) {
        Some(m) => {
            &&& after.blue() == before.blue().insert(h)
            &&& after.scores() == before.scores().insert(h, score_after(m))
            &&& after.red() == before.red().remove(h)
            &&& exists|pos: int|
                0 <= pos <= before.ordering().len() && after.ordering() == before.ordering().insert(
                    pos,
                    h,
                )
            &&& score_sorted(before.ordering(), before.scores()) ==> score_sorted(
                after.ordering(),
                after.scores(),
            )
            &&& rank_sorted(before.ordering(), before.scores(), before.timestamps()) ==> rank_sorted(
                after.ordering(),
                after.scores(),
                after.timestamps(),
            )
        },
        None => if ps.len() == 0 {
            &&& after.blue() == before.blue().insert(h)
            &&& after.scores() == before.scores().insert(h, 1u64)
            &&& after.red() == before.red().remove(h)
            &&& after.ordering() == before.ordering()
        } else {
            &&& after.blue() == before.blue()
            &&& after.scores() == before.scores().remove(h)
            &&& after.red() == before.red().insert(h)
            &&& after.ordering() == before.ordering()
        },
    }
}

/// `h` and every block reachable from it along children links.
pub open spec fn descendants(store: HybridDagStorage, h: Hash32) -> Set<Hash32> {
    Set::new(|x: Hash32| descends(store, h, x))
}

/// The coloring `c` with the blocks of `d` dropped from the blue set, the
/// red set and the scores.
pub open spec fn cleared(c: Coloring, d: Set<Hash32>) -> Coloring {
    (c.0 - d, c.1 - d, c.2.remove_keys(d))
}

/// The coloring after an incremental update that is not stale: the
/// descendants `a` of the new block `h` are cleared, the blocks of `vs`
/// (distinct descendants, in the order in which they are visited) are
/// recolored in turn, and then the fallback marks blue the new block and
/// the red descendants whose parents are all blue.
pub open spec fn incremental_coloring(
    store: HybridDagStorage,
    before: Coloring,
    h: Hash32,
    a: Seq<Hash32>,
    vs: Seq<Hash32>,
) -> Coloring {
    let c = recolor_all(store, cleared(before, a.to_set()), vs);
    mark_all(store, c, fallback_blocks(store, c.0, c.1, h, a))
}

proof fn lemma_rank_sorted_frame(o: Seq<Hash32>, sc1: Map<Hash32, u64>, sc2: Map<Hash32, u64>, ts: Map<Hash32, u64>)
    requires
        rank_sorted(o, sc1, ts),
        forall|i: int| 0 <= i < o.len() ==> score_or_zero(sc1, #[trigger] o[i]) == score_or_zero(sc2, o[i]),
    ensures
        rank_sorted(o, sc2, ts),
{
    assert forall|a: int, b: int| 0 <= a < b < o.len() implies rank_le(
        score_or_zero(sc2, #[trigger] o[a]),
        ts_or_zero(ts, o[a]),
        score_or_zero(sc2, #[trigger] o[b]),
        ts_or_zero(ts, o[b]),
    ) by {
        assert(score_or_zero(sc1, o[a]) == score_or_zero(sc2, o[a]));
        assert(score_or_zero(sc1, o[b]) == score_or_zero(sc2, o[b]));
    }
}

proof fn lemma_score_sorted_frame(o: Seq<Hash32>, sc1: Map<Hash32, u64>, sc2: Map<Hash32, u64>)
    requires
        score_sorted(o, sc1),
        forall|i: int| 0 <= i < o.len() ==> score_or_zero(sc1, #[trigger] o[i]) == score_or_zero(sc2, o[i]),
    ensures
        score_sorted(o, sc2),
{
    assert forall|a: int, b: int| 0 <= a < b < o.len() implies score_or_zero(sc2, #[trigger] o[a])
        >= score_or_zero(sc2, #[trigger] o[b]) by {
        assert(score_or_zero(sc1, o[a]) == score_or_zero(sc2, o[a]));
        assert(score_or_zero(sc1, o[b]) == score_or_zero(sc2, o[b]));
    }
}

impl GhostDAG {
    /// Incremental update after adding `new_block_hash`: only the new block
    /// and its descendants are recolored (in topological order), with a
    /// fallback that makes blocks with all-blue parents blue, and the
    /// ordering is patched for blocks that left or joined the blue set. A
    /// stale state (stored parents, none blue) triggers one full rebuild.
    fn update_blue_set_incremental(&mut self, new_block_hash: Hash32) -> (r: Result<
        (),
        BlockchainError,
    >)
        requires
            old(self).wf(),
        ensures
            r is Ok,
            final(self).wf(),
            final(self).store() == old(self).store(),
            final(self).genesis() == old(self).genesis(),
            final(self).timestamps() == old(self).timestamps(),
            final(self).k_spec() == old(self).k_spec(),
            old(self).stale_rebuilt() ==> final(self).stale_rebuilt(),
            incremental_tip(*old(self), new_block_hash) ==> tip_outcome(
                *old(self),
                *final(self),
                new_block_hash,
                parents_of(old(self).store(), new_block_hash),
            ),
            !stale_for(old(self).store(), old(self).blue(), new_block_hash) ==> forall|x: Hash32|
                !descends(old(self).store(), new_block_hash, x) ==> #[trigger] same_color_at(
                    *old(self),
                    *final(self),
                    x,
                ),
            old(self).genesis() is Some && old(self).store().blocks().contains_key(old(self).genesis()->0)
                && !stale_for(old(self).store(), old(self).blue(), new_block_hash) ==> exists|
                a: Seq<Hash32>,
                vs: Seq<Hash32>,
            |
                #![trigger incremental_coloring(old(self).store(), (old(self).blue(), old(self).red(), old(self).scores()), new_block_hash, a, vs)]
                a.no_duplicates() && a.to_set() == descendants(old(self).store(), new_block_hash)
                    && vs.no_duplicates() && (forall|x: Hash32| #[trigger] vs.contains(x) ==> a.contains(x))
                    && (forall|x: Hash32|
                    a.contains(x) && old(self).store().blocks().contains_key(x) && count_in(
                        parents_of(old(self).store(), x),
                        a.to_set(),
                    ) == 0 ==> #[trigger] vs.contains(x))
                    && (final(self).blue(), final(self).red(), final(self).scores()) == incremental_coloring(
                    old(self).store(),
                    (old(self).blue(), old(self).red(), old(self).scores()),
                    new_block_hash,
                    a,
                    vs,
                ),
            old(self).genesis() is Some && old(self).store().blocks().contains_key(old(self).genesis()->0)
                && !stale_for(old(self).store(), old(self).blue(), new_block_hash) ==> forall|x: Hash32|
                old(self).ordering().contains(x) && !descends(old(self).store(), new_block_hash, x)
                    ==> #[trigger] final(self).ordering().contains(x),
            old(self).genesis() is Some && old(self).store().blocks().contains_key(old(self).genesis()->0)
                && !stale_for(old(self).store(), old(self).blue(), new_block_hash) ==> forall|x: Hash32|
                #[trigger] final(self).ordering().contains(x) ==> old(self).ordering().contains(x)
                    || final(self).blue().contains(x),
    {
        let genesis_hash = match self.genesis_hash {
            Some(h) => h,
            None => {
                return Ok(());
            },
        };
        match self.storage.get_block(&genesis_hash) {
            Ok(Some(_)) => {},
            Ok(None) => {
                return Ok(());
            },
            Err(e) => {
                return Err(e);
            },
        }
        let ghost tip = incremental_tip(*old(self), new_block_hash);
        let ghost s0 = *self;
        if self.handle_stale_state(&new_block_hash) {
            return self.update_blue_set();
        }
        let ghost s1 = *self;
        let affected = self.affected_set(&new_block_hash);
        let mut removed = self.clear_affected(&affected);
        let ghost s2 = *self;
        let mut added: KeySet<Hash32> = KeySet::new();
        let topo = self.topo_order(&affected);
        proof {
            if tip {
                assert(s1 == s0);
                affected.lemma_singleton(new_block_hash);
                assert(single_tip(self.store(), affected.seq()));
                assert(topo@ == seq![new_block_hash]);
                assert(s2.blue() =~= s0.blue());
                assert(s2.red() =~= s0.red().remove(new_block_hash));
                assert(s2.scores() =~= s0.scores().remove(new_block_hash));
                assert(removed@ =~= Set::<Hash32>::empty());
                let ps = parents_of(s0.store(), new_block_hash);
                lemma_best_parent_frame(ps, s0.blue(), s0.scores(), s2.blue(), s2.scores());
            }
        }
        let ghost removed2 = removed@;
        let ghost added2 = added@;
        self.recolor(&topo, &mut removed, &mut added);
        let ghost s3 = *self;
        proof {
            if tip {
                let ps = parents_of(s0.store(), new_block_hash);
                assert(topo@[0] == new_block_hash);
                match best_parent(ps, s0.blue(), s0.scores()) {
                    Some(m) => {
                        assert(s3.blue().contains(new_block_hash));
                        assert(!needs_fallback(s3.store(), s3.blue(), new_block_hash));
                        assert(!s3.red().contains(new_block_hash));
                        assert(removed@ =~= Set::<Hash32>::empty());
                        assert(added@ =~= Set::<Hash32>::empty().insert(new_block_hash));
                    },
                    None => {
                        if ps.len() == 0 {
                            assert(s3.blue().contains(new_block_hash));
                            assert(!s3.red().contains(new_block_hash));
                        } else {
                            if needs_fallback(s3.store(), s3.blue(), new_block_hash) {
                                assert forall|i: int| 0 <= i < ps.len() implies s0.blue().contains(
                                    #[trigger] ps[i],
                                ) && s0.scores().contains_key(ps[i]) by {
                                    assert(s3.blue().contains(ps[i]));
                                }
                                lemma_best_parent_some(ps, s0.blue(), s0.scores());
                            }
                        }
                        assert(removed@ =~= Set::<Hash32>::empty());
                        assert(added@ =~= Set::<Hash32>::empty());
                    },
                }
                assert forall|h: Hash32| #[trigger] affected@.contains(h) && s3.red().contains(h)
                    implies !needs_fallback(s3.store(), s3.blue(), h) by {
                    assert(h == new_block_hash);
                }
            }
        }
        self.fallback_recolor(&new_block_hash, &affected, &mut removed, &mut added);
        let ghost s4 = *self;
        proof {
            if tip {
                assert(s4 == s3);
                if added@ == Set::<Hash32>::empty().insert(new_block_hash) {
                    added.lemma_singleton(new_block_hash);
                }
            }
        }
        self.apply_ordering_changes(&removed, &added);
        proof {
            if tip {
                let ps = parents_of(s0.store(), new_block_hash);
                match best_parent(ps, s0.blue(), s0.scores()) {
                    Some(m) => {
                        assert(added.seq() == seq![new_block_hash]);
                        assert(self.scores() =~= s0.scores().insert(new_block_hash, score_after(m)));
                        if score_sorted(s0.ordering(), s0.scores()) {
                            assert forall|i: int| 0 <= i < s0.ordering().len() implies score_or_zero(
                                s0.scores(),
                                #[trigger] s0.ordering()[i],
                            ) == score_or_zero(s4.scores(), s0.ordering()[i]) by {
                                assert(s0.ordering().contains(s0.ordering()[i]));
                            }
                            lemma_score_sorted_frame(s0.ordering(), s0.scores(), s4.scores());
                        }
                        if rank_sorted(s0.ordering(), s0.scores(), s0.timestamps()) {
                            assert forall|i: int| 0 <= i < s0.ordering().len() implies score_or_zero(
                                s0.scores(),
                                #[trigger] s0.ordering()[i],
                            ) == score_or_zero(s4.scores(), s0.ordering()[i]) by {
                                assert(s0.ordering().contains(s0.ordering()[i]));
                            }
                            lemma_rank_sorted_frame(s0.ordering(), s0.scores(), s4.scores(), s0.timestamps());
                        }
                        assert(tip_outcome(s0, *self, new_block_hash, ps));
                    },
                    None => {
                        assert(self.ordering() == s0.ordering());
                        if ps.len() == 0 {
                            assert(self.scores() =~= s0.scores().insert(new_block_hash, 1u64));
                            assert(self.blue() =~= s0.blue().insert(new_block_hash));
                            assert(self.red() =~= s0.red().remove(new_block_hash));
                        } else {
                            assert(self.red() =~= s0.red().insert(new_block_hash));
                            assert(self.scores() =~= s0.scores().remove(new_block_hash));
                            assert(self.blue() =~= s0.blue());
                        }
                        assert(tip_outcome(s0, *self, new_block_hash, ps));
                    },
                }
            }
            if !stale_for(s0.store(), s0.blue(), new_block_hash) {
                let store = s0.store();
                let a = affected.seq();
                let vs = topo@;
                affected.lemma_seq();
                assert(affected@ =~= descendants(store, new_block_hash));
                assert(a.to_set() == descendants(store, new_block_hash));
                assert forall|x: Hash32| #[trigger] vs.contains(x) implies a.contains(x) by {
                    assert(affected@.contains(x));
                }
                assert forall|x: Hash32|
                    a.contains(x) && store.blocks().contains_key(x) && count_in(
                        parents_of(store, x),
                        a.to_set(),
                    ) == 0 implies #[trigger] vs.contains(x) by {
                    assert(affected@.contains(x));
                }
                assert(s1 == s0);
                assert((s2.blue(), s2.red(), s2.scores()) == cleared((s0.blue(), s0.red(), s0.scores()), a.to_set()));
                assert(removed@.subset_of(affected@));
                assert forall|x: Hash32| #[trigger] added@.contains(x) implies self.blue().contains(x) by {
                    assert(!added2.contains(x));
                }
                assert forall|x: Hash32|
                    s0.ordering().contains(x) && !descends(store, new_block_hash, x) implies #[trigger] self.ordering().contains(x) by {
                    assert(!affected@.contains(x));
                }
                assert((self.blue(), self.red(), self.scores()) == incremental_coloring(
                    store,
                    (s0.blue(), s0.red(), s0.scores()),
                    new_block_hash,
                    a,
                    vs,
                ));
                assert forall|x: Hash32| !descends(s0.store(), new_block_hash, x) implies #[trigger] same_color_at(
                    s0,
                    *self,
                    x,
                ) by {
                    assert(!affected@.contains(x));
                    assert(x != new_block_hash) by {
                        assert(reaches(s0.store(), new_block_hash, new_block_hash, 0));
                    }
                    assert(!topo@.contains(x));
                    assert(same_color_at(s1, s2, x));
                    assert(same_color_at(s2, s3, x));
                    assert(same_color_at(s3, s4, x));
                }
            }
        }
        Ok(())
    }
}

/// Pruning at `current_height` (see `prune_old_blocks`) turns `before`
/// into `after`: above height 100, the stored red blocks more than 100
/// blocks below `current_height` leave the store and are finalized; the
/// consensus state and the store's settings stay as they were.
pub open spec fn old_blocks_pruned(before: GhostDAG, after: GhostDAG, current_height: u64) -> bool {
    &&& current_height <= 100 ==> after.store() == before.store()
    &&& current_height > 100 ==> ({
        let p = before.store().red_prunable((current_height - 100) as u64);
        &&& after.store().blocks() == before.store().blocks().remove_keys(p)
        &&& after.store().order() == before.store().order().filter(|h: Hash32| !p.contains(h))
        &&& after.store().children() == before.store().children().remove_keys(p)
        &&& after.store().blue() == before.store().blue()
        &&& after.store().scores() == before.store().scores().remove_keys(p)
        &&& after.store().finalized() == before.store().finalized() + p
    })
    &&& after.store().cache_size() == before.store().cache_size()
    &&& after.store().checkpoint_confirmations() == before.store().checkpoint_confirmations()
    &&& after.store().counter() == before.store().counter()
    &&& after.k_spec() == before.k_spec()
    &&& after.genesis() == before.genesis()
    &&& after.blue() == before.blue()
    &&& after.red() == before.red()
    &&& after.scores() == before.scores()
    &&& after.timestamps() == before.timestamps()
    &&& after.ordering() == before.ordering()
    &&& after.stale_rebuilt() == before.stale_rebuilt()
}

/// The children lists `c` after `h` is listed below each parent of `ps`,
/// in order: appended to the parent's list unless already there.
pub open spec fn link_children(c: Map<Hash32, Seq<Hash32>>, ps: Seq<Hash32>, h: Hash32) -> Map<Hash32, Seq<Hash32>>
    decreases ps.len(),
{
    if ps.len() == 0 {
        c
    } else {
        let c1 = link_children(c, ps.drop_last(), h);
        let p = ps.last();
        let cur = if c1.contains_key(p) {
            c1[p]
        } else {
            Seq::<Hash32>::empty()
        };
        if cur.contains(h) {
            c1
        } else {
            c1.insert(p, cur.push(h))
        }
    }
}

/// The blocks the store evicts from its cache when `h` is added.
pub open spec fn evicted_on_add(s: HybridDagStorage, h: Hash32) -> Set<Hash32> {
    let order1 = storage::order_after_insert(s.order(), s.blocks().contains_key(h), h);
    order1.take(storage::excess(order1.len(), s.cache_size() as nat) as int).to_set()
}

/// The children lists after adding `block` to the store of `before`: the
/// lists of evicted blocks dropped, the block listed below each of its
/// parents, and its own list emptied.
pub open spec fn children_after_add(before: GhostDAG, block: Block) -> Map<Hash32, Seq<Hash32>> {
    link_children(
        before.store().children().remove_keys(evicted_on_add(before.store(), block.hash)),
        block.header.parent_hashes@,
        block.hash,
    ).insert(block.hash, Seq::<Hash32>::empty())
}

/// What adding `block` to the consensus state `before` gives (`after`):
/// the genesis is set by the first block without parents; the checkpoint
/// counter advances and, when a checkpoint falls due, the store holds the
/// checkpoint of the new state; a new tip is stored and colored from its
/// parents (see `tip_outcome`); a first block is the blue genesis with
/// score 1.
pub open spec fn dag_added(before: GhostDAG, after: GhostDAG, block: Block) -> bool {
    &&& after.k_spec() == before.k_spec()
    &&& after.store().cache_size() == before.store().cache_size()
    &&& after.store().checkpoint_confirmations() == before.store().checkpoint_confirmations()
    &&& forall|k: Hash32|
        #[trigger] after.store().children().contains_key(k) ==> children_after_add(before, block).contains_key(k)
            && after.store().children()[k] == children_after_add(before, block)[k]
    &&& forall|k: Hash32|
        #[trigger] children_after_add(before, block).contains_key(k) && !after.store().children().contains_key(k)
            ==> after.store().finalized().contains(k)
    &&& after.genesis() == (if before.genesis() is None && block.header.parent_hashes@.len() == 0 {
        Some(block.hash)
    } else {
        before.genesis()
    })
    &&& after.store().counter() == counter_after(
        before.store().counter(),
        before.store().checkpoint_confirmations(),
    )
    &&& checkpoint_due(before.store().counter(), before.store().checkpoint_confirmations()) ==> (
    after.store().disk() matches Some(d2) ==> exists|d1: Map<Seq<u8>, Seq<u8>>|
        d2 == saved_checkpoint(d1, after.genesis(), after.blue(), after.scores(), after.ordering()))
    &&& adds_tip(before, block) ==> tip_added(before, after, block)
    &&& adds_new_tip(before, block) && before.store().checkpoint_confirmations() == 0 ==> tip_added(
        before,
        after,
        block,
    )
    &&& adds_new_tip(before, block) && before.store().checkpoint_confirmations() > 0 ==> exists|
        mid: GhostDAG,
    |
        #![trigger tip_added(before, mid, block)]
        tip_added(before, mid, block) && pruned_to(mid, after, 2 * before.store().checkpoint_confirmations())
    &&& adds_genesis(before, block) ==> {
        &&& after.store().blocks().dom() == Set::<Hash32>::empty().insert(block.hash)
        &&& same_block(after.store().blocks()[block.hash], block)
        &&& after.blue() == Set::<Hash32>::empty().insert(block.hash)
        &&& after.red() == Set::<Hash32>::empty()
        &&& after.scores() == Map::<Hash32, u64>::empty().insert(block.hash, 1u64)
        &&& after.ordering() == seq![block.hash]
    }
}

/// `after` is `before` with `block` stored as a new tip and colored by the
/// incremental update (see `tip_outcome`), before any pruning.
pub open spec fn tip_added(before: GhostDAG, after: GhostDAG, block: Block) -> bool {
    &&& after.store().blocks().dom() == before.store().blocks().dom().insert(block.hash)
    &&& after.store().blocks() == before.store().blocks().insert(
        block.hash,
        after.store().blocks()[block.hash],
    )
    &&& same_block(after.store().blocks()[block.hash], block)
    &&& children_of(after.store(), block.hash).len() == 0
    &&& after.timestamps() == before.timestamps().insert(block.hash, block.header.timestamp)
    &&& tip_outcome(before, after, block.hash, block.header.parent_hashes@)
}

/// `after` is `mid` pruned below the checkpoint mark `n`: nothing changes
/// while the ordering holds at most `n` hashes; otherwise the hashes past
/// position `n` leave the ordering, the coloring, the scores, the
/// timestamps and the cached blocks.
pub open spec fn pruned_to(mid: GhostDAG, after: GhostDAG, n: int) -> bool {
    if mid.ordering().len() <= n {
        &&& after.ordering() == mid.ordering()
        &&& after.blue() == mid.blue()
        &&& after.red() == mid.red()
        &&& after.scores() == mid.scores()
        &&& after.timestamps() == mid.timestamps()
        &&& after.store().blocks() == mid.store().blocks()
    } else {
        let p = mid.ordering().skip(n).to_set();
        &&& after.ordering() == mid.ordering().take(n)
        &&& after.blue() == mid.blue() - p
        &&& after.red() == mid.red() - p
        &&& after.scores() == mid.scores().remove_keys(p)
        &&& after.timestamps() == mid.timestamps().remove_keys(p)
        &&& after.store().blocks() == mid.store().blocks().remove_keys(p)
    }
}

/// Adding `block` extends the DAG by one new tip: the block is new, fits in
/// the cache, is not its own parent, the genesis is known and stored, some
/// block is already colored, and the state is not stale for the block's
/// parents.
pub open spec fn adds_new_tip(d: GhostDAG, block: Block) -> bool {
    let h = block.hash;
    let ps = block.header.parent_hashes@;
    &&& d.blue().len() > 0
    &&& !d.store().blocks().contains_key(h)
    &&& d.store().blocks().len() < d.store().cache_size()
    &&& !d.blue().contains(h)
    &&& !d.ordering().contains(h)
    &&& !ps.contains(h)
    &&& d.genesis() is Some
    &&& d.store().blocks().contains_key(d.genesis()->0)
    &&& !(ps.len() > 0 && some_stored(d.store(), ps) && !some_blue(d.blue(), ps))
}

/// A new tip (see `adds_new_tip`) for which the ordering has room below the
/// checkpoint mark, so nothing is pruned.
pub open spec fn adds_tip(d: GhostDAG, block: Block) -> bool {
    &&& adds_new_tip(d, block)
    &&& d.ordering().len() + 1 <= 2 * d.store().checkpoint_confirmations()
}

/// Adding `block` to an empty DAG: it has no parents and nothing is stored.
pub open spec fn adds_genesis(d: GhostDAG, block: Block) -> bool {
    &&& block.header.parent_hashes@.len() == 0
    &&& d.blue().len() == 0
    &&& d.genesis() is None
    &&& d.store().blocks() == Map::<Hash32, Block>::empty()
    &&& d.store().children() == Map::<Hash32, Seq<Hash32>>::empty()
    &&& d.store().cache_size() > 0
}

/// A store whose checkpoint, when its metadata is present, gives a score
/// to every blue block. A store written by `save_checkpoint` from a
/// GhostDAG is such a store (see the laws).
pub open spec fn checkpoint_consistent(d: Map<Seq<u8>, Seq<u8>>) -> bool {
    d.contains_key(meta_key()) && d[meta_key()].len() >= 40 ==> forall|h: Hash32|
        #[trigger] stored_blue(d).contains(h) ==> stored_scores(d).contains_key(h)
}

/// Whether every hash of `b` has a score in `sc`.
fn all_scored(b: &KeySet<Hash32>, sc: &KeyMap<Hash32, u64>) -> (r: bool)
    requires
        b.wf(),
        sc.wf(),
    ensures
        r == forall|h: Hash32| #[trigger] b@.contains(h) ==> sc@.contains_key(h),
{
    proof {
        b.lemma_seq();
    }
    let mut i: usize = 0;
    while i < b.len()
        invariant
            b.wf(),
            sc.wf(),
            i <= b.seq().len(),
            forall|h: Hash32| b@.contains(h) <==> b.seq().contains(h),
            forall|j: int| 0 <= j < i ==> sc@.contains_key(#[trigger] b.seq()[j]),
        decreases b.seq().len() - i,
    {
        let h = b.at(i);
        if !sc.contains_key(&h) {
            return false;
        }
        i = i + 1;
    }
    proof {
        assert forall|h: Hash32| #[trigger] b@.contains(h) implies sc@.contains_key(h) by {
            let j = choose|j: int| 0 <= j < b.seq().len() && b.seq()[j] == h;
        }
    }
    true
}

/// The store holds a checkpoint: valid metadata, and a blue set or an
/// ordering that is not empty.
pub open spec fn checkpoint_present(d: Map<Seq<u8>, Seq<u8>>) -> bool {
    &&& d.contains_key(meta_key())
    &&& d[meta_key()].len() >= 40
    &&& !(stored_blue(d).is_empty() && stored_order(d).dom().is_empty())
}

/// `g` was just opened over the store `d`: empty cache and tables, the
/// default configuration, and the consensus state of the checkpoint in
/// `d` (or an empty one when there is none).
pub open spec fn opened_from(g: GhostDAG, d: Map<Seq<u8>, Seq<u8>>) -> bool {
    &&& g.red() == Set::<Hash32>::empty()
    &&& g.timestamps() == Map::<Hash32, u64>::empty()
    &&& !g.stale_rebuilt()
    &&& g.store().blocks() == Map::<Hash32, Block>::empty()
    &&& g.store().children() == Map::<Hash32, Seq<Hash32>>::empty()
    &&& g.store().finalized() == Set::<Hash32>::empty()
    &&& g.store().cache_size() == 1000
    &&& g.store().checkpoint_confirmations() == 100
    &&& g.store().counter() == 0
    &&& g.store().disk() == Some(d)
    &&& if checkpoint_present(d) {
        &&& g.blue() == stored_blue(d)
        &&& g.scores() == stored_scores(d)
        &&& in_position_order(g.ordering(), stored_order(d))
        &&& genesis_matches(g.genesis(), d[meta_key()])
    } else {
        &&& g.genesis() is None
        &&& g.blue() == Set::<Hash32>::empty()
        &&& g.scores() == Map::<Hash32, u64>::empty()
        &&& g.ordering() == Seq::<Hash32>::empty()
    }
}

/// One more block brings the checkpoint counter to its interval: a
/// checkpoint of the consensus state is saved.
pub open spec fn checkpoint_due(counter: usize, interval: usize) -> bool {
    interval > 0 && counter + 1 >= interval
}

/// The checkpoint counter after one more block: counted when checkpoints
/// are enabled, and reset when it reaches the interval.
pub open spec fn counter_after(counter: usize, interval: usize) -> usize {
    if interval == 0 {
        counter
    } else if counter + 1 >= interval {
        0
    } else {
        (counter + 1) as usize
    }
}

impl GhostDAG {
    /// Drops the ordering entries beyond twice `confirmations` (the oldest
    /// ones) from the consensus state and from storage, once the ordering
    /// exceeds that mark.
    fn prune_below_checkpoint(&mut self, confirmations: usize) -> (r: Result<(), BlockchainError>)
        requires
            old(self).wf(),
            confirmations <= usize::MAX / 2,
        ensures
            r is Ok,
            final(self).wf(),
            final(self).genesis() == old(self).genesis(),
            final(self).k_spec() == old(self).k_spec(),
            final(self).stale_rebuilt() == old(self).stale_rebuilt(),
            final(self).store().cache_size() == old(self).store().cache_size(),
            final(self).store().checkpoint_confirmations() == old(self).store().checkpoint_confirmations(),
            final(self).store().counter() == old(self).store().counter(),
            old(self).ordering().len() <= 2 * confirmations ==> *final(self) == *old(self),
            old(self).ordering().len() > 2 * confirmations ==> ({
                let pruned = old(self).ordering().skip(2 * confirmations);
                let p = pruned.to_set();
                &&& final(self).ordering() == old(self).ordering().take(2 * confirmations)
                &&& final(self).blue() == old(self).blue() - p
                &&& final(self).red() == old(self).red() - p
                &&& final(self).scores() == old(self).scores().remove_keys(p)
                &&& final(self).timestamps() == old(self).timestamps().remove_keys(p)
                &&& final(self).store().blocks() == old(self).store().blocks().remove_keys(p)
                &&& final(self).store().children() == old(self).store().children().remove_keys(p)
                &&& final(self).store().finalized() == old(self).store().finalized() + p
            }),
    {
        let buffer = confirmations;
        let high_water_mark = confirmations + buffer;
        if self.ordering.len() <= high_water_mark {
            return Ok(());
        }
        let ghost o = self.ordering@;
        let mut to_prune: Vec<Hash32> = Vec::new();
        let mut k: usize = high_water_mark;
        while k < self.ordering.len()
            invariant
                high_water_mark <= k <= self.ordering@.len(),
                self.ordering@ == o,
                to_prune@ == o.subrange(high_water_mark as int, k as int),
            decreases self.ordering@.len() - k,
        {
            to_prune.push(self.ordering[k]);
            k = k + 1;
            proof {
                assert(to_prune@ =~= o.subrange(high_water_mark as int, k as int));
            }
        }
        proof {
            assert(to_prune@ =~= o.skip(high_water_mark as int));
        }
        let ghost p = to_prune@.to_set();
        let mut i: usize = 0;
        proof {
            assert(to_prune@.take(0).to_set() =~= Set::<Hash32>::empty());
            assert(self.blue() =~= old(self).blue() - Set::empty());
            assert(self.red() =~= old(self).red() - Set::empty());
            assert(self.scores() =~= old(self).scores().remove_keys(Set::empty()));
            assert(self.timestamps() =~= old(self).timestamps().remove_keys(Set::empty()));
        }
        while i < to_prune.len()
            invariant
                i <= to_prune@.len(),
                old(self).wf(),
                self.storage == old(self).storage,
                self.genesis_hash == old(self).genesis_hash,
                self.k == old(self).k,
                self.ordering == old(self).ordering,
                self.checkpoint_stale_rebuilt == old(self).checkpoint_stale_rebuilt,
                self.blue_set.wf(),
                self.red_set.wf(),
                self.blue_score.wf(),
                self.block_timestamps.wf(),
                self.blue() == old(self).blue() - to_prune@.take(i as int).to_set(),
                self.red() == old(self).red() - to_prune@.take(i as int).to_set(),
                self.scores() == old(self).scores().remove_keys(to_prune@.take(i as int).to_set()),
                self.timestamps() == old(self).timestamps().remove_keys(
                    to_prune@.take(i as int).to_set(),
                ),
            decreases to_prune@.len() - i,
        {
            let h = to_prune[i];
            self.blue_set.remove(&h);
            self.blue_score.remove(&h);
            self.red_set.remove(&h);
            self.block_timestamps.remove(&h);
            proof {
                crate::collections::lemma_take_succ(to_prune@, i as int);
            }
            i = i + 1;
            proof {
                let t = to_prune@.take(i as int).to_set();
                assert(self.blue() =~= old(self).blue() - t);
                assert(self.red() =~= old(self).red() - t);
                assert(self.scores() =~= old(self).scores().remove_keys(t));
                assert(self.timestamps() =~= old(self).timestamps().remove_keys(t));
            }
        }
        proof {
            assert(to_prune@.take(to_prune@.len() as int) =~= to_prune@);
        }
        self.ordering.truncate(high_water_mark);
        self.storage.prune_blocks_by_hash(to_prune.as_slice());
        proof {
            assert(self.ordering@ =~= o.take(high_water_mark as int));
            assert forall|h: Hash32| #[trigger] self.blue_set@.contains(h) implies self.blue_score@.contains_key(h) by {
                assert(old(self).blue_set@.contains(h));
            }
        }
        Ok(())
    }

    /// Adds a block: records it in storage (the only holder of block data),
    /// caches its timestamp, links it as a child of each parent, gives it
    /// no children, recolors (fully while nothing is colored, else
    /// incrementally), prunes the ordering beyond the checkpoint mark, and
    /// counts it toward the next checkpoint. The first parentless block
    /// becomes the genesis.
    pub fn add_block(&mut self, block: &Block) -> (r: Result<(), BlockchainError>)
        requires
            old(self).wf(),
        ensures
            r is Ok,
            final(self).wf(),
            dag_added(*old(self), *final(self), *block),
    {
        let hash = block.hash;
        if self.genesis_hash.is_none() && block.header.parent_hashes.len() == 0 {
            self.genesis_hash = Some(hash);
        }
        let ghost s0 = *self;
        match self.storage.add_block(block) {
            Ok(()) => {},
            Err(e) => {
                return Err(e);
            },
        }
        self.block_timestamps.insert(hash, block.header.timestamp);
        let ghost s1 = *self;
        proof {
            if adds_genesis(*old(self), *block) {
                let order1 = old(self).store().order().push(hash);
                old(self).store().lemma_wf();
                assert(old(self).store().blocks().dom() =~= Set::<Hash32>::empty());
                assert(order1.len() == 1);
                assert(order1.take(0).to_set() =~= Set::<Hash32>::empty());
                assert(order1.skip(0) =~= order1);
                assert(s1.store().blocks().contains_key(hash));
            }
            if adds_new_tip(*old(self), *block) {
                let order1 = old(self).store().order().push(hash);
                old(self).store().lemma_wf();
                assert(order1.len() <= old(self).store().cache_size());
                assert(order1.take(0).to_set() =~= Set::<Hash32>::empty());
                assert(order1.skip(0) =~= order1);
            }
        }
        proof {
            assert(block.header.parent_hashes@.take(0) =~= Seq::<Hash32>::empty());
            assert(s1.store().children() == old(self).store().children().remove_keys(
                evicted_on_add(old(self).store(), hash),
            ));
        }
        let mut i: usize = 0;
        while i < block.header.parent_hashes.len()
            invariant
                i <= block.header.parent_hashes@.len(),
                self.storage.wf(),
                self.storage.blocks() == s1.storage.blocks(),
                self.storage.cache_size() == s1.storage.cache_size(),
                self.storage.checkpoint_confirmations() == s1.storage.checkpoint_confirmations(),
                self.storage.counter() == s1.storage.counter(),
                self.genesis_hash == s1.genesis_hash,
                self.blue_set == s1.blue_set,
                self.red_set == s1.red_set,
                self.blue_score == s1.blue_score,
                self.block_timestamps == s1.block_timestamps,
                self.k == s1.k,
                self.ordering == s1.ordering,
                self.checkpoint_stale_rebuilt == s1.checkpoint_stale_rebuilt,
                block.header.parent_hashes@.len() == 0 ==> self.storage.children() == s1.storage.children(),
                self.storage.children() == link_children(
                    s1.storage.children(),
                    block.header.parent_hashes@.take(i as int),
                    hash,
                ),
                self.storage.finalized() == s1.storage.finalized(),
            decreases block.header.parent_hashes@.len() - i,
        {
            proof {
                let t = block.header.parent_hashes@.take(i + 1);
                assert(t.drop_last() =~= block.header.parent_hashes@.take(i as int));
                assert(t.last() == block.header.parent_hashes@[i as int]);
            }
            let parent_hash = block.header.parent_hashes[i];
            let mut existing = match self.storage.get_children(&parent_hash) {
                Ok(c) => c,
                Err(e) => {
                    return Err(e);
                },
            };
            if !storage::hash_in(existing.as_slice(), &hash) {
                existing.push(hash);
                self.storage.set_children(parent_hash, existing);
            }
            i = i + 1;
        }
        proof {
            assert(block.header.parent_hashes@.take(block.header.parent_hashes@.len() as int)
                =~= block.header.parent_hashes@);
        }
        self.storage.set_children(hash, Vec::new());
        let ghost s2 = *self;
        proof {
            assert(s2.store().children() == children_after_add(*old(self), *block));
            assert(s2.store().finalized() == s1.store().finalized());
        }
        proof {
            assert(self.wf());
            if adds_new_tip(*old(self), *block) {
                let ps = block.header.parent_hashes@;
                assert(s2.store().blocks() =~= old(self).store().blocks().insert(hash, s2.store().blocks()[hash]));
                assert(parents_of(s2.store(), hash) == ps);
                assert(children_of(s2.store(), hash) =~= Seq::<Hash32>::empty());
                assert(some_stored(s2.store(), ps) == some_stored(old(self).store(), ps)) by {
                    if some_stored(s2.store(), ps) {
                        let k = choose|k: int| 0 <= k < ps.len() && #[trigger] s2.store().blocks().contains_key(ps[k]);
                        assert(ps[k] != hash);
                        assert(old(self).store().blocks().contains_key(ps[k]));
                    }
                    if some_stored(old(self).store(), ps) {
                        let k = choose|k: int| 0 <= k < ps.len() && #[trigger] old(self).store().blocks().contains_key(ps[k]);
                        assert(s2.store().blocks().contains_key(ps[k]));
                    }
                }
                assert(incremental_tip(s2, hash));
            }
        }
        if self.blue_set.is_empty() {
            match self.update_blue_set() {
                Ok(()) => {},
                Err(e) => {
                    return Err(e);
                },
            }
        } else {
            match self.update_blue_set_incremental(hash) {
                Ok(()) => {},
                Err(e) => {
                    return Err(e);
                },
            }
        }
        let ghost s3 = *self;
        proof {
            if adds_genesis(*old(self), *block) {
                assert(s2.store().children() =~= Map::<Hash32, Seq<Hash32>>::empty().insert(hash, Seq::empty()));
                assert(s2.store().blocks().contains_key(hash));
                assert(same_block(s2.store().blocks()[hash], *block));
                assert(parents_of(s2.store(), hash).len() == 0);
                assert(genesis_ready(s2));
                let vs = choose|vs: Seq<Hash32>|
                    search_order(s2.store(), hash, vs) && (s3.blue(), s3.red(), s3.scores()) == visit_coloring(s2.store(), vs);
                if vs.len() > 1 {
                    assert(found_from_earlier(s2.store(), vs, 1));
                    let j = choose|j: int| 0 <= j < 1 && #[trigger] children_of(s2.store(), vs[j]).contains(vs[1]);
                    assert(children_of(s2.store(), vs[0]) =~= Seq::<Hash32>::empty());
                }
                assert(vs =~= seq![hash]);
                assert(s3.blue() =~= Set::empty().insert(hash));
                assert(s3.ordering().contains(hash));
                assert(s3.ordering() =~= seq![hash]) by {
                    if s3.ordering().len() > 1 {
                        assert(s3.ordering().contains(s3.ordering()[1]));
                        assert(s3.ordering()[0] != s3.ordering()[1]);
                    }
                    if s3.ordering().len() == 0 {
                        assert(!s3.ordering().contains(hash));
                    }
                }
            }
        }
        let ghost s3c = *self;
        let n = self.storage.confirmations_for_checkpoint();
        if n > 0 {
            match self.prune_below_checkpoint(n) {
                Ok(()) => {},
                Err(e) => {
                    return Err(e);
                },
            }
        }
        let checkpoint_interval = self.storage.confirmations_for_checkpoint();
        if checkpoint_interval > 0 {
            let blocks_since = self.storage.increment_checkpoint_counter();
            if blocks_since >= checkpoint_interval {
                let ghost pre = self.storage.disk();
                match self.storage.save_checkpoint(
                    self.genesis_hash,
                    &self.blue_set,
                    &self.blue_score,
                    self.ordering.as_slice(),
                ) {
                    Ok(()) => self.storage.reset_checkpoint_counter(),
                    Err(_) => {},
                }
                proof {
                    match pre {
                        Some(d1) => {
                            assert(self.storage.disk() == Some(saved_checkpoint(
                                d1,
                                self.genesis(),
                                self.blue(),
                                self.scores(),
                                self.ordering(),
                            )));
                        },
                        None => {},
                    }
                }
            }
        }
        proof {
            assert(s3c.store().children() == s2.store().children());
            assert forall|k: Hash32| #[trigger] self.store().children().contains_key(k) implies children_after_add(
                *old(self),
                *block,
            ).contains_key(k) && self.store().children()[k] == children_after_add(*old(self), *block)[k] by {}
            assert forall|k: Hash32|
                #[trigger] children_after_add(*old(self), *block).contains_key(k) && !self.store().children().contains_key(
                    k,
                ) implies self.store().finalized().contains(k) by {}
            assert(self.store().cache_size() == old(self).store().cache_size());
            assert(self.store().checkpoint_confirmations() == old(self).store().checkpoint_confirmations());
            if adds_new_tip(*old(self), *block) {
                assert(s3c.store().blocks() == s2.store().blocks());
                assert(tip_added(*old(self), s3c, *block));
                if n > 0 {
                    assert(pruned_to(s3c, *self, 2 * old(self).store().checkpoint_confirmations()));
                } else {
                    assert(tip_added(*old(self), *self, *block));
                }
            }
            if adds_genesis(*old(self), *block) {
                assert(self.store().blocks() == s2.store().blocks());
                assert(self.store().blocks().dom() =~= Set::<Hash32>::empty().insert(hash));
                assert(same_block(self.store().blocks()[hash], *block));
            }
        }
        Ok(())
    }

    /// Rebuilds the blue set, red set, scores and ordering from scratch.
    pub fn rebuild_from_scratch(&mut self) -> (r: Result<(), BlockchainError>)
        requires
            old(self).wf(),
        ensures
            r is Ok,
            final(self).wf(),
            final(self).store() == old(self).store(),
            final(self).genesis() == old(self).genesis(),
            final(self).k_spec() == old(self).k_spec(),
            !genesis_ready(*old(self)) ==> *final(self) == *old(self),
            genesis_ready(*old(self)) ==> exists|vs: Seq<Hash32>|
                search_order(old(self).store(), old(self).genesis()->0, vs) && (
                final(self).blue(),
                final(self).red(),
                final(self).scores(),
            ) == visit_coloring(old(self).store(), vs),
            genesis_ready(*old(self)) ==> ordering_of(
                final(self).store(),
                final(self).blue(),
                final(self).scores(),
                final(self).ordering(),
            ),
    {
        self.update_blue_set()
    }
}

} // verus!
