//! Counts behind the DAG statistics and the transaction rate.
use vstd::prelude::*;

use crate::block::Block;
use crate::collections::KeyMap;
use crate::types::Hash32;

use super::GhostDAG;

verus! {

/// The number of transactions over the blocks of `m`.
pub open spec fn map_tx_total(m: Map<Hash32, Block>) -> nat
    decreases m.dom().len(),
{
    if m.dom().finite() && m.dom().len() > 0 {
        let k = m.dom().choose();
        m[k].transactions@.len() + map_tx_total(m.remove(k))
    } else {
        0
    }
}

/// Any block of a finite map can be counted first.
pub proof fn lemma_map_tx_total_remove(m: Map<Hash32, Block>, k: Hash32)
    requires
        m.dom().finite(),
        m.contains_key(k),
    ensures
        map_tx_total(m) == m[k].transactions@.len() + map_tx_total(m.remove(k)),
    decreases m.dom().len(),
{
    let c = m.dom().choose();
    assert(m.dom().len() > 0) by {
        vstd::set::axiom_set_remove_len(m.dom(), k);
    }
    if c != k {
        lemma_map_tx_total_remove(m.remove(c), k);
        lemma_map_tx_total_remove(m.remove(k), c);
        assert(m.remove(c).remove(k) =~= m.remove(k).remove(c));
    } else {
        assert(m.remove(c) =~= m.remove(k));
    }
}

/// The seconds from `t` to `now`, zero when `t` is later.
pub open spec fn age(now: u64, t: u64) -> u64 {
    if now >= t {
        (now - t) as u64
    } else {
        0
    }
}

/// Over the stored blocks of `hs` whose age at `now` is at most `d`: their
/// number of transactions and their earliest and latest timestamps; none
/// when there is no such block.
pub open spec fn activity(hs: Seq<Hash32>, m: Map<Hash32, Block>, now: u64, d: u64) -> Option<(nat, u64, u64)>
    decreases hs.len(),
{
    if hs.len() == 0 {
        None
    } else {
        let prev = activity(hs.drop_last(), m, now, d);
        let h = hs.last();
        if m.contains_key(h) && age(now, m[h].header.timestamp) <= d {
            let n = m[h].transactions@.len();
            let t = m[h].header.timestamp;
            match prev {
                None => Some((n, t, t)),
                Some((c, lo, hi)) => Some(
                    (c + n, if t < lo { t } else { lo }, if t > hi { t } else { hi }),
                ),
            }
        } else {
            prev
        }
    }
}

/// Counting over a longer prefix never lowers the number of transactions.
pub proof fn lemma_activity_grows(hs: Seq<Hash32>, m: Map<Hash32, Block>, now: u64, d: u64, i: int)
    requires
        0 <= i <= hs.len(),
    ensures
        activity(hs.take(i), m, now, d) matches Some((c, _, _)) ==> activity(hs, m, now, d) matches Some(
            (c2, _, _),
        ) && c <= c2,
    decreases hs.len() - i,
{
    if i < hs.len() {
        lemma_activity_grows(hs, m, now, d, i + 1);
        assert(hs.take(i + 1).drop_last() =~= hs.take(i));
    } else {
        assert(hs.take(i) =~= hs);
    }
}

impl GhostDAG {
    /// The statistics that need no machine layout or division: the stored
    /// blocks, the blue blocks, the stored blocks that are not blue (none
    /// when there are more blue blocks than stored ones), and the
    /// transactions of the stored blocks.
    pub fn stat_counts(&self) -> (r: (usize, usize, usize, usize))
        requires
            self.wf(),
            map_tx_total(self.store().blocks()) <= usize::MAX,
        ensures
            r.0 == self.store().blocks().len(),
            r.1 == self.blue().len(),
            r.2 == (if r.0 > r.1 {
                r.0 - r.1
            } else {
                0
            }),
            r.3 == map_tx_total(self.store().blocks()),
    {
        proof {
            self.lemma_wf();
        }
        let hot: &KeyMap<Hash32, Block> = self.storage.get_hot_blocks();
        proof {
            hot.lemma_seqs();
        }
        let total_blocks = hot.len();
        let mut total_txs: usize = 0;
        let ghost mut rest = hot@;
        let mut i: usize = 0;
        while i < total_blocks
            invariant
                hot.wf(),
                hot@ == self.store().blocks(),
                total_blocks == hot.key_seq().len(),
                i <= total_blocks,
                hot.key_seq().no_duplicates(),
                rest.dom().finite(),
                rest.dom().len() == total_blocks - i,
                forall|j: int| i <= j < total_blocks ==> #[trigger] rest.contains_key(hot.key_seq()[j]),
                forall|k: Hash32| #[trigger] rest.contains_key(k) ==> hot@.contains_key(k) && rest[k] == hot@[k],
                total_txs + map_tx_total(rest) == map_tx_total(hot@),
                map_tx_total(hot@) <= usize::MAX,
            decreases total_blocks - i,
        {
            let k = hot.key_at(i);
            let b = hot.value_at(i);
            proof {
                lemma_map_tx_total_remove(rest, k);
                vstd::set::axiom_set_remove_len(rest.dom(), k);
                assert forall|j: int| i + 1 <= j < total_blocks implies #[trigger] rest.remove(k).contains_key(
                    hot.key_seq()[j],
                ) by {
                    assert(hot.key_seq()[j] != hot.key_seq()[i as int]);
                }
                rest = rest.remove(k);
            }
            total_txs = total_txs + b.transactions.len();
            i = i + 1;
        }
        proof {
            assert(rest.dom().len() == 0);
        }
        let blue_blocks = self.blue_set.len();
        let red_blocks = if total_blocks > blue_blocks {
            total_blocks - blue_blocks
        } else {
            0
        };
        (total_blocks, blue_blocks, red_blocks, total_txs)
    }

    /// Over the stored blocks of the ordering no older than
    /// `duration_seconds` at `current_time`: their number of transactions
    /// and the seconds between the earliest and the latest of them; none
    /// when there is no such block.
    pub fn recent_activity(&self, duration_seconds: u64, current_time: u64) -> (r: Option<(usize, u64)>)
        requires
            self.wf(),
            activity(self.ordering(), self.store().blocks(), current_time, duration_seconds) matches Some(
                (c, _, _),
            ) ==> c <= usize::MAX,
        ensures
            match activity(self.ordering(), self.store().blocks(), current_time, duration_seconds) {
                None => r is None,
                Some((c, lo, hi)) => r == Some(((c as usize), (hi - lo) as u64)),
            },
    {
        let mut acc: Option<(usize, u64, u64)> = None;
        let mut i: usize = 0;
        proof {
            assert(self.ordering().take(0) =~= Seq::<Hash32>::empty());
        }
        while i < self.ordering.len()
            invariant
                self.wf(),
                i <= self.ordering@.len(),
                match activity(self.ordering().take(i as int), self.store().blocks(), current_time, duration_seconds) {
                    None => acc is None,
                    Some((c, lo, hi)) => acc == Some(((c as usize), lo, hi)) && lo <= hi,
                },
                activity(self.ordering(), self.store().blocks(), current_time, duration_seconds) matches Some(
                    (c, _, _),
                ) ==> c <= usize::MAX,
            decreases self.ordering@.len() - i,
        {
            let h = self.ordering[i];
            proof {
                assert(self.ordering().take(i + 1).drop_last() =~= self.ordering().take(i as int));
                lemma_activity_grows(self.ordering(), self.store().blocks(), current_time, duration_seconds, i + 1);
            }
            match self.storage.get_block(&h) {
                Ok(Some(b)) => {
                    let t = b.header.timestamp;
                    let a = current_time.saturating_sub(t);
                    if a <= duration_seconds {
                        let n = b.transactions.len();
                        acc = match acc {
                            None => Some((n, t, t)),
                            Some((c, lo, hi)) => Some(
                                (c + n, if t < lo {
                                    t
                                } else {
                                    lo
                                }, if t > hi {
                                    t
                                } else {
                                    hi
                                }),
                            ),
                        };
                    }
                },
                _ => {},
            }
            i = i + 1;
        }
        proof {
            assert(self.ordering().take(self.ordering@.len() as int) =~= self.ordering());
        }
        match acc {
            None => None,
            Some((c, lo, hi)) => Some((c, hi - lo)),
        }
    }
}

} // verus!
