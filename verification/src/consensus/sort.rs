//! Ordering of scored blocks: by score, highest first, then by time,
//! earliest first; entries with equal keys keep their input order.
use vstd::prelude::*;

use crate::types::Hash32;

verus! {

/// A block hash with its score and time.
pub type ScoredEntry = (Hash32, u64, u64);

/// `a` may come before `b`: higher score, or equal score and no later time.
pub open spec fn entry_le(a: ScoredEntry, b: ScoredEntry) -> bool {
    a.1 > b.1 || (a.1 == b.1 && a.2 <= b.2)
}

/// `a` must come before `b`.
pub open spec fn entry_lt(a: ScoredEntry, b: ScoredEntry) -> bool {
    a.1 > b.1 || (a.1 == b.1 && a.2 < b.2)
}

/// Every earlier entry may come before every later one.
pub open spec fn sorted_entries(s: Seq<ScoredEntry>) -> bool {
    forall|a: int, b: int| 0 <= a < b < s.len() ==> entry_le(#[trigger] s[a], #[trigger] s[b])
}

pub proof fn lemma_insert_multiset<A>(s: Seq<A>, pos: int, e: A)
    requires
        0 <= pos <= s.len(),
    ensures
        s.insert(pos, e).to_multiset() == s.to_multiset().insert(e),
{
    broadcast use vstd::seq_lib::group_to_multiset_ensures;

    let a = s.take(pos);
    let b = s.skip(pos);
    assert(s =~= a + b);
    assert(s.insert(pos, e) =~= a.push(e) + b);
    vstd::seq_lib::lemma_multiset_commutative(a, b);
    vstd::seq_lib::lemma_multiset_commutative(a.push(e), b);
    assert(s.insert(pos, e).to_multiset() =~= s.to_multiset().insert(e));
}

/// The entries sorted by score (highest first), then time (earliest
/// first); entries with equal keys keep their relative order.
pub fn sort_entries(v: &Vec<ScoredEntry>) -> (r: Vec<ScoredEntry>)
    ensures
        r@.to_multiset() == v@.to_multiset(),
        r@.len() == v@.len(),
        sorted_entries(r@),
{
    broadcast use vstd::seq_lib::group_to_multiset_ensures;

    let mut out: Vec<ScoredEntry> = Vec::new();
    let mut i: usize = 0;
    proof {
        assert(v@.take(0) =~= Seq::<ScoredEntry>::empty());
    }
    while i < v.len()
        invariant
            i <= v@.len(),
            out@.len() == i,
            out@.to_multiset() == v@.take(i as int).to_multiset(),
            sorted_entries(out@),
        decreases v@.len() - i,
    {
        let e = v[i];
        let mut pos: usize = 0;
        while pos < out.len() && !(e.1 > out[pos].1 || (e.1 == out[pos].1 && e.2 < out[pos].2))
            invariant
                pos <= out@.len(),
                forall|k: int| 0 <= k < pos ==> !entry_lt(e, #[trigger] out@[k]),
            decreases out@.len() - pos,
        {
            pos = pos + 1;
        }
        proof {
            let s = out@;
            s.insert_ensures(pos as int, e);
            lemma_insert_multiset(s, pos as int, e);
            assert(v@.take(i + 1) =~= v@.take(i as int).push(e));
            let t = s.insert(pos as int, e);
            assert forall|a: int, b: int| 0 <= a < b < t.len() implies entry_le(
                #[trigger] t[a],
                #[trigger] t[b],
            ) by {
                if b < pos {
                    assert(t[a] == s[a] && t[b] == s[b]);
                } else if b == pos {
                    assert(t[a] == s[a]);
                    assert(!entry_lt(e, s[a]));
                } else if a < pos {
                    assert(t[a] == s[a] && t[b] == s[b - 1]);
                } else if a == pos {
                    assert(t[b] == s[b - 1]);
                    assert(entry_lt(e, s[pos as int]));
                    if b - 1 > pos {
                        assert(entry_le(s[pos as int], s[b - 1]));
                    }
                } else {
                    assert(t[a] == s[a - 1] && t[b] == s[b - 1]);
                }
            }
        }
        let ghost before = out@;
        out.insert(pos, e);
        proof {
            assert(out@ == before.insert(pos as int, e));
            v@.take(i as int).to_multiset_ensures();
            assert(v@.take(i as int).push(e).to_multiset() == v@.take(i as int).to_multiset().insert(e));
            assert(out@.to_multiset() == v@.take(i + 1).to_multiset());
        }
        i = i + 1;
    }
    proof {
        assert(v@.take(v@.len() as int) =~= v@);
    }
    out
}

/// The hashes of the entries, in order.
pub fn entry_hashes(v: &Vec<ScoredEntry>) -> (r: Vec<Hash32>)
    ensures
        r@ == v@.map_values(|e: ScoredEntry| e.0),
{
    let mut out: Vec<Hash32> = Vec::new();
    let mut i: usize = 0;
    while i < v.len()
        invariant
            i <= v@.len(),
            out@ == v@.take(i as int).map_values(|e: ScoredEntry| e.0),
        decreases v@.len() - i,
    {
        out.push(v[i].0);
        i = i + 1;
        proof {
            assert(out@ =~= v@.take(i as int).map_values(|e: ScoredEntry| e.0));
        }
    }
    proof {
        assert(v@.take(v@.len() as int) =~= v@);
    }
    out
}

/// The numbers are in ascending order.
pub open spec fn ascending(s: Seq<u64>) -> bool {
    forall|a: int, b: int| 0 <= a < b < s.len() ==> #[trigger] s[a] <= #[trigger] s[b]
}

/// The numbers sorted in ascending order.
pub fn sort_u64(v: &Vec<u64>) -> (r: Vec<u64>)
    ensures
        r@.to_multiset() == v@.to_multiset(),
        r@.len() == v@.len(),
        ascending(r@),
{
    broadcast use vstd::seq_lib::group_to_multiset_ensures;

    let mut out: Vec<u64> = Vec::new();
    let mut i: usize = 0;
    proof {
        assert(v@.take(0) =~= Seq::<u64>::empty());
    }
    while i < v.len()
        invariant
            i <= v@.len(),
            out@.len() == i,
            out@.to_multiset() == v@.take(i as int).to_multiset(),
            ascending(out@),
        decreases v@.len() - i,
    {
        let e = v[i];
        let mut pos: usize = 0;
        while pos < out.len() && out[pos] <= e
            invariant
                pos <= out@.len(),
                forall|k: int| 0 <= k < pos ==> #[trigger] out@[k] <= e,
            decreases out@.len() - pos,
        {
            pos = pos + 1;
        }
        proof {
            let s = out@;
            s.insert_ensures(pos as int, e);
            lemma_insert_multiset(s, pos as int, e);
            assert(v@.take(i + 1) =~= v@.take(i as int).push(e));
            let t = s.insert(pos as int, e);
            assert forall|a: int, b: int| 0 <= a < b < t.len() implies #[trigger] t[a] <= #[trigger] t[b] by {
                if b < pos {
                    assert(t[a] == s[a] && t[b] == s[b]);
                } else if b == pos {
                    assert(t[a] == s[a]);
                } else if a < pos {
                    assert(t[a] == s[a] && t[b] == s[b - 1]);
                } else if a == pos {
                    assert(t[b] == s[b - 1]);
                    assert(e < s[pos as int]);
                    if b - 1 > pos {
                        assert(s[pos as int] <= s[b - 1]);
                    }
                } else {
                    assert(t[a] == s[a - 1] && t[b] == s[b - 1]);
                }
            }
        }
        let ghost before = out@;
        out.insert(pos, e);
        proof {
            assert(out@ == before.insert(pos as int, e));
            v@.take(i as int).to_multiset_ensures();
            assert(v@.take(i as int).push(e).to_multiset() == v@.take(i as int).to_multiset().insert(e));
            assert(out@.to_multiset() == v@.take(i + 1).to_multiset());
        }
        i = i + 1;
    }
    proof {
        assert(v@.take(v@.len() as int) =~= v@);
    }
    out
}

} // verus!
