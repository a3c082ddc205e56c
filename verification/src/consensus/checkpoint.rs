//! The on-disk layout of the consensus checkpoint: keys are a one-byte table
//! prefix followed by a block hash or a big-endian index; scores are stored
//! little-endian; a metadata entry holds the genesis hash and the length of
//! the ordering.
use vstd::prelude::*;
use vstd::bytes::{
    lemma_auto_spec_u64_to_from_le_bytes, spec_u64_from_le_bytes, spec_u64_to_le_bytes,
    u64_from_le_bytes, u64_to_le_bytes,
};

use crate::types::Hash32;

verus! {

/// Table prefix of blue scores: `[0x10] ++ hash -> score (8 bytes, little-endian)`.
pub const PREFIX_BLUE_SCORE: u8 = 0x10;

/// Table prefix of blue-set membership: `[0x11] ++ hash -> []`.
pub const PREFIX_BLUE_SET: u8 = 0x11;

/// Table prefix of the ordering: `[0x12] ++ index (8 bytes, big-endian) -> hash`.
pub const PREFIX_ORDERING: u8 = 0x12;

/// The key of a block's blue score.
pub open spec fn score_key(h: Hash32) -> Seq<u8> {
    seq![PREFIX_BLUE_SCORE] + h.0@
}

/// The key marking a block as blue.
pub open spec fn blue_key(h: Hash32) -> Seq<u8> {
    seq![PREFIX_BLUE_SET] + h.0@
}

/// The big-endian bytes of `i`.
pub open spec fn be_u64(i: u64) -> Seq<u8> {
    spec_u64_to_le_bytes(i).reverse()
}

/// The number whose big-endian bytes are `b` (8 bytes).
pub open spec fn from_be_u64(b: Seq<u8>) -> u64 {
    spec_u64_from_le_bytes(b.reverse())
}

/// The key of position `i` of the ordering.
pub open spec fn order_key(i: u64) -> Seq<u8> {
    seq![PREFIX_ORDERING] + be_u64(i)
}

/// The key of the checkpoint metadata: the ASCII bytes of `checkpoint_meta`.
pub open spec fn meta_key() -> Seq<u8> {
    seq![99u8, 104, 101, 99, 107, 112, 111, 105, 110, 116, 95, 109, 101, 116, 97]
}

/// 32 zero bytes: the stored genesis when there is none.
pub open spec fn zero_hash_bytes() -> Seq<u8> {
    Seq::new(32, |i: int| 0u8)
}

/// The metadata value: the genesis hash (zeros when there is none), then
/// the length of the ordering, big-endian.
pub open spec fn meta_value(genesis: Option<Hash32>, count: u64) -> Seq<u8> {
    (match genesis {
        Some(g) => g.0@,
        None => zero_hash_bytes(),
    }) + be_u64(count)
}

/// The first byte of `k` is `p`.
pub open spec fn in_table(k: Seq<u8>, p: u8) -> bool {
    k.len() > 0 && k[0] == p
}

/// The blue scores a store holds.
pub open spec fn stored_scores(d: Map<Seq<u8>, Seq<u8>>) -> Map<Hash32, u64> {
    Map::new(
        |h: Hash32| d.contains_key(score_key(h)) && d[score_key(h)].len() == 8,
        |h: Hash32| spec_u64_from_le_bytes(d[score_key(h)]),
    )
}

/// The blue set a store holds.
pub open spec fn stored_blue(d: Map<Seq<u8>, Seq<u8>>) -> Set<Hash32> {
    Set::new(|h: Hash32| d.contains_key(blue_key(h)))
}

/// The ordering entries a store holds: position to hash bytes.
pub open spec fn stored_order(d: Map<Seq<u8>, Seq<u8>>) -> Map<u64, Seq<u8>> {
    Map::new(
        |i: u64| d.contains_key(order_key(i)) && d[order_key(i)].len() == 32,
        |i: u64| d[order_key(i)],
    )
}

/// `v` lists the hashes of `m` by increasing position.
pub open spec fn in_position_order(v: Seq<Hash32>, m: Map<u64, Seq<u8>>) -> bool {
    exists|idx: Seq<u64>|
        {
            &&& idx.len() == v.len()
            &&& forall|p: int, q: int| 0 <= p < q < idx.len() ==> #[trigger] idx[p] < #[trigger] idx[q]
            &&& forall|i: u64| #[trigger] m.contains_key(i) <==> idx.contains(i)
            &&& forall|p: int| 0 <= p < v.len() ==> (#[trigger] v[p]).0@ == m[idx[p]]
        }
}

/// The ordering entries of a list of hashes: position `i` holds hash `i`.
pub open spec fn positions(ord: Seq<Hash32>) -> Map<u64, Seq<u8>> {
    Map::new(|i: u64| i < ord.len(), |i: u64| ord[i as int].0@)
}

/// A key of one of the three tables is not the metadata key.
pub proof fn lemma_meta_key_in_no_table()
    ensures
        !in_table(meta_key(), PREFIX_BLUE_SCORE),
        !in_table(meta_key(), PREFIX_BLUE_SET),
        !in_table(meta_key(), PREFIX_ORDERING),
{
}

/// Keys of the three tables are told apart by their first byte, and each is
/// determined by what follows it.
pub proof fn lemma_keys_distinct()
    ensures
        forall|h: Hash32| #![trigger score_key(h)] in_table(score_key(h), PREFIX_BLUE_SCORE) && score_key(h).len() == 33,
        forall|h: Hash32| #![trigger blue_key(h)] in_table(blue_key(h), PREFIX_BLUE_SET) && blue_key(h).len() == 33,
        forall|i: u64| #![trigger order_key(i)] in_table(order_key(i), PREFIX_ORDERING) && order_key(i).len() == 9,
        forall|g: Hash32, h: Hash32| score_key(g) == score_key(h) ==> g == h,
        forall|g: Hash32, h: Hash32| blue_key(g) == blue_key(h) ==> g == h,
        forall|i: u64, j: u64| order_key(i) == order_key(j) ==> i == j,
{
    lemma_auto_spec_u64_to_from_le_bytes();
    assert forall|h: Hash32| #![trigger score_key(h)] in_table(score_key(h), PREFIX_BLUE_SCORE) && score_key(h).len() == 33 by {
        assert(score_key(h)[0] == PREFIX_BLUE_SCORE);
    }
    assert forall|h: Hash32| #![trigger blue_key(h)] in_table(blue_key(h), PREFIX_BLUE_SET) && blue_key(h).len() == 33 by {
        assert(blue_key(h)[0] == PREFIX_BLUE_SET);
    }
    assert forall|i: u64| #![trigger order_key(i)] in_table(order_key(i), PREFIX_ORDERING) && order_key(i).len() == 9 by {
        assert(spec_u64_to_le_bytes(i).len() == 8);
        assert(order_key(i)[0] == PREFIX_ORDERING);
    }
    assert forall|g: Hash32, h: Hash32| score_key(g) == score_key(h) implies g == h by {
        assert(g.0@ =~= score_key(g).subrange(1, 33));
        assert(h.0@ =~= score_key(h).subrange(1, 33));
        vstd::array::axiom_array_ext_equal(g.0, h.0);
        assert(g.0 =~= h.0);
    }
    assert forall|g: Hash32, h: Hash32| blue_key(g) == blue_key(h) implies g == h by {
        assert(g.0@ =~= blue_key(g).subrange(1, 33));
        assert(h.0@ =~= blue_key(h).subrange(1, 33));
        vstd::array::axiom_array_ext_equal(g.0, h.0);
        assert(g.0 =~= h.0);
    }
    assert forall|i: u64, j: u64| order_key(i) == order_key(j) implies i == j by {
        assert(spec_u64_to_le_bytes(i).len() == 8);
        assert(spec_u64_to_le_bytes(j).len() == 8);
        assert(be_u64(i) =~= order_key(i).subrange(1, 9));
        assert(be_u64(j) =~= order_key(j).subrange(1, 9));
        assert(be_u64(i).reverse() =~= spec_u64_to_le_bytes(i));
        assert(be_u64(j).reverse() =~= spec_u64_to_le_bytes(j));
    }
}

/// A 33-byte key of a hash table is the key of the hash it carries.
pub proof fn lemma_hash_key(k: Seq<u8>, p: u8)
    requires
        k.len() == 33,
        k[0] == p,
    ensures
        seq![p] + k.subrange(1, 33) == k,
{
    assert(seq![p] + k.subrange(1, 33) =~= k);
}

/// A 9-byte key of the ordering table is the key of the position it carries.
pub proof fn lemma_order_key(k: Seq<u8>)
    requires
        k.len() == 9,
        k[0] == PREFIX_ORDERING,
    ensures
        order_key(from_be_u64(k.subrange(1, 9))) == k,
{
    lemma_auto_spec_u64_to_from_le_bytes();
    let b = k.subrange(1, 9);
    assert(b.reverse().len() == 8);
    assert(spec_u64_to_le_bytes(spec_u64_from_le_bytes(b.reverse())) == b.reverse());
    assert(b.reverse().reverse() =~= b);
    assert(order_key(from_be_u64(b)) =~= k);
}

/// `[prefix] ++ body`.
pub fn prefixed(prefix: u8, body: &[u8]) -> (r: Vec<u8>)
    ensures
        r@ == seq![prefix] + body@,
{
    let mut out: Vec<u8> = Vec::new();
    out.push(prefix);
    let mut i: usize = 0;
    while i < body.len()
        invariant
            i <= body@.len(),
            out@ == seq![prefix] + body@.take(i as int),
        decreases body@.len() - i,
    {
        out.push(body[i]);
        i = i + 1;
        proof {
            assert(out@ =~= seq![prefix] + body@.take(i as int));
        }
    }
    proof {
        assert(body@.take(body@.len() as int) =~= body@);
    }
    out
}

/// The big-endian bytes of `i`.
pub fn be_bytes(i: u64) -> (r: Vec<u8>)
    ensures
        r@ == be_u64(i),
        r@.len() == 8,
{
    let le = u64_to_le_bytes(i);
    let mut out: Vec<u8> = Vec::new();
    let mut j: usize = 8;
    while j > 0
        invariant
            j <= 8,
            le@ == spec_u64_to_le_bytes(i),
            le@.len() == 8,
            out@.len() == 8 - j,
            forall|p: int| 0 <= p < out@.len() ==> out@[p] == le@[7 - p],
        decreases j,
    {
        j = j - 1;
        out.push(le[j]);
    }
    proof {
        assert(out@ =~= le@.reverse());
    }
    out
}

/// The number whose big-endian bytes are `b[start..start + 8]`.
pub fn read_be(b: &[u8], start: usize) -> (r: u64)
    requires
        start + 8 <= b@.len(),
    ensures
        r == from_be_u64(b@.subrange(start as int, start + 8)),
{
    let n = b.len();
    let mut le: Vec<u8> = Vec::new();
    let mut j: usize = 8;
    while j > 0
        invariant
            j <= 8,
            n == b@.len(),
            start + 8 <= n,
            le@.len() == 8 - j,
            forall|p: int| 0 <= p < le@.len() ==> le@[p] == b@[start + 7 - p],
        decreases j,
    {
        j = j - 1;
        le.push(b[start + j]);
    }
    proof {
        assert(le@ =~= b@.subrange(start as int, start + 8).reverse());
    }
    u64_from_le_bytes(le.as_slice())
}

/// The hash made of `b[start..start + 32]`.
pub fn hash_at(b: &[u8], start: usize) -> (h: Hash32)
    requires
        start + 32 <= b@.len(),
    ensures
        h.0@ == b@.subrange(start as int, start + 32),
{
    let n = b.len();
    let mut out = [0u8; 32];
    let mut i: usize = 0;
    while i < 32
        invariant
            i <= 32,
            n == b@.len(),
            start + 32 <= n,
            out@.len() == 32,
            forall|j: int| 0 <= j < i ==> out@[j] == b@[start + j],
        decreases 32 - i,
    {
        out[i] = b[start + i];
        i = i + 1;
    }
    proof {
        assert(out@ =~= b@.subrange(start as int, start + 32));
    }
    Hash32(out)
}

/// The metadata key.
pub fn meta_key_bytes() -> (r: Vec<u8>)
    ensures
        r@ == meta_key(),
{
    let r = vec![99u8, 104, 101, 99, 107, 112, 111, 105, 110, 116, 95, 109, 101, 116, 97];
    proof {
        assert(r@ =~= meta_key());
    }
    r
}

/// The score bytes of `score`.
pub fn score_bytes(score: u64) -> (r: Vec<u8>)
    ensures
        r@ == spec_u64_to_le_bytes(score),
        r@.len() == 8,
{
    u64_to_le_bytes(score)
}

/// The score stored as `b` (8 bytes).
pub fn read_score(b: &[u8]) -> (r: u64)
    requires
        b@.len() == 8,
    ensures
        r == spec_u64_from_le_bytes(b@),
{
    u64_from_le_bytes(b)
}

/// A key begins with the one byte `b` exactly when it is in table `b`.
pub proof fn lemma_prefix_one(k: Seq<u8>, b: u8)
    ensures
        crate::database::has_prefix(k, seq![b]) == in_table(k, b),
{
    if k.len() > 0 {
        if k[0] == b {
            assert(k.take(1) =~= seq![b]);
        } else {
            assert(k.take(1)[0] != seq![b][0]);
        }
    }
}

/// The store with its blue table replaced by the blocks of `s`.
pub open spec fn replace_blue(d: Map<Seq<u8>, Seq<u8>>, s: Set<Hash32>) -> Map<Seq<u8>, Seq<u8>> {
    Map::new(
        |k: Seq<u8>|
            (d.contains_key(k) && !in_table(k, PREFIX_BLUE_SET)) || exists|h: Hash32|
                #[trigger] s.contains(h) && k == blue_key(h),
        |k: Seq<u8>|
            if in_table(k, PREFIX_BLUE_SET) {
                Seq::<u8>::empty()
            } else {
                d[k]
            },
    )
}

/// The store with the score of each block of `m` written.
pub open spec fn add_scores(d: Map<Seq<u8>, Seq<u8>>, m: Map<Hash32, u64>) -> Map<Seq<u8>, Seq<u8>> {
    Map::new(
        |k: Seq<u8>| d.contains_key(k) || exists|h: Hash32| #[trigger] m.contains_key(h) && k == score_key(h),
        |k: Seq<u8>|
            if exists|h: Hash32| #[trigger] m.contains_key(h) && k == score_key(h) {
                spec_u64_to_le_bytes(m[choose|h: Hash32| #[trigger] m.contains_key(h) && k == score_key(h)])
            } else {
                d[k]
            },
    )
}

/// The store with its ordering table replaced by `ord`.
pub open spec fn replace_order(d: Map<Seq<u8>, Seq<u8>>, ord: Seq<Hash32>) -> Map<Seq<u8>, Seq<u8>> {
    Map::new(
        |k: Seq<u8>|
            (d.contains_key(k) && !in_table(k, PREFIX_ORDERING)) || exists|i: u64|
                i < ord.len() && #[trigger] order_key(i) == k,
        |k: Seq<u8>|
            if in_table(k, PREFIX_ORDERING) {
                ord[from_be_u64(k.subrange(1, 9)) as int].0@
            } else {
                d[k]
            },
    )
}

/// The store after a checkpoint of `genesis`, `blue`, `scores` and `ord`
/// is saved to `d`.
pub open spec fn saved_checkpoint(
    d: Map<Seq<u8>, Seq<u8>>,
    genesis: Option<Hash32>,
    blue: Set<Hash32>,
    scores: Map<Hash32, u64>,
    ord: Seq<Hash32>,
) -> Map<Seq<u8>, Seq<u8>> {
    replace_order(
        add_scores(replace_blue(d.insert(meta_key(), meta_value(genesis, ord.len() as u64)), blue), scores),
        ord,
    )
}

/// The position carried by the key of position `i` is `i`.
pub proof fn lemma_order_key_index(i: u64)
    ensures
        order_key(i).subrange(1, 9) == be_u64(i),
        from_be_u64(order_key(i).subrange(1, 9)) == i,
{
    lemma_auto_spec_u64_to_from_le_bytes();
    assert(spec_u64_to_le_bytes(i).len() == 8);
    assert(order_key(i).subrange(1, 9) =~= be_u64(i));
    assert(be_u64(i).reverse() =~= spec_u64_to_le_bytes(i));
}

/// Position entries sorted by position, strictly increasing.
pub open spec fn by_position(s: Seq<(u64, Hash32)>) -> bool {
    forall|p: int, q: int| 0 <= p < q < s.len() ==> (#[trigger] s[p]).0 < (#[trigger] s[q]).0
}

/// The entries of `v` sorted by position (positions in `v` are distinct).
pub fn sort_by_position(v: &Vec<(u64, Hash32)>) -> (r: Vec<(u64, Hash32)>)
    requires
        forall|p: int, q: int| 0 <= p < q < v@.len() ==> (#[trigger] v@[p]).0 != (#[trigger] v@[q]).0,
    ensures
        r@.len() == v@.len(),
        by_position(r@),
        forall|x: (u64, Hash32)| #[trigger] r@.contains(x) <==> v@.contains(x),
{
    let mut out: Vec<(u64, Hash32)> = Vec::new();
    let mut i: usize = 0;
    while i < v.len()
        invariant
            i <= v@.len(),
            out@.len() == i,
            by_position(out@),
            forall|p: int, q: int| 0 <= p < q < v@.len() ==> (#[trigger] v@[p]).0 != (#[trigger] v@[q]).0,
            forall|x: (u64, Hash32)| #[trigger] out@.contains(x) <==> v@.take(i as int).contains(x),
        decreases v@.len() - i,
    {
        let e = v[i];
        let mut pos: usize = 0;
        while pos < out.len() && out[pos].0 < e.0
            invariant
                pos <= out@.len(),
                forall|p: int| 0 <= p < pos ==> (#[trigger] out@[p]).0 < e.0,
            decreases out@.len() - pos,
        {
            pos = pos + 1;
        }
        proof {
            crate::collections::lemma_take_succ(v@, i as int);
            if pos < out@.len() {
                assert(out@[pos as int].0 != e.0) by {
                    assert(out@.contains(out@[pos as int]));
                    assert(v@.take(i as int).contains(out@[pos as int]));
                    let j = choose|j: int| 0 <= j < i && v@.take(i as int)[j] == out@[pos as int];
                    assert(v@[j] == out@[pos as int]);
                }
            }
        }
        let ghost before = out@;
        out.insert(pos, e);
        proof {
            assert(out@ == before.insert(pos as int, e));
            assert(by_position(out@)) by {
                assert forall|p: int, q: int| 0 <= p < q < out@.len() implies (#[trigger] out@[p]).0 < (#[trigger] out@[q]).0 by {
                    if q < pos {
                        assert(out@[p] == before[p] && out@[q] == before[q]);
                    } else if q == pos {
                        assert(out@[p] == before[p]);
                    } else if p < pos {
                        assert(out@[p] == before[p] && out@[q] == before[q - 1]);
                        assert(before[pos as int].0 > e.0);
                        assert(before[p].0 < before[pos as int].0 || p == pos);
                    } else if p == pos {
                        assert(out@[q] == before[q - 1]);
                        if q - 1 > pos {
                            assert(before[pos as int].0 < before[q - 1].0);
                        }
                    } else {
                        assert(out@[p] == before[p - 1] && out@[q] == before[q - 1]);
                    }
                }
            }
            assert forall|x: (u64, Hash32)| #[trigger] out@.contains(x) <==> v@.take(i + 1).contains(x) by {
                if out@.contains(x) {
                    let j = choose|j: int| 0 <= j < out@.len() && out@[j] == x;
                    if j < pos {
                        assert(before[j] == x);
                        assert(before.contains(x));
                    } else if j > pos {
                        assert(before[j - 1] == x);
                        assert(before.contains(x));
                    }
                }
                if before.contains(x) {
                    let j = choose|j: int| 0 <= j < before.len() && before[j] == x;
                    if j < pos {
                        assert(out@[j] == x);
                    } else {
                        assert(out@[j + 1] == x);
                    }
                }
                if x == e {
                    assert(out@[pos as int] == x);
                }
            }
        }
        i = i + 1;
    }
    proof {
        assert(v@.take(v@.len() as int) =~= v@);
    }
    out
}

/// Writing the score of one more block.
pub proof fn lemma_add_scores_insert(d: Map<Seq<u8>, Seq<u8>>, m: Map<Hash32, u64>, h: Hash32, s: u64)
    ensures
        add_scores(d, m).insert(score_key(h), spec_u64_to_le_bytes(s)) == add_scores(d, m.insert(h, s)),
{
    lemma_keys_distinct();
    let m2 = m.insert(h, s);
    assert forall|k: Seq<u8>| #[trigger] add_scores(d, m2).contains_key(k) implies add_scores(d, m2)[k]
        == add_scores(d, m).insert(score_key(h), spec_u64_to_le_bytes(s))[k] by {
        if k == score_key(h) {
            assert(m2.contains_key(h) && k == score_key(h));
            let c = choose|x: Hash32| #[trigger] m2.contains_key(x) && k == score_key(x);
            assert(c == h);
        } else if exists|x: Hash32| #[trigger] m2.contains_key(x) && k == score_key(x) {
            let c = choose|x: Hash32| #[trigger] m2.contains_key(x) && k == score_key(x);
            assert(c != h);
            assert(m.contains_key(c) && k == score_key(c));
            let c2 = choose|x: Hash32| #[trigger] m.contains_key(x) && k == score_key(x);
            assert(c2 == c);
        } else {
            assert(!exists|x: Hash32| #[trigger] m.contains_key(x) && k == score_key(x)) by {
                if exists|x: Hash32| #[trigger] m.contains_key(x) && k == score_key(x) {
                    let c = choose|x: Hash32| #[trigger] m.contains_key(x) && k == score_key(x);
                    assert(m2.contains_key(c));
                }
            }
        }
    }
    assert forall|k: Seq<u8>| #[trigger] add_scores(d, m2).contains_key(k) <==> add_scores(d, m).insert(
        score_key(h),
        spec_u64_to_le_bytes(s),
    ).contains_key(k) by {
        if exists|x: Hash32| #[trigger] m2.contains_key(x) && k == score_key(x) {
            let c = choose|x: Hash32| #[trigger] m2.contains_key(x) && k == score_key(x);
            if c != h {
                assert(m.contains_key(c));
            }
        }
        if exists|x: Hash32| #[trigger] m.contains_key(x) && k == score_key(x) {
            let c = choose|x: Hash32| #[trigger] m.contains_key(x) && k == score_key(x);
            assert(m2.contains_key(c));
        }
    }
    assert(add_scores(d, m2) =~= add_scores(d, m).insert(score_key(h), spec_u64_to_le_bytes(s)));
}

/// Writing the scores of no block leaves the store as it is.
pub proof fn lemma_add_no_scores(d: Map<Seq<u8>, Seq<u8>>)
    ensures
        add_scores(d, Map::empty()) == d,
{
    assert(add_scores(d, Map::empty()) =~= d);
}

/// A list in position order is empty exactly when there are no positions.
pub proof fn lemma_position_order_empty(v: Seq<Hash32>, m: Map<u64, Seq<u8>>)
    requires
        in_position_order(v, m),
    ensures
        (v.len() == 0) == (m.dom() == Set::<u64>::empty()),
{
    let idx = choose|idx: Seq<u64>|
        {
            &&& idx.len() == v.len()
            &&& forall|p: int, q: int| 0 <= p < q < idx.len() ==> #[trigger] idx[p] < #[trigger] idx[q]
            &&& forall|i: u64| #[trigger] m.contains_key(i) <==> idx.contains(i)
            &&& forall|p: int| 0 <= p < v.len() ==> (#[trigger] v[p]).0@ == m[idx[p]]
        };
    if v.len() > 0 {
        assert(idx.contains(idx[0]));
        assert(m.contains_key(idx[0]));
    } else {
        assert(m.dom() =~= Set::<u64>::empty()) by {
            assert forall|i: u64| !m.dom().contains(i) by {
                if m.contains_key(i) {
                    assert(idx.contains(i));
                }
            }
        }
    }
}

/// The stored genesis is `g`: none for the zero hash, else its bytes.
pub open spec fn genesis_matches(g: Option<Hash32>, meta: Seq<u8>) -> bool {
    match g {
        None => meta.take(32) == zero_hash_bytes(),
        Some(h) => meta.take(32) != zero_hash_bytes() && h.0@ == meta.take(32),
    }
}

/// Keys outside a table are not keys of that table.
proof fn lemma_table_keys()
    ensures
        forall|h: Hash32, g: Hash32| score_key(h) != blue_key(g),
        forall|h: Hash32, i: u64| score_key(h) != order_key(i),
        forall|h: Hash32, i: u64| blue_key(h) != order_key(i),
        forall|h: Hash32| #![trigger score_key(h)] score_key(h) != meta_key(),
        forall|h: Hash32| #![trigger blue_key(h)] blue_key(h) != meta_key(),
        forall|i: u64| #![trigger order_key(i)] order_key(i) != meta_key(),
{
    lemma_keys_distinct();
    assert forall|h: Hash32, g: Hash32| score_key(h) != blue_key(g) by {
        assert(score_key(h)[0] != blue_key(g)[0]);
    }
    assert forall|h: Hash32, i: u64| score_key(h) != order_key(i) by {
        assert(score_key(h)[0] != order_key(i)[0]);
    }
    assert forall|h: Hash32, i: u64| blue_key(h) != order_key(i) by {
        assert(blue_key(h)[0] != order_key(i)[0]);
    }
    assert forall|h: Hash32| #![trigger score_key(h)] score_key(h) != meta_key() by {
        assert(score_key(h)[0] != meta_key()[0]);
    }
    assert forall|h: Hash32| #![trigger blue_key(h)] blue_key(h) != meta_key() by {
        assert(blue_key(h)[0] != meta_key()[0]);
    }
    assert forall|i: u64| #![trigger order_key(i)] order_key(i) != meta_key() by {
        assert(order_key(i)[0] != meta_key()[0]);
    }
}

/// Writing the metadata changes none of the tables.
pub proof fn lemma_meta_insert_tables(d: Map<Seq<u8>, Seq<u8>>, v: Seq<u8>)
    ensures
        stored_blue(d.insert(meta_key(), v)) == stored_blue(d),
        stored_scores(d.insert(meta_key(), v)) == stored_scores(d),
        stored_order(d.insert(meta_key(), v)) == stored_order(d),
{
    lemma_table_keys();
    assert(stored_blue(d.insert(meta_key(), v)) =~= stored_blue(d));
    assert(stored_scores(d.insert(meta_key(), v)) =~= stored_scores(d));
    assert(stored_order(d.insert(meta_key(), v)) =~= stored_order(d));
}

/// Replacing the blue table: the blue set is `s`; the other tables and
/// every key outside the blue table are kept.
pub proof fn lemma_replace_blue_tables(d: Map<Seq<u8>, Seq<u8>>, s: Set<Hash32>)
    ensures
        stored_blue(replace_blue(d, s)) == s,
        stored_scores(replace_blue(d, s)) == stored_scores(d),
        stored_order(replace_blue(d, s)) == stored_order(d),
        forall|k: Seq<u8>|
            !in_table(k, PREFIX_BLUE_SET) ==> (#[trigger] replace_blue(d, s).contains_key(k) == d.contains_key(k)
                && (d.contains_key(k) ==> replace_blue(d, s)[k] == d[k])),
{
    lemma_keys_distinct();
    lemma_table_keys();
    let r = replace_blue(d, s);
    assert forall|h: Hash32| #[trigger] stored_blue(r).contains(h) <==> s.contains(h) by {
        if r.contains_key(blue_key(h)) {
            if exists|x: Hash32| #[trigger] s.contains(x) && blue_key(h) == blue_key(x) {
                let x = choose|x: Hash32| #[trigger] s.contains(x) && blue_key(h) == blue_key(x);
                assert(x == h);
            }
        }
    }
    assert(stored_blue(r) =~= s);
    assert forall|h: Hash32| #[trigger] r.contains_key(score_key(h)) == d.contains_key(score_key(h)) by {
        if exists|x: Hash32| #[trigger] s.contains(x) && score_key(h) == blue_key(x) {
            let x = choose|x: Hash32| #[trigger] s.contains(x) && score_key(h) == blue_key(x);
        }
    }
    assert(stored_scores(r) =~= stored_scores(d));
    assert forall|i: u64| #[trigger] r.contains_key(order_key(i)) == d.contains_key(order_key(i)) by {
        if exists|x: Hash32| #[trigger] s.contains(x) && order_key(i) == blue_key(x) {
            let x = choose|x: Hash32| #[trigger] s.contains(x) && order_key(i) == blue_key(x);
        }
    }
    assert(stored_order(r) =~= stored_order(d));
    assert forall|k: Seq<u8>| !in_table(k, PREFIX_BLUE_SET) implies (#[trigger] r.contains_key(k) == d.contains_key(k)
        && (d.contains_key(k) ==> r[k] == d[k])) by {
        if exists|x: Hash32| #[trigger] s.contains(x) && k == blue_key(x) {
            let x = choose|x: Hash32| #[trigger] s.contains(x) && k == blue_key(x);
        }
    }
}

/// Writing scores: the stored scores are updated by `m`; the other tables
/// and every key outside the score table are kept.
pub proof fn lemma_add_scores_tables(d: Map<Seq<u8>, Seq<u8>>, m: Map<Hash32, u64>)
    ensures
        stored_scores(add_scores(d, m)) == stored_scores(d).union_prefer_right(m),
        stored_blue(add_scores(d, m)) == stored_blue(d),
        stored_order(add_scores(d, m)) == stored_order(d),
        forall|k: Seq<u8>|
            !in_table(k, PREFIX_BLUE_SCORE) ==> (#[trigger] add_scores(d, m).contains_key(k) == d.contains_key(k)
                && (d.contains_key(k) ==> add_scores(d, m)[k] == d[k])),
{
    lemma_keys_distinct();
    lemma_table_keys();
    lemma_auto_spec_u64_to_from_le_bytes();
    let r = add_scores(d, m);
    assert forall|h: Hash32| #[trigger] stored_scores(r).contains_key(h) == stored_scores(d).union_prefer_right(m).contains_key(h)
        && (stored_scores(r).contains_key(h) ==> stored_scores(r)[h] == stored_scores(d).union_prefer_right(m)[h]) by {
        let k = score_key(h);
        if m.contains_key(h) {
            assert(m.contains_key(h) && k == score_key(h));
            let c = choose|x: Hash32| #[trigger] m.contains_key(x) && k == score_key(x);
            assert(c == h);
            assert(r[k] == spec_u64_to_le_bytes(m[h]));
        } else if exists|x: Hash32| #[trigger] m.contains_key(x) && k == score_key(x) {
            let c = choose|x: Hash32| #[trigger] m.contains_key(x) && k == score_key(x);
            assert(c == h);
        }
    }
    assert(stored_scores(r) =~= stored_scores(d).union_prefer_right(m));
    assert forall|h: Hash32| #[trigger] r.contains_key(blue_key(h)) == d.contains_key(blue_key(h)) && (d.contains_key(blue_key(h)) ==> r[blue_key(h)] == d[blue_key(h)]) by {
        if exists|x: Hash32| #[trigger] m.contains_key(x) && blue_key(h) == score_key(x) {
            let x = choose|x: Hash32| #[trigger] m.contains_key(x) && blue_key(h) == score_key(x);
        }
    }
    assert(stored_blue(r) =~= stored_blue(d));
    assert forall|i: u64| #[trigger] r.contains_key(order_key(i)) == d.contains_key(order_key(i)) && (d.contains_key(order_key(i)) ==> r[order_key(i)] == d[order_key(i)]) by {
        if exists|x: Hash32| #[trigger] m.contains_key(x) && order_key(i) == score_key(x) {
            let x = choose|x: Hash32| #[trigger] m.contains_key(x) && order_key(i) == score_key(x);
        }
    }
    assert(stored_order(r) =~= stored_order(d));
    assert forall|k: Seq<u8>| !in_table(k, PREFIX_BLUE_SCORE) implies (#[trigger] r.contains_key(k) == d.contains_key(k)
        && (d.contains_key(k) ==> r[k] == d[k])) by {
        if exists|x: Hash32| #[trigger] m.contains_key(x) && k == score_key(x) {
            let x = choose|x: Hash32| #[trigger] m.contains_key(x) && k == score_key(x);
        }
    }
}

/// Replacing the ordering table: the stored positions are those of `ord`;
/// the other tables and every key outside the ordering table are kept.
pub proof fn lemma_replace_order_tables(d: Map<Seq<u8>, Seq<u8>>, ord: Seq<Hash32>)
    ensures
        stored_order(replace_order(d, ord)) == positions(ord),
        stored_blue(replace_order(d, ord)) == stored_blue(d),
        stored_scores(replace_order(d, ord)) == stored_scores(d),
        forall|k: Seq<u8>|
            !in_table(k, PREFIX_ORDERING) ==> (#[trigger] replace_order(d, ord).contains_key(k) == d.contains_key(k)
                && (d.contains_key(k) ==> replace_order(d, ord)[k] == d[k])),
{
    lemma_keys_distinct();
    lemma_table_keys();
    let r = replace_order(d, ord);
    assert forall|i: u64| #[trigger] stored_order(r).contains_key(i) == positions(ord).contains_key(i)
        && (stored_order(r).contains_key(i) ==> stored_order(r)[i] == positions(ord)[i]) by {
        lemma_order_key_index(i);
        if i < ord.len() {
            assert(i < ord.len() && order_key(i) == order_key(i));
            assert(ord[i as int].0@.len() == 32);
        } else if exists|x: u64| x < ord.len() && #[trigger] order_key(x) == order_key(i) {
            let x = choose|x: u64| x < ord.len() && #[trigger] order_key(x) == order_key(i);
            assert(x == i);
        }
    }
    assert(stored_order(r) =~= positions(ord));
    assert forall|h: Hash32| #[trigger] r.contains_key(blue_key(h)) == d.contains_key(blue_key(h)) && (d.contains_key(blue_key(h)) ==> r[blue_key(h)] == d[blue_key(h)]) by {
        if exists|x: u64| x < ord.len() && #[trigger] order_key(x) == blue_key(h) {
            let x = choose|x: u64| x < ord.len() && #[trigger] order_key(x) == blue_key(h);
        }
    }
    assert(stored_blue(r) =~= stored_blue(d));
    assert forall|h: Hash32| #[trigger] r.contains_key(score_key(h)) == d.contains_key(score_key(h)) && (d.contains_key(score_key(h)) ==> r[score_key(h)] == d[score_key(h)]) by {
        if exists|x: u64| x < ord.len() && #[trigger] order_key(x) == score_key(h) {
            let x = choose|x: u64| x < ord.len() && #[trigger] order_key(x) == score_key(h);
        }
    }
    assert(stored_scores(r) =~= stored_scores(d));
    assert forall|k: Seq<u8>| !in_table(k, PREFIX_ORDERING) implies (#[trigger] r.contains_key(k) == d.contains_key(k)
        && (d.contains_key(k) ==> r[k] == d[k])) by {
        if exists|x: u64| x < ord.len() && #[trigger] order_key(x) == k {
            let x = choose|x: u64| x < ord.len() && #[trigger] order_key(x) == k;
        }
    }
}

/// Strictly increasing positions grow at least by their distance.
proof fn lemma_increasing_gap(idx: Seq<u64>, p: int, q: int)
    requires
        forall|a: int, b: int| 0 <= a < b < idx.len() ==> #[trigger] idx[a] < #[trigger] idx[b],
        0 <= p <= q < idx.len(),
    ensures
        idx[q] - idx[p] >= q - p,
    decreases q - p,
{
    if p < q {
        lemma_increasing_gap(idx, p, q - 1);
        assert(idx[q - 1] < idx[q]);
    }
}

/// Strictly increasing positions that are exactly `0..n` are `0, 1, ...`.
proof fn lemma_idx_is_position(idx: Seq<u64>, n: int, p: int)
    requires
        forall|a: int, b: int| 0 <= a < b < idx.len() ==> #[trigger] idx[a] < #[trigger] idx[b],
        forall|i: u64| (i < n) == #[trigger] idx.contains(i),
        0 <= p < idx.len(),
    ensures
        forall|r: int| 0 <= r <= p ==> #[trigger] idx[r] == r,
    decreases p,
{
    if p > 0 {
        lemma_idx_is_position(idx, n, p - 1);
    }
    assert(idx.contains(idx[p]));
    lemma_increasing_gap(idx, 0, p);
    let x = p as u64;
    assert(idx.contains(x));
    let q = choose|q: int| 0 <= q < idx.len() && idx[q] == x;
    if q < p {
        assert(idx[q] == q);
    } else if q > p {
        assert(idx[p] < idx[q]);
    }
}

/// The only list in position order of the positions of `ord` is `ord`.
pub proof fn lemma_positions_order(v: Seq<Hash32>, ord: Seq<Hash32>)
    requires
        ord.len() <= u64::MAX,
        in_position_order(v, positions(ord)),
    ensures
        v == ord,
{
    let m = positions(ord);
    let idx = choose|idx: Seq<u64>|
        {
            &&& idx.len() == v.len()
            &&& forall|p: int, q: int| 0 <= p < q < idx.len() ==> #[trigger] idx[p] < #[trigger] idx[q]
            &&& forall|i: u64| #[trigger] m.contains_key(i) <==> idx.contains(i)
            &&& forall|p: int| 0 <= p < v.len() ==> (#[trigger] v[p]).0@ == m[idx[p]]
        };
    let n = ord.len() as int;
    assert forall|i: u64| (i < n) == #[trigger] idx.contains(i) by {
        assert(m.contains_key(i) == (i < n));
    }
    if idx.len() > 0 {
        lemma_idx_is_position(idx, n, idx.len() - 1);
    }
    if v.len() < n {
        let last = (n - 1) as u64;
        assert(idx.contains(last));
        let q = choose|q: int| 0 <= q < idx.len() && idx[q] == last;
        assert(idx[q] == q);
    }
    if v.len() > n {
        assert(idx[n] == n);
        assert(idx.contains(idx[n]));
    }
    assert forall|p: int| 0 <= p < v.len() implies v[p] == ord[p] by {
        assert(idx[p] == p);
        assert(v[p].0@ == ord[p].0@);
        vstd::array::axiom_array_ext_equal(v[p].0, ord[p].0);
        assert(v[p].0 =~= ord[p].0);
    }
    assert(v =~= ord);
}

} // verus!
