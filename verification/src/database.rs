//! The key-value store that consensus state is persisted through: byte-string
//! keys and values, point reads and writes, and scans by key prefix.
use vstd::prelude::*;

use crate::block::copy_bytes;

verus! {

/// Whether `a` and `b` hold the same bytes.
pub fn bytes_eq(a: &[u8], b: &[u8]) -> (r: bool)
    ensures
        r == (a@ == b@),
{
    if a.len() != b.len() {
        return false;
    }
    let mut i: usize = 0;
    while i < a.len()
        invariant
            i <= a@.len(),
            a@.len() == b@.len(),
            forall|j: int| 0 <= j < i ==> a@[j] == b@[j],
        decreases a@.len() - i,
    {
        if a[i] != b[i] {
            return false;
        }
        i = i + 1;
    }
    proof {
        assert(a@ =~= b@);
    }
    true
}

/// `k` begins with the bytes of `p`.
pub open spec fn has_prefix(k: Seq<u8>, p: Seq<u8>) -> bool {
    p.len() <= k.len() && k.take(p.len() as int) == p
}

/// Whether `k` begins with the bytes of `p`.
pub fn starts_with(k: &[u8], p: &[u8]) -> (r: bool)
    ensures
        r == has_prefix(k@, p@),
{
    if p.len() > k.len() {
        return false;
    }
    let mut i: usize = 0;
    while i < p.len()
        invariant
            i <= p@.len(),
            p@.len() <= k@.len(),
            forall|j: int| 0 <= j < i ==> k@[j] == p@[j],
        decreases p@.len() - i,
    {
        if k[i] != p[i] {
            proof {
                assert(k@.take(p@.len() as int)[i as int] != p@[i as int]);
            }
            return false;
        }
        i = i + 1;
    }
    proof {
        assert(k@.take(p@.len() as int) =~= p@);
    }
    true
}

/// The byte strings of a list of byte vectors.
pub open spec fn views(v: Seq<Vec<u8>>) -> Seq<Seq<u8>> {
    v.map_values(|x: Vec<u8>| x@)
}

/// An in-memory key-value store of byte strings.
pub struct Database {
    keys: Vec<Vec<u8>>,
    vals: Vec<Vec<u8>>,
}

impl Database {
    /// Keys are distinct and each has a value.
    pub closed spec fn wf(&self) -> bool {
        &&& views(self.keys@).no_duplicates()
        &&& self.keys@.len() == self.vals@.len()
    }

    /// The stored entries.
    pub closed spec fn view(&self) -> Map<Seq<u8>, Seq<u8>> {
        Map::new(
            |k: Seq<u8>| views(self.keys@).contains(k),
            |k: Seq<u8>| self.vals@[views(self.keys@).index_of(k)]@,
        )
    }

    proof fn lemma_at(&self, i: int)
        requires
            self.wf(),
            0 <= i < self.keys@.len(),
        ensures
            self@.contains_key(self.keys@[i]@),
            self@[self.keys@[i]@] == self.vals@[i]@,
    {
        let ks = views(self.keys@);
        assert(ks[i] == self.keys@[i]@);
        assert(ks.contains(ks[i]));
        let j = ks.index_of(ks[i]);
        assert(0 <= j < ks.len() && ks[j] == ks[i]);
    }

    /// An empty store.
    pub fn new() -> (d: Self)
        ensures
            d.wf(),
            d@ == Map::<Seq<u8>, Seq<u8>>::empty(),
    {
        let d = Database { keys: Vec::new(), vals: Vec::new() };
        proof {
            assert(views(d.keys@) =~= Seq::<Seq<u8>>::empty());
            assert(d@ =~= Map::<Seq<u8>, Seq<u8>>::empty());
        }
        d
    }

    fn find(&self, key: &[u8]) -> (r: Option<usize>)
        requires
            self.wf(),
        ensures
            match r {
                Some(i) => i < self.keys@.len() && self.keys@[i as int]@ == key@,
                None => !self@.contains_key(key@),
            },
    {
        let mut i: usize = 0;
        while i < self.keys.len()
            invariant
                i <= self.keys@.len(),
                forall|j: int| 0 <= j < i ==> self.keys@[j]@ != key@,
            decreases self.keys@.len() - i,
        {
            if bytes_eq(self.keys[i].as_slice(), key) {
                return Some(i);
            }
            i = i + 1;
        }
        proof {
            if views(self.keys@).contains(key@) {
                let j = choose|j: int| 0 <= j < views(self.keys@).len() && views(self.keys@)[j] == key@;
                assert(self.keys@[j]@ == key@);
            }
        }
        None
    }

    /// The value stored under `key`, if any.
    pub fn get_raw(&self, key: &[u8]) -> (r: Option<Vec<u8>>)
        requires
            self.wf(),
        ensures
            r is Some == self@.contains_key(key@),
            r matches Some(v) ==> v@ == self@[key@],
    {
        match self.find(key) {
            Some(i) => {
                proof {
                    self.lemma_at(i as int);
                }
                Some(copy_bytes(&self.vals[i]))
            },
            None => None,
        }
    }

    /// Stores `value` under `key`, replacing any earlier value.
    pub fn insert_raw(&mut self, key: Vec<u8>, value: Vec<u8>)
        requires
            old(self).wf(),
        ensures
            final(self).wf(),
            final(self)@ == old(self)@.insert(key@, value@),
    {
        match self.find(key.as_slice()) {
            Some(i) => {
                proof {
                    old(self).lemma_at(i as int);
                }
                self.vals.set(i, value);
                proof {
                    assert(views(self.keys@) == views(old(self).keys@));
                    assert forall|k: Seq<u8>| #[trigger] views(self.keys@).contains(k) implies self.vals@[
                        views(self.keys@).index_of(k)]@ == old(self)@.insert(key@, value@)[k] by {
                        let ks = views(self.keys@);
                        let j = ks.index_of(k);
                        assert(0 <= j < ks.len() && ks[j] == k);
                        old(self).lemma_at(j);
                        if k == key@ {
                            assert(ks[i as int] == key@);
                        }
                    }
                    assert(self@ =~= old(self)@.insert(key@, value@));
                }
            },
            None => {
                let ghost kv = key@;
                proof {
                    let ks = views(self.keys@);
                    assert(!ks.contains(kv));
                    assert(views(self.keys@.push(key)) =~= ks.push(kv));
                    assert forall|a: int, b: int|
                        0 <= a < ks.push(kv).len() && 0 <= b < ks.push(kv).len() && a != b implies ks.push(
                        kv,
                    )[a] != ks.push(kv)[b] by {
                        if a < ks.len() && b < ks.len() {
                        } else if a == ks.len() {
                            assert(ks.push(kv)[b] == ks[b]);
                        } else {
                            assert(ks.push(kv)[a] == ks[a]);
                        }
                    }
                }
                self.keys.push(key);
                self.vals.push(value);
                proof {
                    let ks = views(self.keys@);
                    let oks = views(old(self).keys@);
                    assert(ks =~= oks.push(kv));
                    assert forall|k: Seq<u8>| #[trigger] ks.contains(k) <==> (oks.contains(k) || k == kv) by {
                        if oks.contains(k) {
                            let a = choose|a: int| 0 <= a < oks.len() && oks[a] == k;
                            assert(ks[a] == k);
                        }
                        if k == kv {
                            assert(ks[oks.len() as int] == k);
                        }
                        if ks.contains(k) {
                            let a = choose|a: int| 0 <= a < ks.len() && ks[a] == k;
                            if a < oks.len() {
                                assert(oks[a] == k);
                            }
                        }
                    }
                    assert forall|k: Seq<u8>| #[trigger] ks.contains(k) implies self.vals@[ks.index_of(
                        k,
                    )]@ == old(self)@.insert(kv, value@)[k] by {
                        let j = ks.index_of(k);
                        assert(0 <= j < ks.len() && ks[j] == k);
                        if j < oks.len() {
                            assert(self.keys@[j] == old(self).keys@[j]);
                            old(self).lemma_at(j);
                        }
                    }
                    assert(self@ =~= old(self)@.insert(kv, value@));
                }
            },
        }
    }

    /// Removes the entry under `key`, if any.
    pub fn remove_raw(&mut self, key: &[u8])
        requires
            old(self).wf(),
        ensures
            final(self).wf(),
            final(self)@ == old(self)@.remove(key@),
    {
        match self.find(key) {
            Some(i) => {
                let ghost oks = views(self.keys@);
                proof {
                    assert(views(self.keys@.remove(i as int)) =~= oks.remove(i as int));
                    crate::collections::lemma_remove_no_dup(oks, i as int);
                }
                self.keys.remove(i);
                self.vals.remove(i);
                proof {
                    let ks = views(self.keys@);
                    assert(ks =~= oks.remove(i as int));
                    assert forall|k: Seq<u8>| #[trigger] ks.contains(k) implies self.vals@[ks.index_of(
                        k,
                    )]@ == old(self)@[k] by {
                        let j = ks.index_of(k);
                        assert(0 <= j < ks.len() && ks[j] == k);
                        let oj = if j < i { j } else { j + 1 };
                        assert(old(self).keys@[oj]@ == k);
                        old(self).lemma_at(oj);
                    }
                    assert(self@ =~= old(self)@.remove(key@));
                }
            },
            None => {
                proof {
                    assert(self@ =~= old(self)@.remove(key@));
                }
            },
        }
    }

    /// Every entry whose key begins with `prefix`, each once.
    pub fn scan_prefix_collect(&self, prefix: &[u8]) -> (r: Vec<(Vec<u8>, Vec<u8>)>)
        requires
            self.wf(),
        ensures
            forall|i: int|
                0 <= i < r@.len() ==> {
                    &&& has_prefix(#[trigger] r@[i].0@, prefix@)
                    &&& self@.contains_key(r@[i].0@)
                    &&& self@[r@[i].0@] == r@[i].1@
                },
            forall|k: Seq<u8>|
                #[trigger] self@.contains_key(k) && has_prefix(k, prefix@) ==> exists|i: int|
                    0 <= i < r@.len() && r@[i].0@ == k,
            forall|i: int, j: int| 0 <= i < j < r@.len() ==> r@[i].0@ != r@[j].0@,
    {
        let mut out: Vec<(Vec<u8>, Vec<u8>)> = Vec::new();
        let ghost mut src: Seq<int> = Seq::empty();
        let mut i: usize = 0;
        while i < self.keys.len()
            invariant
                self.wf(),
                i <= self.keys@.len(),
                src.len() == out@.len(),
                forall|p: int|
                    0 <= p < out@.len() ==> 0 <= #[trigger] src[p] < i && out@[p].0@ == self.keys@[src[p]]@
                        && out@[p].1@ == self.vals@[src[p]]@ && has_prefix(out@[p].0@, prefix@),
                forall|p: int, q: int| 0 <= p < q < out@.len() ==> src[p] < src[q],
                forall|j: int|
                    0 <= j < i && has_prefix(#[trigger] self.keys@[j]@, prefix@) ==> exists|p: int|
                        0 <= p < out@.len() && src[p] == j,
            decreases self.keys@.len() - i,
        {
            if starts_with(self.keys[i].as_slice(), prefix) {
                let k = copy_bytes(&self.keys[i]);
                let v = copy_bytes(&self.vals[i]);
                out.push((k, v));
                proof {
                    let ghost old_src = src;
                    src = src.push(i as int);
                    assert forall|j: int|
                        0 <= j < i + 1 && has_prefix(#[trigger] self.keys@[j]@, prefix@) implies exists|
                        p: int,
                    | 0 <= p < out@.len() && src[p] == j by {
                        if j == i {
                            assert(src[out@.len() - 1] == j);
                        } else {
                            let p = choose|p: int| 0 <= p < old_src.len() && old_src[p] == j;
                            assert(src[p] == j);
                        }
                    }
                }
            }
            i = i + 1;
        }
        proof {
            let ks = views(self.keys@);
            assert forall|p: int| 0 <= p < out@.len() implies {
                &&& has_prefix(#[trigger] out@[p].0@, prefix@)
                &&& self@.contains_key(out@[p].0@)
                &&& self@[out@[p].0@] == out@[p].1@
            } by {
                self.lemma_at(src[p]);
            }
            assert forall|k: Seq<u8>| #[trigger] self@.contains_key(k) && has_prefix(k, prefix@) implies exists|
                i: int,
            | 0 <= i < out@.len() && out@[i].0@ == k by {
                let j = ks.index_of(k);
                assert(0 <= j < ks.len() && ks[j] == k);
                assert(self.keys@[j]@ == k);
                let p = choose|p: int| 0 <= p < out@.len() && src[p] == j;
                assert(out@[p].0@ == k);
            }
            assert forall|p: int, q: int| 0 <= p < q < out@.len() implies out@[p].0@ != out@[q].0@ by {
                assert(src[p] < src[q]);
                assert(ks[src[p]] == out@[p].0@);
                assert(ks[src[q]] == out@[q].0@);
            }
        }
        out
    }
    /// Removes every entry whose key begins with `prefix`.
    pub fn remove_prefix(&mut self, prefix: &[u8])
        requires
            old(self).wf(),
        ensures
            final(self).wf(),
            final(self)@ == old(self)@.restrict(
                old(self)@.dom().filter(|k: Seq<u8>| !has_prefix(k, prefix@)),
            ),
    {
        let entries = self.scan_prefix_collect(prefix);
        let ghost d = self@;
        let mut i: usize = 0;
        while i < entries.len()
            invariant
                self.wf(),
                d == old(self)@,
                i <= entries@.len(),
                forall|j: int|
                    0 <= j < entries@.len() ==> has_prefix(#[trigger] entries@[j].0@, prefix@)
                        && d.contains_key(entries@[j].0@),
                forall|k: Seq<u8>|
                    #[trigger] d.contains_key(k) && has_prefix(k, prefix@) ==> exists|j: int|
                        0 <= j < entries@.len() && entries@[j].0@ == k,
                self@ == d.restrict(
                    d.dom().filter(
                        |k: Seq<u8>|
                            !(has_prefix(k, prefix@) && exists|j: int|
                                0 <= j < i && entries@[j].0@ == k),
                    ),
                ),
            decreases entries@.len() - i,
        {
            self.remove_raw(entries[i].0.as_slice());
            i = i + 1;
            proof {
                assert(self@ =~= d.restrict(
                    d.dom().filter(
                        |k: Seq<u8>|
                            !(has_prefix(k, prefix@) && exists|j: int|
                                0 <= j < i && entries@[j].0@ == k),
                    ),
                )) by {
                    assert forall|k: Seq<u8>| #[trigger] d.contains_key(k) implies (exists|j: int| 0 <= j < i && entries@[j].0@ == k) <==> ((exists|
                        j: int,
                    | 0 <= j < i - 1 && entries@[j].0@ == k) || k == entries@[i - 1].0@) by {
                        if k == entries@[i - 1].0@ {
                            assert(0 <= i - 1 < i && entries@[i - 1].0@ == k);
                        }
                        if exists|j: int| 0 <= j < i && entries@[j].0@ == k {
                            let j = choose|j: int| 0 <= j < i && entries@[j].0@ == k;
                            if j < i - 1 {
                                assert(0 <= j < i - 1 && entries@[j].0@ == k);
                            }
                        }
                    }
                }
            }
        }
        proof {
            assert(self@ =~= d.restrict(d.dom().filter(|k: Seq<u8>| !has_prefix(k, prefix@)))) by {
                assert forall|k: Seq<u8>| d.contains_key(k) && has_prefix(k, prefix@) implies (exists|
                    j: int,
                | 0 <= j < i && entries@[j].0@ == k) by {
                    assert(d.contains_key(k) && has_prefix(k, prefix@));
                    let j = choose|j: int| 0 <= j < entries@.len() && entries@[j].0@ == k;
                    assert(0 <= j < i && entries@[j].0@ == k);
                }
            }
        }
    }
}

} // verus!
