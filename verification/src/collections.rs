//! Small verified associative containers keyed by byte identifiers.
//!
//! `KeySet` is a duplicate-free list viewed as a `Set`; `KeyMap` is a pair of
//! parallel lists (duplicate-free keys, values) viewed as a `Map`.
use vstd::prelude::*;

use crate::types::{bytes_equal, Address, Hash32};

verus! {

/// Keys that can be compared in executable code with the same meaning as
/// spec equality.
pub trait Key: Copy + Sized {
    fn same(&self, other: &Self) -> (r: bool)
        ensures
            r == (*self == *other),
    ;
}

impl Key for Hash32 {
    fn same(&self, other: &Self) -> (r: bool) {
        bytes_equal(&self.0, &other.0)
    }
}

impl Key for Address {
    fn same(&self, other: &Self) -> (r: bool) {
        bytes_equal(&self.0, &other.0)
    }
}

impl Key for u64 {
    fn same(&self, other: &Self) -> (r: bool) {
        *self == *other
    }
}

/// In a sequence without duplicates, the index of an element is its position.
pub proof fn lemma_index_of_unique<K>(s: Seq<K>, i: int)
    requires
        s.no_duplicates(),
        0 <= i < s.len(),
    ensures
        s.index_of(s[i]) == i,
        s.contains(s[i]),
{
    assert(s.contains(s[i]));
    let j = s.index_of(s[i]);
    assert(0 <= j < s.len() && s[j] == s[i]);
}

/// Removing an element from a sequence without duplicates keeps it without
/// duplicates and removes exactly that element from its set of members.
pub proof fn lemma_remove_no_dup<K>(s: Seq<K>, i: int)
    requires
        s.no_duplicates(),
        0 <= i < s.len(),
    ensures
        s.remove(i).no_duplicates(),
        s.remove(i).to_set() == s.to_set().remove(s[i]),
        forall|k: K| #[trigger] s.remove(i).contains(k) <==> (s.contains(k) && k != s[i]),
{
    let r = s.remove(i);
    s.remove_ensures(i);
    assert forall|a: int, b: int| 0 <= a < r.len() && 0 <= b < r.len() && a != b implies r[a]
        != r[b] by {
        let ia = if a < i { a } else { a + 1 };
        let ib = if b < i { b } else { b + 1 };
        assert(r[a] == s[ia]);
        assert(r[b] == s[ib]);
    }
    assert forall|k: K| #[trigger] r.contains(k) <==> (s.contains(k) && k != s[i]) by {
        if r.contains(k) {
            let a = choose|a: int| 0 <= a < r.len() && r[a] == k;
            let ia = if a < i { a } else { a + 1 };
            assert(r[a] == s[ia]);
        }
        if s.contains(k) && k != s[i] {
            let a = choose|a: int| 0 <= a < s.len() && s[a] == k;
            if a < i {
                assert(r[a] == k);
            } else {
                assert(a != i);
                assert(r[a - 1] == k);
            }
        }
    }
    assert(r.to_set() =~= s.to_set().remove(s[i]));
}

/// Membership in a sequence after a push, and its set of members.
/// Removing the hash at `pos` keeps every other hash and adds none.
pub proof fn lemma_remove_contains<K>(s: Seq<K>, pos: int)
    requires
        0 <= pos < s.len(),
    ensures
        forall|x: K| #[trigger] s.remove(pos).contains(x) ==> s.contains(x),
        forall|x: K| s.contains(x) && x != s[pos] ==> #[trigger] s.remove(pos).contains(x),
{
    s.remove_ensures(pos);
    assert forall|x: K| #[trigger] s.remove(pos).contains(x) implies s.contains(x) by {
        let i = choose|i: int| 0 <= i < s.remove(pos).len() && s.remove(pos)[i] == x;
        if i < pos {
            assert(s[i] == x);
        } else {
            assert(s[i + 1] == x);
        }
    }
    assert forall|x: K| s.contains(x) && x != s[pos] implies #[trigger] s.remove(pos).contains(x) by {
        let i = choose|i: int| 0 <= i < s.len() && s[i] == x;
        if i < pos {
            assert(s.remove(pos)[i] == x);
        } else {
            assert(i != pos);
            assert(s.remove(pos)[i - 1] == x);
        }
    }
}

/// Inserting `y` at `pos` keeps every hash and adds `y`.
pub proof fn lemma_insert_contains<K>(s: Seq<K>, pos: int, y: K)
    requires
        0 <= pos <= s.len(),
    ensures
        forall|x: K| #[trigger] s.insert(pos, y).contains(x) <==> (s.contains(x) || x == y),
{
    s.insert_ensures(pos, y);
    assert forall|x: K| #[trigger] s.insert(pos, y).contains(x) <==> (s.contains(x) || x == y) by {
        if s.insert(pos, y).contains(x) {
            let i = choose|i: int| 0 <= i < s.insert(pos, y).len() && s.insert(pos, y)[i] == x;
            if i < pos {
                assert(s[i] == x);
            } else if i > pos {
                assert(s[i - 1] == x);
            }
        }
        if s.contains(x) {
            let i = choose|i: int| 0 <= i < s.len() && s[i] == x;
            if i < pos {
                assert(s.insert(pos, y)[i] == x);
            } else {
                assert(s.insert(pos, y)[i + 1] == x);
            }
        }
        if x == y {
            assert(s.insert(pos, y)[pos] == x);
        }
    }
}

pub proof fn lemma_push_contains<K>(s: Seq<K>, y: K)
    ensures
        forall|x: K| #[trigger] s.push(y).contains(x) <==> (s.contains(x) || x == y),
        s.push(y).to_set() == s.to_set().insert(y),
{
    assert forall|x: K| #[trigger] s.push(y).contains(x) <==> (s.contains(x) || x == y) by {
        if s.contains(x) {
            let j = choose|j: int| 0 <= j < s.len() && s[j] == x;
            assert(s.push(y)[j] == x);
        }
        if x == y {
            assert(s.push(y)[s.len() as int] == y);
        }
        if s.push(y).contains(x) {
            let j = choose|j: int| 0 <= j < s.push(y).len() && s.push(y)[j] == x;
            if j < s.len() {
                assert(s[j] == x);
            }
        }
    }
    assert(s.push(y).to_set() =~= s.to_set().insert(y));
}

/// The first `i + 1` elements are the first `i` and then element `i`.
pub proof fn lemma_take_succ<K>(s: Seq<K>, i: int)
    requires
        0 <= i < s.len(),
    ensures
        s.take(i + 1) == s.take(i).push(s[i]),
        forall|x: K| #[trigger] s.take(i + 1).contains(x) <==> (s.take(i).contains(x) || x == s[i]),
        s.take(i + 1).to_set() == s.take(i).to_set().insert(s[i]),
{
    assert(s.take(i + 1) =~= s.take(i).push(s[i]));
    lemma_push_contains(s.take(i), s[i]);
}

/// In a sequence without duplicates, element `i` is not among the first `i`.
pub proof fn lemma_not_in_prefix<K>(s: Seq<K>, i: int)
    requires
        s.no_duplicates(),
        0 <= i < s.len(),
    ensures
        !s.take(i).contains(s[i]),
{
    if s.take(i).contains(s[i]) {
        let j = choose|j: int| 0 <= j < i && s.take(i)[j] == s[i];
        assert(s[j] == s[i]);
    }
}

/// The first index in `from..to` where `p` holds.
pub open spec fn first_where(p: spec_fn(int) -> bool, from: int, to: int) -> Option<int>
    decreases to - from,
{
    if from >= to {
        None
    } else if p(from) {
        Some(from)
    } else {
        first_where(p, from + 1, to)
    }
}

/// When `p` fails on `from..i`, the first index from `from` is the first from `i`.
pub proof fn lemma_first_where_skip(p: spec_fn(int) -> bool, from: int, i: int, to: int)
    requires
        from <= i,
        forall|k: int| from <= k < i ==> !#[trigger] p(k),
    ensures
        first_where(p, from, to) == first_where(p, i, to),
    decreases i - from,
{
    if from < i && from < to {
        lemma_first_where_skip(p, from + 1, i, to);
    }
}

/// `first_where` finds an index where `p` holds, and `p` fails before it.
pub proof fn lemma_first_where_found(p: spec_fn(int) -> bool, from: int, to: int)
    ensures
        first_where(p, from, to) matches Some(i) ==> from <= i < to && p(i) && forall|k: int|
            from <= k < i ==> !#[trigger] p(k),
        first_where(p, from, to) is None ==> forall|k: int| from <= k < to ==> !#[trigger] p(k),
    decreases to - from,
{
    if from < to {
        lemma_first_where_found(p, from + 1, to);
    }
}

/// A set of keys held as a list without duplicates.
#[derive(Debug)]
pub struct KeySet<K: Key> {
    items: Vec<K>,
}

impl<K: Key> KeySet<K> {
    /// The list holds no key twice.
    pub closed spec fn wf(&self) -> bool {
        self.items@.no_duplicates()
    }

    /// The members of the set.
    pub closed spec fn view(&self) -> Set<K> {
        self.items@.to_set()
    }

    /// The members in the order the list holds them.
    pub closed spec fn seq(&self) -> Seq<K> {
        self.items@
    }

    pub proof fn lemma_seq(&self)
        requires
            self.wf(),
        ensures
            self.seq().no_duplicates(),
            self.seq().to_set() == self@,
            self@.finite(),
            self@.len() == self.seq().len(),
            self.seq().len() <= usize::MAX,
            forall|k: K| #[trigger] self@.contains(k) <==> self.seq().contains(k),
    {
        assert(self.items.len() == self.items@.len());
                self.items@.unique_seq_to_set();
    }

    /// A set with one member lists exactly that member.
    pub proof fn lemma_singleton(&self, k: K)
        requires
            self.wf(),
            self@ == Set::<K>::empty().insert(k),
        ensures
            self.seq() == seq![k],
    {
        self.items@.unique_seq_to_set();
        assert(self.items@.len() == 1);
        assert(self.items@.to_set().contains(self.items@[0]));
        assert(self.items@ =~= seq![k]);
    }

    pub fn new() -> (s: Self)
        ensures
            s.wf(),
            s@ == Set::<K>::empty(),
            s.seq() == Seq::<K>::empty(),
    {
        let s = KeySet { items: Vec::new() };
        assert(s@ =~= Set::<K>::empty());
        s
    }

    pub fn contains(&self, k: &K) -> (r: bool)
        ensures
            r == self@.contains(*k),
    {
        let mut i: usize = 0;
        while i < self.items.len()
            invariant
                i <= self.items@.len(),
                forall|j: int| 0 <= j < i ==> self.items@[j] != *k,
            decreases self.items@.len() - i,
        {
            if self.items[i].same(k) {
                assert(self.items@.contains(*k));
                return true;
            }
            i = i + 1;
        }
        false
    }

    pub fn len(&self) -> (r: usize)
        requires
            self.wf(),
        ensures
            r == self@.len(),
            r == self.seq().len(),
    {
        proof {
            self.lemma_seq();
        }
        self.items.len()
    }

    pub fn is_empty(&self) -> (r: bool)
        requires
            self.wf(),
        ensures
            r == (self@.len() == 0),
            r == (self@ == Set::<K>::empty()),
    {
        proof {
            self.lemma_seq();
            if self.items.len() > 0 {
                assert(self@.contains(self.items@[0]));
            } else {
                assert(self@ =~= Set::<K>::empty());
            }
        }
        self.items.len() == 0
    }

    /// The element at position `i` of the list.
    pub fn at(&self, i: usize) -> (r: K)
        requires
            i < self.seq().len(),
        ensures
            r == self.seq()[i as int],
            self@.contains(r),
    {
        self.items[i]
    }

    /// Adds `k`; returns whether it was absent.
    pub fn insert(&mut self, k: K) -> (r: bool)
        requires
            old(self).wf(),
        ensures
            final(self).wf(),
            final(self)@ == old(self)@.insert(k),
            r == !old(self)@.contains(k),
            r ==> final(self).seq() == old(self).seq().push(k),
            !r ==> final(self).seq() == old(self).seq(),
    {
        if self.contains(&k) {
            proof {
                assert(self@.insert(k) =~= self@);
            }
            return false;
        }
        proof {
                        assert(!self.items@.contains(k));
            assert(self.items@.push(k).no_duplicates()) by {
                let s = self.items@.push(k);
                assert forall|a: int, b: int|
                    0 <= a < s.len() && 0 <= b < s.len() && a != b implies s[a] != s[b] by {
                    if a < self.items@.len() && b < self.items@.len() {
                    } else if a == self.items@.len() {
                        assert(s[a] == k);
                        assert(s[b] == self.items@[b]);
                    } else {
                        assert(s[b] == k);
                        assert(s[a] == self.items@[a]);
                    }
                }
            }
        }
        self.items.push(k);
        proof {
            assert(self.items@.to_set() =~= old(self).items@.to_set().insert(k)) by {
                assert forall|x: K| self.items@.contains(x) <==> (old(self).items@.contains(x)
                    || x == k) by {
                    if old(self).items@.contains(x) {
                        let a = choose|a: int|
                            0 <= a < old(self).items@.len() && old(self).items@[a] == x;
                        assert(self.items@[a] == x);
                    }
                    if x == k {
                        assert(self.items@[self.items@.len() - 1] == x);
                    }
                    if self.items@.contains(x) {
                        let a = choose|a: int| 0 <= a < self.items@.len() && self.items@[a] == x;
                        if a < old(self).items@.len() {
                            assert(old(self).items@[a] == x);
                        }
                    }
                }
            }
        }
        true
    }

    /// Removes `k`; returns whether it was present.
    pub fn remove(&mut self, k: &K) -> (r: bool)
        requires
            old(self).wf(),
        ensures
            final(self).wf(),
            final(self)@ == old(self)@.remove(*k),
            r == old(self)@.contains(*k),
    {
        let mut i: usize = 0;
        while i < self.items.len()
            invariant
                i <= self.items@.len(),
                self.items@ == old(self).items@,
                old(self).wf(),
                forall|j: int| 0 <= j < i ==> self.items@[j] != *k,
            decreases self.items@.len() - i,
        {
            if self.items[i].same(k) {
                proof {
                                        lemma_remove_no_dup(self.items@, i as int);
                }
                self.items.remove(i);
                return true;
            }
            i = i + 1;
        }
        proof {
            assert(!self.items@.contains(*k));
            assert(self@.remove(*k) =~= self@);
        }
        false
    }

    pub fn clear(&mut self)
        ensures
            final(self).wf(),
            final(self)@ == Set::<K>::empty(),
            final(self).seq() == Seq::<K>::empty(),
    {
        self.items.clear();
        proof {
            assert(self@ =~= Set::<K>::empty());
        }
    }

    /// A copy of the members, in list order.
    pub fn to_vec(&self) -> (r: Vec<K>)
        requires
            self.wf(),
        ensures
            r@ == self.seq(),
            r@.to_set() == self@,
            r@.no_duplicates(),
    {
        let mut out: Vec<K> = Vec::new();
        let mut i: usize = 0;
        while i < self.items.len()
            invariant
                i <= self.items@.len(),
                out@ == self.items@.subrange(0, i as int),
            decreases self.items@.len() - i,
        {
            out.push(self.items[i]);
            i = i + 1;
            proof {
                assert(out@ =~= self.items@.subrange(0, i as int));
            }
        }
        proof {
            assert(out@ =~= self.items@);
        }
        out
    }
}

/// A finite map held as two parallel lists: keys without duplicates and the
/// value of each key at the same position.
#[derive(Debug)]
pub struct KeyMap<K: Key, V> {
    keys: Vec<K>,
    vals: Vec<V>,
}

impl<K: Key, V> KeyMap<K, V> {
    /// Keys are distinct and each has a value.
    pub closed spec fn wf(&self) -> bool {
        &&& self.keys@.no_duplicates()
        &&& self.keys@.len() == self.vals@.len()
    }

    /// The map from keys to values.
    pub closed spec fn view(&self) -> Map<K, V> {
        Map::new(|k: K| self.keys@.contains(k), |k: K| self.vals@[self.keys@.index_of(k)])
    }

    /// The keys in list order.
    pub closed spec fn key_seq(&self) -> Seq<K> {
        self.keys@
    }

    /// The values in list order.
    pub closed spec fn val_seq(&self) -> Seq<V> {
        self.vals@
    }

    pub proof fn lemma_seqs(&self)
        requires
            self.wf(),
        ensures
            self.key_seq().no_duplicates(),
            self.key_seq().len() == self.val_seq().len(),
            self@.dom() == self.key_seq().to_set(),
            self@.dom().finite(),
            self@.dom().len() == self.key_seq().len(),
            forall|i: int|
                0 <= i < self.key_seq().len() ==> #[trigger] self@[self.key_seq()[i]]
                    == self.val_seq()[i],
            forall|k: K| #[trigger] self@.contains_key(k) <==> self.key_seq().contains(k),
    {
                self.keys@.unique_seq_to_set();
        assert(self@.dom() =~= self.keys@.to_set());
        assert forall|i: int| 0 <= i < self.key_seq().len() implies #[trigger] self@[self.key_seq()[
            i]] == self.val_seq()[i] by {
            lemma_index_of_unique(self.keys@, i);
        }
    }

    pub fn new() -> (m: Self)
        ensures
            m.wf(),
            m@ == Map::<K, V>::empty(),
            m.key_seq() == Seq::<K>::empty(),
    {
        let m = KeyMap { keys: Vec::new(), vals: Vec::new() };
        assert(m@ =~= Map::<K, V>::empty());
        m
    }

    fn find(&self, k: &K) -> (r: Option<usize>)
        ensures
            match r {
                Some(i) => i < self.keys@.len() && self.keys@[i as int] == *k,
                None => !self.keys@.contains(*k),
            },
    {
        let mut i: usize = 0;
        while i < self.keys.len()
            invariant
                i <= self.keys@.len(),
                forall|j: int| 0 <= j < i ==> self.keys@[j] != *k,
            decreases self.keys@.len() - i,
        {
            if self.keys[i].same(k) {
                return Some(i);
            }
            i = i + 1;
        }
        None
    }

    pub fn contains_key(&self, k: &K) -> (r: bool)
        ensures
            r == self@.contains_key(*k),
    {
        match self.find(k) {
            Some(_) => true,
            None => false,
        }
    }

    pub fn get(&self, k: &K) -> (r: Option<&V>)
        requires
            self.wf(),
        ensures
            r is Some == self@.contains_key(*k),
            r matches Some(v) ==> *v == self@[*k],
    {
        match self.find(k) {
            Some(i) => {
                proof {
                                        lemma_index_of_unique(self.keys@, i as int);
                }
                Some(&self.vals[i])
            },
            None => None,
        }
    }

    pub fn len(&self) -> (r: usize)
        requires
            self.wf(),
        ensures
            r == self@.len(),
            r == self.key_seq().len(),
    {
        proof {
            self.lemma_seqs();
        }
        self.keys.len()
    }

    /// The key at position `i`.
    pub fn key_at(&self, i: usize) -> (r: K)
        requires
            self.wf(),
            i < self.key_seq().len(),
        ensures
            r == self.key_seq()[i as int],
            self@.contains_key(r),
    {
        proof {
            self.lemma_seqs();
        }
        self.keys[i]
    }

    /// The value at position `i`.
    pub fn value_at(&self, i: usize) -> (r: &V)
        requires
            self.wf(),
            i < self.key_seq().len(),
        ensures
            *r == self.val_seq()[i as int],
            *r == self@[self.key_seq()[i as int]],
    {
        proof {
            self.lemma_seqs();
        }
        &self.vals[i]
    }

    /// Sets the value of `k` to `v`, adding `k` if it is absent.
    pub fn insert(&mut self, k: K, v: V)
        requires
            old(self).wf(),
        ensures
            final(self).wf(),
            final(self)@ == old(self)@.insert(k, v),
    {
        match self.find(&k) {
            Some(i) => {
                self.vals.set(i, v);
                proof {
                    assert forall|key: K| #[trigger] self.keys@.contains(key) implies self.vals@[
                        self.keys@.index_of(key)] == old(self)@.insert(k, v)[key] by {
                        let j = choose|j: int| 0 <= j < self.keys@.len() && self.keys@[j] == key;
                        lemma_index_of_unique(self.keys@, j);
                        lemma_index_of_unique(old(self).keys@, j);
                        if key == k {
                            assert(j == i);
                        }
                    }
                    assert(self@ =~= old(self)@.insert(k, v));
                }
            },
            None => {
                proof {
                    let s = self.keys@.push(k);
                    assert forall|a: int, b: int|
                        0 <= a < s.len() && 0 <= b < s.len() && a != b implies s[a] != s[b] by {
                        if a < self.keys@.len() && b < self.keys@.len() {
                        } else if a == self.keys@.len() {
                            assert(s[b] == self.keys@[b]);
                        } else {
                            assert(s[a] == self.keys@[a]);
                        }
                    }
                }
                self.keys.push(k);
                self.vals.push(v);
                proof {
                    let n = self.keys@.len() - 1;
                    assert forall|key: K|
                        #[trigger] self.keys@.contains(key) <==> (old(self).keys@.contains(key)
                            || key == k) by {
                        if old(self).keys@.contains(key) {
                            let a = choose|a: int|
                                0 <= a < old(self).keys@.len() && old(self).keys@[a] == key;
                            assert(self.keys@[a] == key);
                        }
                        if key == k {
                            assert(self.keys@[n] == key);
                        }
                        if self.keys@.contains(key) {
                            let a = choose|a: int| 0 <= a < self.keys@.len() && self.keys@[a] == key;
                            if a < n {
                                assert(old(self).keys@[a] == key);
                            }
                        }
                    }
                    assert forall|key: K| #[trigger] self.keys@.contains(key) implies self.vals@[
                        self.keys@.index_of(key)] == old(self)@.insert(k, v)[key] by {
                        let j = choose|j: int| 0 <= j < self.keys@.len() && self.keys@[j] == key;
                        lemma_index_of_unique(self.keys@, j);
                        if j < n {
                            lemma_index_of_unique(old(self).keys@, j);
                        }
                    }
                    assert(self@ =~= old(self)@.insert(k, v));
                }
            },
        }
    }

    /// Removes `k`, returning its value if it was present.
    pub fn remove(&mut self, k: &K) -> (r: Option<V>)
        requires
            old(self).wf(),
        ensures
            final(self).wf(),
            final(self)@ == old(self)@.remove(*k),
            r is Some == old(self)@.contains_key(*k),
            r matches Some(v) ==> v == old(self)@[*k],
    {
        match self.find(k) {
            Some(i) => {
                proof {
                    lemma_remove_no_dup(self.keys@, i as int);
                    lemma_index_of_unique(self.keys@, i as int);
                    self.keys@.remove_ensures(i as int);
                    self.vals@.remove_ensures(i as int);
                }
                self.keys.remove(i);
                let v = self.vals.remove(i);
                proof {
                    assert forall|key: K| #[trigger] self.keys@.contains(key) implies self.vals@[
                        self.keys@.index_of(key)] == old(self)@[key] by {
                        let j = choose|j: int| 0 <= j < self.keys@.len() && self.keys@[j] == key;
                        lemma_index_of_unique(self.keys@, j);
                        let oj = if j < i { j } else { j + 1 };
                        assert(old(self).keys@[oj] == key);
                        lemma_index_of_unique(old(self).keys@, oj);
                    }
                    assert(self@ =~= old(self)@.remove(*k));
                }
                Some(v)
            },
            None => {
                proof {
                    assert(self@ =~= old(self)@.remove(*k));
                }
                None
            },
        }
    }

    pub fn clear(&mut self)
        ensures
            final(self).wf(),
            final(self)@ == Map::<K, V>::empty(),
            final(self).key_seq() == Seq::<K>::empty(),
    {
        self.keys.clear();
        self.vals.clear();
        proof {
            assert(self@ =~= Map::<K, V>::empty());
        }
    }

    /// A copy of the keys, in list order.
    pub fn keys(&self) -> (r: Vec<K>)
        requires
            self.wf(),
        ensures
            r@ == self.key_seq(),
            r@.to_set() == self@.dom(),
            r@.no_duplicates(),
    {
        proof {
            self.lemma_seqs();
        }
        let mut out: Vec<K> = Vec::new();
        let mut i: usize = 0;
        while i < self.keys.len()
            invariant
                i <= self.keys@.len(),
                out@ == self.keys@.subrange(0, i as int),
            decreases self.keys@.len() - i,
        {
            out.push(self.keys[i]);
            i = i + 1;
            proof {
                assert(out@ =~= self.keys@.subrange(0, i as int));
            }
        }
        proof {
            assert(out@ =~= self.keys@);
        }
        out
    }
}

impl<K: Key, V: Copy> KeyMap<K, V> {
    /// The value of `k`, if present.
    pub fn get_copy(&self, k: &K) -> (r: Option<V>)
        requires
            self.wf(),
        ensures
            r is Some == self@.contains_key(*k),
            r matches Some(v) ==> v == self@[*k],
    {
        match self.get(k) {
            Some(v) => Some(*v),
            None => None,
        }
    }
}

} // verus!
