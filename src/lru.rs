//! A bounded map that evicts its least recently used key when full.

use vstd::prelude::*;

verus! {

/// True when `s` holds an entry keyed by `k`.
pub open spec fn has_key<K, V>(s: Seq<(K, V)>, k: K) -> bool {
    exists|i: int| 0 <= i < s.len() && (#[trigger] s[i]).0 == k
}

/// True when no two entries of `s` share a key.
pub open spec fn keys_unique<K, V>(s: Seq<(K, V)>) -> bool {
    forall|i: int, j: int|
        0 <= i < s.len() && 0 <= j < s.len() && i != j ==> (#[trigger] s[i]).0 != (#[trigger] s[j]).0
}

/// The position of the entry keyed by `k`.
pub open spec fn key_index<K, V>(s: Seq<(K, V)>, k: K) -> int
    recommends
        has_key(s, k),
{
    choose|i: int| 0 <= i < s.len() && (#[trigger] s[i]).0 == k
}

/// The entries of `s` read as a map from key to value.
pub open spec fn map_of<K, V>(s: Seq<(K, V)>) -> Map<K, V> {
    Map::new(|k: K| has_key(s, k), |k: K| s[key_index(s, k)].1)
}

/// In a sequence with unique keys, the entry keyed by `s[i].0` is at `i`.
pub proof fn lemma_key_index<K, V>(s: Seq<(K, V)>, i: int)
    requires
        keys_unique(s),
        0 <= i < s.len(),
    ensures
        has_key(s, s[i].0),
        key_index(s, s[i].0) == i,
{
    assert(has_key(s, s[i].0));
}

/// Removing the entry at `i` removes its key from the map.
pub proof fn lemma_remove_at<K, V>(s: Seq<(K, V)>, i: int)
    requires
        keys_unique(s),
        0 <= i < s.len(),
    ensures
        keys_unique(s.remove(i)),
        map_of(s.remove(i)) == map_of(s).remove(s[i].0),
{
    let t = s.remove(i);
    assert forall|a: int, b: int|
        0 <= a < t.len() && 0 <= b < t.len() && a != b implies (#[trigger] t[a]).0 != (#[trigger] t[b]).0 by {
        let a2 = if a < i { a } else { a + 1 };
        let b2 = if b < i { b } else { b + 1 };
        assert(t[a] == s[a2] && t[b] == s[b2]);
    }
    assert forall|k: K| #[trigger] has_key(t, k) <==> has_key(s, k) && k != s[i].0 by {
        if has_key(t, k) {
            let a = choose|a: int| 0 <= a < t.len() && (#[trigger] t[a]).0 == k;
            let a2 = if a < i { a } else { a + 1 };
            assert(s[a2] == t[a]);
        }
        if has_key(s, k) && k != s[i].0 {
            let a = choose|a: int| 0 <= a < s.len() && (#[trigger] s[a]).0 == k;
            let a1 = if a < i { a } else { a - 1 };
            assert(t[a1] == s[a]);
        }
    }
    assert forall|k: K| #[trigger] has_key(t, k) implies t[key_index(t, k)].1 == s[key_index(s, k)].1 by {
        let a = key_index(t, k);
        let a2 = if a < i { a } else { a + 1 };
        assert(s[a2] == t[a]);
        lemma_key_index(s, a2);
    }
    assert(map_of(t) =~= map_of(s).remove(s[i].0));
}

/// Appending an entry under a fresh key inserts it into the map.
pub proof fn lemma_push<K, V>(s: Seq<(K, V)>, k: K, v: V)
    requires
        keys_unique(s),
        !has_key(s, k),
    ensures
        keys_unique(s.push((k, v))),
        map_of(s.push((k, v))) == map_of(s).insert(k, v),
{
    let t = s.push((k, v));
    assert forall|a: int, b: int|
        0 <= a < t.len() && 0 <= b < t.len() && a != b implies (#[trigger] t[a]).0 != (#[trigger] t[b]).0 by {
        if a < s.len() && b < s.len() {
            assert(t[a] == s[a] && t[b] == s[b]);
        } else if a < s.len() {
            assert(t[a] == s[a]);
        } else {
            assert(t[b] == s[b]);
        }
    }
    assert forall|k2: K| #[trigger] has_key(t, k2) <==> has_key(s, k2) || k2 == k by {
        if has_key(s, k2) {
            let a = choose|a: int| 0 <= a < s.len() && (#[trigger] s[a]).0 == k2;
            assert(t[a] == s[a]);
        }
        if k2 == k {
            assert(t[s.len() as int].0 == k);
        }
        if has_key(t, k2) && k2 != k {
            let a = choose|a: int| 0 <= a < t.len() && (#[trigger] t[a]).0 == k2;
            assert(a < s.len());
            assert(s[a] == t[a]);
        }
    }
    assert forall|k2: K| #[trigger] has_key(t, k2) implies t[key_index(t, k2)].1 == (if k2 == k { v } else { s[key_index(s, k2)].1 }) by {
        let a = key_index(t, k2);
        lemma_key_index(t, a);
        if a < s.len() {
            assert(s[a] == t[a]);
            lemma_key_index(s, a);
        }
    }
    assert(map_of(t) =~= map_of(s).insert(k, v));
}

/// The keys of `s`, in order.
pub open spec fn keys_of<K, V>(s: Seq<(K, V)>) -> Seq<K> {
    s.map_values(|e: (K, V)| e.0)
}

/// `o` with `k` moved to the most recent end, if it is there.
pub open spec fn touched<K>(o: Seq<K>, k: K) -> Seq<K> {
    if o.contains(k) {
        o.remove(o.index_of(k)).push(k)
    } else {
        o
    }
}

/// `o` without `k`.
pub open spec fn without<K>(o: Seq<K>, k: K) -> Seq<K> {
    if o.contains(k) {
        o.remove(o.index_of(k))
    } else {
        o
    }
}

/// The key that adding `k` to a map of capacity `cap` whose keys, least
/// recently used first, are `o` pushes out: the least recently used one,
/// and only when `k` is new and the map is full.
pub open spec fn evicted<K>(o: Seq<K>, k: K, cap: nat) -> Option<K> {
    if !o.contains(k) && o.len() == cap {
        Some(o[0])
    } else {
        None
    }
}

/// The keys, least recently used first, after `k` is added.
pub open spec fn inserted<K>(o: Seq<K>, k: K, cap: nat) -> Seq<K> {
    if evicted(o, k, cap) is Some {
        o.drop_first().push(k)
    } else {
        without(o, k).push(k)
    }
}

/// The keys of a sequence with unique keys are distinct and are the keys it
/// holds; the position of a key among them is its entry's position.
pub proof fn lemma_order<K, V>(s: Seq<(K, V)>)
    requires
        keys_unique(s),
    ensures
        keys_of(s).no_duplicates(),
        keys_of(s).len() == s.len(),
        forall|k: K| #[trigger] keys_of(s).contains(k) <==> has_key(s, k),
        forall|k: K| has_key(s, k) ==> #[trigger] keys_of(s).index_of(k) == key_index(s, k),
{
    let o = keys_of(s);
    assert forall|i: int, j: int| 0 <= i < o.len() && 0 <= j < o.len() && i != j implies o[i] != o[j] by {
        assert(o[i] == s[i].0 && o[j] == s[j].0);
    }
    assert forall|k: K| #[trigger] o.contains(k) <==> has_key(s, k) by {
        if o.contains(k) {
            let i = choose|i: int| 0 <= i < o.len() && o[i] == k;
            assert(s[i].0 == k);
        }
        if has_key(s, k) {
            let i = choose|i: int| 0 <= i < s.len() && (#[trigger] s[i]).0 == k;
            assert(o[i] == k);
        }
    }
    assert forall|k: K| has_key(s, k) implies #[trigger] o.index_of(k) == key_index(s, k) by {
        assert(o.contains(k));
        let i = o.index_of(k);
        assert(0 <= i < o.len() && o[i] == k);
        assert(s[i].0 == k);
        lemma_key_index(s, i);
    }
}

/// The keys after removing the entry at `i`, or after appending one.
pub proof fn lemma_keys_of_ops<K, V>(s: Seq<(K, V)>, i: int, e: (K, V))
    requires
        0 <= i < s.len(),
    ensures
        keys_of(s.remove(i)) == keys_of(s).remove(i),
        keys_of(s.push(e)) == keys_of(s).push(e.0),
        keys_of(s.remove(i).push(e)) == keys_of(s).remove(i).push(e.0),
{
    assert(keys_of(s.remove(i)) =~= keys_of(s).remove(i));
    assert(keys_of(s.push(e)) =~= keys_of(s).push(e.0));
    assert(keys_of(s.remove(i).push(e)) =~= keys_of(s.remove(i)).push(e.0));
}

/// A key that can be told apart from others by value.
pub trait LruKey: Copy {
    fn same(&self, other: &Self) -> (r: bool)
        ensures
            r == (*self == *other),
    ;
}

impl LruKey for i32 {
    fn same(&self, other: &i32) -> (r: bool) {
        *self == *other
    }
}

impl LruKey for u64 {
    fn same(&self, other: &u64) -> (r: bool) {
        *self == *other
    }
}

/// A map of at most `capacity` keys. Adding a new key to a full map evicts the
/// key that was used least recently.
pub struct LruMap<K, V> {
    entries: Vec<(K, V)>,
    capacity: usize,
}

impl<K: LruKey, V> LruMap<K, V> {
    /// Entries from least to most recently used.
    pub closed spec fn entries(&self) -> Seq<(K, V)> {
        self.entries@
    }

    pub closed spec fn capacity(&self) -> nat {
        self.capacity as nat
    }

    /// The keys, least recently used first.
    pub open spec fn order(&self) -> Seq<K> {
        keys_of(self.entries())
    }

    /// What the map holds.
    pub open spec fn map(&self) -> Map<K, V> {
        map_of(self.entries())
    }

    pub open spec fn wf(&self) -> bool {
        &&& 1 <= self.capacity()
        &&& self.entries().len() <= self.capacity()
        &&& keys_unique(self.entries())
        &&& self.order().no_duplicates()
        &&& self.order().len() == self.entries().len()
        &&& forall|k: K| #[trigger] self.map().contains_key(k) <==> self.order().contains(k)
    }

    /// The key that adding `k` would evict, if any.
    pub open spec fn evicts(&self, k: K) -> Option<K> {
        evicted(self.order(), k, self.capacity())
    }

    pub fn new(capacity: usize) -> (r: Self)
        requires
            1 <= capacity,
        ensures
            r.wf(),
            r.entries() == Seq::<(K, V)>::empty(),
            r.map() == Map::<K, V>::empty(),
            r.order() == Seq::<K>::empty(),
            r.capacity() == capacity,
    {
        let r = LruMap { entries: Vec::new(), capacity };
        assert(r.map() =~= Map::<K, V>::empty());
        assert(r.order() =~= Seq::<K>::empty());
        r
    }

    pub fn len(&self) -> (r: usize)
        ensures
            r == self.entries().len(),
    {
        self.entries.len()
    }

    pub fn capacity_of(&self) -> (r: usize)
        ensures
            r == self.capacity(),
    {
        self.capacity
    }

    /// The position of `key` among the entries.
    fn find(&self, key: &K) -> (r: Option<usize>)
        requires
            self.wf(),
        ensures
            match r {
                Some(i) => i < self.entries().len() && self.entries()[i as int].0 == *key
                    && key_index(self.entries(), *key) == i,
                None => !has_key(self.entries(), *key),
            },
    {
        let mut i: usize = 0;
        while i < self.entries.len()
            invariant
                i <= self.entries@.len(),
                self.wf(),
                forall|j: int| 0 <= j < i ==> self.entries@[j].0 != *key,
            decreases self.entries@.len() - i,
        {
            if self.entries[i].0.same(key) {
                proof { lemma_key_index(self.entries@, i as int); }
                return Some(i);
            }
            i = i + 1;
        }
        None
    }

    pub fn contains_key(&self, key: &K) -> (r: bool)
        requires
            self.wf(),
        ensures
            r == self.map().contains_key(*key),
    {
        self.find(key).is_some()
    }

    /// The value under `key`, without touching its recency.
    pub fn peek(&self, key: &K) -> (r: Option<&V>)
        requires
            self.wf(),
        ensures
            r.is_some() == self.map().contains_key(*key),
            r.is_some() ==> *r.unwrap() == self.map()[*key],
    {
        match self.find(key) {
            Some(i) => Some(&self.entries[i].1),
            None => None,
        }
    }

    /// Marks `key` as the most recently used.
    pub fn touch(&mut self, key: &K)
        requires
            old(self).wf(),
        ensures
            final(self).wf(),
            final(self).capacity() == old(self).capacity(),
            final(self).map() == old(self).map(),
            final(self).order() == touched(old(self).order(), *key),
    {
        proof { lemma_order(self.entries@); }
        if let Some(i) = self.find(key) {
            let ghost s = self.entries@;
            let e = self.entries.remove(i);
            proof {
                lemma_remove_at(s, i as int);
                assert(!has_key(s.remove(i as int), e.0)) by {
                    assert(!map_of(s.remove(i as int)).contains_key(e.0));
                }
                lemma_push(s.remove(i as int), e.0, e.1);
                lemma_key_index(s, i as int);
                assert(map_of(s).remove(e.0).insert(e.0, e.1) =~= map_of(s));
                lemma_keys_of_ops(s, i as int, e);
                lemma_order(s.remove(i as int).push(e));
            }
            self.entries.push(e);
        }
    }

    /// Removes `key` and hands back its value.
    pub fn remove(&mut self, key: &K) -> (r: Option<V>)
        requires
            old(self).wf(),
        ensures
            final(self).wf(),
            final(self).capacity() == old(self).capacity(),
            final(self).map() == old(self).map().remove(*key),
            final(self).order() == without(old(self).order(), *key),
            r.is_some() == old(self).map().contains_key(*key),
            r.is_some() ==> r.unwrap() == old(self).map()[*key],
    {
        proof { lemma_order(self.entries@); }
        match self.find(key) {
            Some(i) => {
                let ghost s = self.entries@;
                let e = self.entries.remove(i);
                proof {
                    lemma_remove_at(s, i as int);
                    lemma_keys_of_ops(s, i as int, e);
                    lemma_order(s.remove(i as int));
                }
                Some(e.1)
            },
            None => {
                proof {
                    assert(self.map() =~= self.map().remove(*key));
                }
                None
            },
        }
    }

    /// Stores `value` under `key` as the most recently used entry. A new key
    /// in a full map first evicts the least recently used one.
    pub fn insert(&mut self, key: K, value: V)
        requires
            old(self).wf(),
        ensures
            final(self).wf(),
            final(self).capacity() == old(self).capacity(),
            final(self).map() == match old(self).evicts(key) {
                Some(e) => old(self).map().remove(e),
                None => old(self).map(),
            }.insert(key, value),
            final(self).order() == inserted(old(self).order(), key, old(self).capacity()),
    {
        let ghost s0 = self.entries@;
        proof { lemma_order(s0); }
        match self.find(&key) {
            Some(i) => {
                self.entries.remove(i);
                proof {
                    lemma_remove_at(s0, i as int);
                    assert(!has_key(s0.remove(i as int), key)) by {
                        assert(!map_of(s0.remove(i as int)).contains_key(key));
                    }
                    lemma_push(s0.remove(i as int), key, value);
                    assert(map_of(s0).remove(key).insert(key, value) =~= map_of(s0).insert(key, value));
                    lemma_keys_of_ops(s0, i as int, (key, value));
                    lemma_order(s0.remove(i as int).push((key, value)));
                }
            },
            None => {
                if self.entries.len() >= self.capacity {
                    self.entries.remove(0);
                    proof {
                        lemma_remove_at(s0, 0);
                        assert(!has_key(s0.remove(0), key)) by {
                            assert(!map_of(s0.remove(0)).contains_key(key));
                        }
                        lemma_push(s0.remove(0), key, value);
                        lemma_keys_of_ops(s0, 0, (key, value));
                        assert(keys_of(s0).remove(0) =~= keys_of(s0).drop_first());
                        lemma_order(s0.remove(0).push((key, value)));
                    }
                } else {
                    proof {
                        lemma_push(s0, key, value);
                        assert(keys_of(s0.push((key, value))) =~= keys_of(s0).push(key));
                        lemma_order(s0.push((key, value)));
                    }
                }
            },
        }
        self.entries.push((key, value));
    }
}

} // verus!
