//! Values accumulated under keys until a quorum of them has arrived.

use vstd::prelude::*;

use crate::lru::{evicted, inserted, touched, without, LruKey, LruMap};

verus! {

/// How many keys an accumulator keeps unless told otherwise.
pub const MAX_REQUEST_COUNT: usize = 1000;

/// `b` is an element-by-element clone of `a`.
pub open spec fn clones<V: Clone>(a: Seq<V>, b: Seq<V>) -> bool {
    &&& a.len() == b.len()
    &&& forall|i: int| 0 <= i < a.len() ==> cloned::<V>(#[trigger] a[i], b[i])
}

/// The values held under `k`; empty when none are.
pub open spec fn values_of<K, V>(m: Map<K, Seq<V>>, k: K) -> Seq<V> {
    if m.contains_key(k) {
        m[k]
    } else {
        Seq::empty()
    }
}

/// Values accumulated for one key.
pub struct Entry<V> {
    /// Values accumulated for a given key.
    pub received_response: Vec<V>,
}

/// Accumulates values under keys, keeping at most a fixed number of keys;
/// adding a new key to a full accumulator drops the least recently used one.
pub struct RefreshSentinel<K, V> {
    /// Threshold for resolution.
    quorum: usize,
    storage: LruMap<K, Entry<V>>,
}

impl<K: LruKey, V: Clone> RefreshSentinel<K, V> {
    /// The values held under each key, in order of arrival.
    pub closed spec fn map(&self) -> Map<K, Seq<V>> {
        self.storage.map().map_values(|e: Entry<V>| e.received_response@)
    }

    pub closed spec fn quorum(&self) -> nat {
        self.quorum as nat
    }

    /// How many keys may be held at once.
    pub closed spec fn capacity(&self) -> nat {
        self.storage.capacity()
    }

    /// The keys held, least recently used first.
    pub closed spec fn order(&self) -> Seq<K> {
        self.storage.order()
    }

    /// How many keys are held.
    pub open spec fn size(&self) -> nat {
        self.order().len()
    }

    /// The key that adding under `k` would drop: the least recently used
    /// one, when `k` is new and the accumulator is full.
    pub open spec fn evicts(&self, k: K) -> Option<K> {
        evicted(self.order(), k, self.capacity())
    }

    pub closed spec fn storage_wf(&self) -> bool {
        self.storage.wf()
    }

    pub open spec fn wf(&self) -> bool {
        &&& self.storage_wf()
        &&& 1 <= self.capacity()
        &&& self.size() <= self.capacity()
        &&& self.order().no_duplicates()
        &&& forall|k: K| #[trigger] self.map().contains_key(k) <==> self.order().contains(k)
    }

    /// The map after `value` is added under `key`.
    pub open spec fn map_after_add(&self, key: K, value: V) -> Map<K, Seq<V>> {
        match self.evicts(key) {
            Some(e) => self.map().remove(e),
            None => self.map(),
        }.insert(key, values_of(self.map(), key).push(value))
    }

    /// Holds at most `MAX_REQUEST_COUNT` keys.
    pub fn new(quorum: usize) -> (r: Self)
        ensures
            r.wf(),
            r.map() == Map::<K, Seq<V>>::empty(),
            r.quorum() == quorum,
            r.capacity() == MAX_REQUEST_COUNT,
            r.order() == Seq::<K>::empty(),
    {
        Self::with_capacity(quorum, MAX_REQUEST_COUNT)
    }

    /// Holds at most `capacity` keys.
    pub fn with_capacity(quorum: usize, capacity: usize) -> (r: Self)
        requires
            1 <= capacity,
        ensures
            r.wf(),
            r.map() == Map::<K, Seq<V>>::empty(),
            r.quorum() == quorum,
            r.capacity() == capacity,
            r.order() == Seq::<K>::empty(),
    {
        let r = RefreshSentinel { quorum, storage: LruMap::new(capacity) };
        assert(r.map() =~= Map::<K, Seq<V>>::empty());
        r
    }

    /// Whether values are held under `key`.
    pub fn contains_key(&self, key: &K) -> (r: bool)
        requires
            self.wf(),
        ensures
            r == self.map().contains_key(*key),
    {
        self.storage.contains_key(key)
    }

    /// Whether a quorum of values is held under `key`. The key becomes the
    /// most recently used.
    pub fn is_quorum_reached(&mut self, key: &K) -> (r: bool)
        requires
            old(self).wf(),
        ensures
            final(self).wf(),
            final(self).map() == old(self).map(),
            final(self).quorum() == old(self).quorum(),
            final(self).capacity() == old(self).capacity(),
            final(self).order() == touched(old(self).order(), *key),
            r == (old(self).map().contains_key(*key) && old(self).map()[*key].len() >= old(self).quorum()),
    {
        self.storage.touch(key);
        proof {
            assert(self.map() =~= old(self).map());
        }
        match self.storage.peek(key) {
            Some(entry) => entry.received_response.len() >= self.quorum,
            None => false,
        }
    }

    /// Adds `value` under `key`. When a quorum of values is then held, hands
    /// back the key with a copy of them.
    pub fn add(&mut self, key: K, value: V) -> (r: Option<(K, Vec<V>)>)
        requires
            old(self).wf(),
        ensures
            final(self).wf(),
            final(self).map() == old(self).map_after_add(key, value),
            final(self).quorum() == old(self).quorum(),
            final(self).capacity() == old(self).capacity(),
            final(self).order() == inserted(old(self).order(), key, old(self).capacity()),
            final(self).size() == old(self).size() + if old(self).map().contains_key(key) || old(self).evicts(key) is Some {
                0int
            } else {
                1int
            },
            r.is_some() == (values_of(old(self).map(), key).len() + 1 >= old(self).quorum()),
            r.is_some() ==> r.unwrap().0 == key && clones(values_of(old(self).map(), key).push(value), r.unwrap().1@),
    {
        let ghost m0 = self.storage.map();
        let ghost ev = self.storage.evicts(key);
        let held = self.storage.remove(&key);
        let mut entry = match held {
            Some(e) => e,
            None => Entry { received_response: Vec::new() },
        };
        proof {
            if m0.contains_key(key) {
                assert(old(self).map().contains_key(key));
            }
            assert(entry.received_response@ == values_of(old(self).map(), key));
        }
        entry.received_response.push(value);
        let reached = entry.received_response.len() >= self.quorum;
        let r = if reached {
            Some((key, entry.received_response.clone()))
        } else {
            None
        };
        let ghost stored = entry.received_response@;
        self.storage.insert(key, entry);
        proof {
            let m1 = match ev {
                Some(e) => m0.remove(e),
                None => m0,
            };
            assert(self.storage.map() =~= m1.insert(key, entry));
            assert(self.map() =~= old(self).map_after_add(key, value));
        }
        r
    }

    /// A copy of the values held under `key`, with the key. The key becomes
    /// the most recently used.
    pub fn get(&mut self, key: &K) -> (r: Option<(K, Vec<V>)>)
        requires
            old(self).wf(),
        ensures
            final(self).wf(),
            final(self).map() == old(self).map(),
            final(self).quorum() == old(self).quorum(),
            final(self).capacity() == old(self).capacity(),
            final(self).order() == touched(old(self).order(), *key),
            r.is_some() == old(self).map().contains_key(*key),
            r.is_some() ==> r.unwrap().0 == *key && clones(old(self).map()[*key], r.unwrap().1@),
    {
        self.storage.touch(key);
        proof {
            assert(self.map() =~= old(self).map());
        }
        match self.storage.peek(key) {
            Some(entry) => Some((*key, entry.received_response.clone())),
            None => None,
        }
    }

    /// Removes all values held under `key`.
    pub fn delete(&mut self, key: &K)
        requires
            old(self).wf(),
        ensures
            final(self).wf(),
            final(self).map() == old(self).map().remove(*key),
            final(self).quorum() == old(self).quorum(),
            final(self).capacity() == old(self).capacity(),
            final(self).order() == without(old(self).order(), *key),
    {
        self.storage.remove(key);
        proof {
            assert(self.map() =~= old(self).map().remove(*key));
        }
    }

    /// How many keys are held.
    pub fn cache_size(&mut self) -> (r: usize)
        requires
            old(self).wf(),
        ensures
            *final(self) == *old(self),
            r == old(self).size(),
            r <= old(self).capacity(),
    {
        self.storage.len()
    }

    /// Sets the quorum that later additions are measured against.
    pub fn set_quorum(&mut self, quorum: usize)
        ensures
            final(self).map() == old(self).map(),
            final(self).wf() == old(self).wf(),
            final(self).quorum() == quorum,
            final(self).capacity() == old(self).capacity(),
            final(self).order() == old(self).order(),
    {
        self.quorum = quorum;
    }

    /// The quorum that additions are measured against.
    pub fn quorum_size(&self) -> (r: usize)
        ensures
            r == self.quorum(),
    {
        self.quorum
    }
}

} // verus!
