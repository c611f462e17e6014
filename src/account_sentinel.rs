//! Per-request claims from distinct senders, resolved to their median.

use vstd::prelude::*;

use crate::lru::{evicted, has_key, inserted, key_index, keys_unique, lemma_key_index, lemma_push, without, LruKey, LruMap};
use crate::refresh_sentinel::MAX_REQUEST_COUNT;
use crate::Name;

verus! {

/// `e` placed into the ascending `s` after every element not above it.
pub open spec fn insert_ascending(s: Seq<u64>, e: u64) -> Seq<u64>
    decreases s.len(),
{
    if s.len() == 0 {
        seq![e]
    } else if s.last() <= e {
        s.push(e)
    } else {
        insert_ascending(s.drop_last(), e).push(s.last())
    }
}

/// `s` in ascending order.
pub open spec fn sorted_ascending(s: Seq<u64>) -> Seq<u64>
    decreases s.len(),
{
    if s.len() == 0 {
        s
    } else {
        insert_ascending(sorted_ascending(s.drop_last()), s.last())
    }
}

/// Placing an element keeps the others and adds that one.
pub proof fn lemma_insert_ascending_multiset(s: Seq<u64>, e: u64)
    ensures
        insert_ascending(s, e).to_multiset() == s.to_multiset().insert(e),
    decreases s.len(),
{
    broadcast use vstd::seq_lib::group_to_multiset_ensures;

    if s.len() > 0 && s.last() > e {
        lemma_insert_ascending_multiset(s.drop_last(), e);
        assert(s.drop_last().push(s.last()) =~= s);
        assert(s.to_multiset() == s.drop_last().to_multiset().insert(s.last()));
        assert(insert_ascending(s, e).to_multiset() =~= s.to_multiset().insert(e));
    } else if s.len() == 0 {
        assert(seq![e] =~= Seq::<u64>::empty().push(e));
    }
}

/// Placing an element into an ascending sequence keeps it ascending.
pub proof fn lemma_insert_ascending_sorted(s: Seq<u64>, e: u64)
    requires
        forall|i: int, j: int| 0 <= i < j < s.len() ==> #[trigger] s[i] <= #[trigger] s[j],
    ensures
        forall|i: int, j: int|
            0 <= i < j < insert_ascending(s, e).len() ==> #[trigger] insert_ascending(s, e)[i]
                <= #[trigger] insert_ascending(s, e)[j],
    decreases s.len(),
{
    broadcast use vstd::seq_lib::group_to_multiset_ensures;

    if s.len() > 0 && s.last() > e {
        let u = s.drop_last();
        lemma_insert_ascending_sorted(u, e);
        lemma_insert_ascending_multiset(u, e);
        let w = insert_ascending(u, e);
        assert forall|k: int| 0 <= k < w.len() implies #[trigger] w[k] <= s.last() by {
            assert(w.contains(w[k]));
            assert(w.to_multiset().count(w[k]) > 0);
            if w[k] != e {
                assert(u.to_multiset().count(w[k]) > 0);
                assert(u.contains(w[k]));
                let m = choose|m: int| 0 <= m < u.len() && u[m] == w[k];
                assert(s[m] == u[m]);
            }
        }
        let r = w.push(s.last());
        assert forall|i: int, j: int| 0 <= i < j < r.len() implies #[trigger] r[i] <= #[trigger] r[j] by {
            if j < w.len() {
                assert(r[i] == w[i] && r[j] == w[j]);
            } else {
                assert(r[i] == w[i]);
            }
        }
    }
}

/// `sorted_ascending` holds the same elements, in ascending order.
pub proof fn lemma_sorted_ascending(s: Seq<u64>)
    ensures
        sorted_ascending(s).to_multiset() == s.to_multiset(),
        forall|i: int, j: int|
            0 <= i < j < sorted_ascending(s).len() ==> #[trigger] sorted_ascending(s)[i]
                <= #[trigger] sorted_ascending(s)[j],
    decreases s.len(),
{
    broadcast use vstd::seq_lib::group_to_multiset_ensures;

    if s.len() > 0 {
        lemma_sorted_ascending(s.drop_last());
        lemma_insert_ascending_multiset(sorted_ascending(s.drop_last()), s.last());
        lemma_insert_ascending_sorted(sorted_ascending(s.drop_last()), s.last());
        assert(s.drop_last().push(s.last()) =~= s);
    }
}

/// The element at index `len / 2` of `s` in ascending order.
pub open spec fn median(s: Seq<u64>) -> u64
    recommends
        s.len() > 0,
{
    sorted_ascending(s)[(s.len() / 2) as int]
}

/// The claims of `s`, in order.
pub open spec fn claims_of(s: Seq<(Name, u64)>) -> Seq<u64> {
    s.map_values(|e: (Name, u64)| e.1)
}

/// `s` with `sender`'s claim set to `claim`.
pub open spec fn upsert(s: Seq<(Name, u64)>, sender: Name, claim: u64) -> Seq<(Name, u64)> {
    if has_key(s, sender) {
        s.update(key_index(s, sender), (sender, claim))
    } else {
        s.push((sender, claim))
    }
}

/// The claims held for `request`; none when it is not pending.
pub open spec fn claims_for<K>(m: Map<K, Seq<(Name, u64)>>, request: K) -> Seq<(Name, u64)> {
    if m.contains_key(request) {
        m[request]
    } else {
        Seq::empty()
    }
}

/// Collects one claim per sender for each request; once `threshold` senders
/// have claimed, the request resolves to the median claim.
pub struct AccountSentinel<K> {
    requests: LruMap<K, Vec<(Name, u64)>>,
}

impl<K: LruKey> AccountSentinel<K> {
    /// The (sender, claim) pairs held for each pending request, one per
    /// sender.
    pub closed spec fn requests(&self) -> Map<K, Seq<(Name, u64)>> {
        self.requests.map().map_values(|v: Vec<(Name, u64)>| v@)
    }

    /// The pending requests, least recently used first.
    pub closed spec fn order(&self) -> Seq<K> {
        self.requests.order()
    }

    /// The request that a call for `k` would push out: the least recently
    /// used one, when `k` is not pending and `MAX_REQUEST_COUNT` requests are.
    pub open spec fn evicts(&self, k: K) -> Option<K> {
        evicted(self.order(), k, MAX_REQUEST_COUNT as nat)
    }

    pub closed spec fn parts_wf(&self) -> bool {
        &&& self.requests.wf()
        &&& self.requests.capacity() == MAX_REQUEST_COUNT
    }

    pub open spec fn wf(&self) -> bool {
        &&& self.parts_wf()
        &&& self.order().len() <= MAX_REQUEST_COUNT
        &&& self.order().no_duplicates()
        &&& forall|k: K| #[trigger] self.requests().contains_key(k) <==> self.order().contains(k)
        &&& forall|k: K| #[trigger] self.requests().contains_key(k) ==> keys_unique(self.requests()[k])
    }

    /// Keeps at most `MAX_REQUEST_COUNT` pending requests.
    pub fn new() -> (r: Self)
        ensures
            r.wf(),
            r.requests() == Map::<K, Seq<(Name, u64)>>::empty(),
            r.order() == Seq::<K>::empty(),
    {
        let r = AccountSentinel { requests: LruMap::new(MAX_REQUEST_COUNT) };
        assert(r.requests() =~= Map::<K, Seq<(Name, u64)>>::empty());
        r
    }

    /// Records `claim` as `sender`'s for `request`, replacing an earlier one.
    /// When `threshold` senders have then claimed, the request stops being
    /// pending and its median claim is handed back.
    pub fn add_claim(&mut self, threshold: usize, request: K, sender: Name, claim: u64) -> (r: Option<u64>)
        requires
            old(self).wf(),
        ensures
            final(self).wf(),
            ({
                let s = upsert(claims_for(old(self).requests(), request), sender, claim);
                let m = match old(self).evicts(request) {
                    Some(e) => old(self).requests().remove(e),
                    None => old(self).requests(),
                };
                if s.len() < threshold {
                    &&& r is None
                    &&& final(self).requests() == m.insert(request, s)
                    &&& final(self).order() == inserted(old(self).order(), request, MAX_REQUEST_COUNT as nat)
                } else {
                    &&& r == Some(median(claims_of(s)))
                    &&& final(self).requests() == old(self).requests().remove(request)
                    &&& final(self).order() == without(old(self).order(), request)
                }
            }),
    {
        let ghost m0 = self.requests.map();
        let ghost ev = self.requests.evicts(request);
        let held = self.requests.remove(&request);
        let mut claims = match held {
            Some(c) => c,
            None => Vec::new(),
        };
        proof {
            if m0.contains_key(request) {
                assert(old(self).requests().contains_key(request));
            }
            assert(claims@ == claims_for(old(self).requests(), request));
        }
        upsert_claim(&mut claims, sender, claim);
        if claims.len() < threshold {
            let ghost c = claims;
            self.requests.insert(request, claims);
            proof {
                let m1 = match ev {
                    Some(e) => m0.remove(e),
                    None => m0,
                };
                assert(self.requests.map() =~= m1.insert(request, c));
                assert(self.requests() =~= match old(self).evicts(request) {
                    Some(e) => old(self).requests().remove(e),
                    None => old(self).requests(),
                }.insert(request, c@));
            }
            None
        } else {
            let picked = pick_median(&claims);
            proof {
                assert(self.requests() =~= old(self).requests().remove(request));
            }
            picked
        }
    }
}

/// Sets `sender`'s claim in `claims` to `claim`.
fn upsert_claim(claims: &mut Vec<(Name, u64)>, sender: Name, claim: u64)
    requires
        keys_unique(old(claims)@),
    ensures
        final(claims)@ == upsert(old(claims)@, sender, claim),
        keys_unique(final(claims)@),
{
    let mut i: usize = 0;
    while i < claims.len()
        invariant
            i <= claims@.len(),
            claims@ == old(claims)@,
            keys_unique(claims@),
            forall|j: int| 0 <= j < i ==> claims@[j].0 != sender,
        decreases claims@.len() - i,
    {
        if claims[i].0 == sender {
            proof {
                lemma_key_index(claims@, i as int);
            }
            claims.set(i, (sender, claim));
            proof {
                let s = old(claims)@;
                assert forall|a: int, b: int|
                    0 <= a < claims@.len() && 0 <= b < claims@.len() && a != b implies (#[trigger] claims@[a]).0
                    != (#[trigger] claims@[b]).0 by {
                    assert(claims@[a].0 == s[a].0 && claims@[b].0 == s[b].0);
                }
            }
            return;
        }
        i = i + 1;
    }
    proof {
        assert(!has_key(claims@, sender));
        lemma_push(claims@, sender, claim);
    }
    claims.push((sender, claim));
}

/// The median of the claims: the one at index `len / 2` in ascending order.
fn pick_median(claims: &Vec<(Name, u64)>) -> (r: Option<u64>)
    ensures
        claims@.len() == 0 ==> r is None,
        claims@.len() > 0 ==> r == Some(median(claims_of(claims@))),
{
    if claims.len() == 0 {
        return None;
    }
    let ghost cs = claims_of(claims@);
    let mut sorted: Vec<u64> = Vec::new();
    let mut i: usize = 0;
    while i < claims.len()
        invariant
            i <= claims@.len(),
            cs == claims_of(claims@),
            sorted@ == sorted_ascending(cs.subrange(0, i as int)),
            sorted@.len() == i,
        decreases claims@.len() - i,
    {
        proof {
            let u = cs.subrange(0, i + 1);
            assert(u.drop_last() =~= cs.subrange(0, i as int));
            assert(u.last() == claims@[i as int].1);
            lemma_insert_ascending_len(sorted@, claims@[i as int].1);
        }
        insert_ascending_into(&mut sorted, claims[i].1);
        i = i + 1;
    }
    proof {
        assert(cs.subrange(0, i as int) =~= cs);
    }
    Some(sorted[sorted.len() / 2])
}

proof fn lemma_insert_ascending_len(s: Seq<u64>, e: u64)
    ensures
        insert_ascending(s, e).len() == s.len() + 1,
    decreases s.len(),
{
    if s.len() > 0 && s.last() > e {
        lemma_insert_ascending_len(s.drop_last(), e);
    }
}

/// Places `e` into the ascending `sorted` after every element not above it.
fn insert_ascending_into(sorted: &mut Vec<u64>, e: u64)
    ensures
        final(sorted)@ == insert_ascending(old(sorted)@, e),
{
    let ghost t = sorted@;
    let mut p: usize = sorted.len();
    proof {
        assert(t.subrange(0, p as int) =~= t);
        assert(insert_ascending(t, e) + t.subrange(p as int, t.len() as int) =~= insert_ascending(t, e));
    }
    let mut done = false;
    while p > 0 && !done
        invariant
            p <= sorted@.len(),
            sorted@ == t,
            insert_ascending(t, e) == insert_ascending(t.subrange(0, p as int), e) + t.subrange(p as int, t.len() as int),
            done ==> p > 0 && t[p - 1] <= e,
        decreases p + if done { 0int } else { 1int },
    {
        if sorted[p - 1] <= e {
            done = true;
        } else {
            proof {
                let u = t.subrange(0, p as int);
                assert(u.last() == t[p - 1]);
                assert(u.drop_last() =~= t.subrange(0, p - 1));
                assert(insert_ascending(u, e) == insert_ascending(t.subrange(0, p - 1), e).push(t[p - 1]));
                assert(insert_ascending(t.subrange(0, p - 1), e).push(t[p - 1]) + t.subrange(p as int, t.len() as int)
                    =~= insert_ascending(t.subrange(0, p - 1), e) + t.subrange(p - 1, t.len() as int));
            }
            p = p - 1;
        }
    }
    proof {
        let u = t.subrange(0, p as int);
        if p > 0 {
            assert(u.last() == t[p - 1]);
        }
        assert(insert_ascending(u, e) == u.push(e));
    }
    sorted.insert(p, e);
    proof {
        assert(sorted@ =~= t.subrange(0, p as int).push(e) + t.subrange(p as int, t.len() as int));
    }
}

} // verus!
