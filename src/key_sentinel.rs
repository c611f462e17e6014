//! Picking a group's identities once enough peers vouched for them.

use vstd::prelude::*;

use crate::key_store::{add_attester, compare_keys, with_attester};
use crate::lru::{evicted, inserted, without, LruKey, LruMap};
use crate::refresh_sentinel::MAX_REQUEST_COUNT;
use crate::statistics::{counted, insert_by_count, insert_sorted, sorted_by_count};
use crate::{Name, PublicKey};

verus! {

/// A member of a group: a name with its public signing key.
#[derive(Clone, Copy, Debug)]
pub struct Identity {
    pub name: Name,
    pub public_key: PublicKey,
}

impl View for Identity {
    type V = (Name, Seq<u8>);

    open spec fn view(&self) -> (Name, Seq<u8>) {
        (self.name, self.public_key.0@)
    }
}

/// Identities with the distinct peers that vouched for each, in order of
/// first mention.
pub type Votes = Seq<((Name, Seq<u8>), Seq<Name>)>;

/// The position of `id` in `t`, or `t.len()` when it is not there.
pub open spec fn id_position(t: Votes, id: (Name, Seq<u8>)) -> nat
    decreases t.len(),
{
    if t.len() == 0 {
        0
    } else if t[0].0 == id {
        0
    } else {
        1 + id_position(t.drop_first(), id)
    }
}

/// `t` after `sender` vouched for `id`. Nobody vouches for themself.
pub open spec fn vouch(t: Votes, id: (Name, Seq<u8>), sender: Name) -> Votes {
    let p = id_position(t, id) as int;
    if sender == id.0 {
        t
    } else if p < t.len() {
        t.update(p, (id, with_attester(t[p].1, sender)))
    } else {
        t.push((id, seq![sender]))
    }
}

/// `t` after `sender` vouched for each of `ids` in turn.
pub open spec fn vouch_all(t: Votes, ids: Seq<(Name, Seq<u8>)>, sender: Name) -> Votes
    decreases ids.len(),
{
    if ids.len() == 0 {
        t
    } else {
        vouch(vouch_all(t, ids.drop_last(), sender), ids.last(), sender)
    }
}

/// The identities of `t` that at least `q` peers vouched for, each with its
/// number of vouchers.
pub open spec fn cleared(t: Votes, q: nat) -> Seq<((Name, Seq<u8>), nat)>
    decreases t.len(),
{
    if t.len() == 0 {
        Seq::empty()
    } else {
        cleared(t.drop_last(), q) + if t.last().1.len() >= q {
            seq![(t.last().0, t.last().1.len())]
        } else {
            Seq::empty()
        }
    }
}

/// The votes held for `request`; none when it is not pending.
pub open spec fn votes_for<K>(m: Map<K, Votes>, request: K) -> Votes {
    if m.contains_key(request) {
        m[request]
    } else {
        Seq::empty()
    }
}

pub open spec fn votes_view(v: Seq<(Identity, Vec<Name>)>) -> Votes {
    v.map_values(|e: (Identity, Vec<Name>)| (e.0@, e.1@))
}

pub open spec fn identities_view(v: Seq<Identity>) -> Seq<(Name, Seq<u8>)> {
    v.map_values(|i: Identity| i@)
}

/// Each vouched identity's vouchers are distinct.
pub open spec fn votes_wf(t: Votes) -> bool {
    forall|i: int| 0 <= i < t.len() ==> (#[trigger] t[i]).1.no_duplicates()
}

/// Collects, per request, which peers vouch for which identities. A request
/// resolves once `claim_threshold` identities each have `keys_threshold`
/// vouchers; it then yields those identities, most vouched for first.
pub struct KeySentinel<K> {
    cache: LruMap<K, Vec<(Identity, Vec<Name>)>>,
    claim_threshold: usize,
    keys_threshold: usize,
}

impl<K: LruKey> KeySentinel<K> {
    /// The votes held for each pending request.
    pub closed spec fn votes(&self) -> Map<K, Votes> {
        self.cache.map().map_values(|v: Vec<(Identity, Vec<Name>)>| votes_view(v@))
    }

    pub closed spec fn claim_threshold(&self) -> nat {
        self.claim_threshold as nat
    }

    pub closed spec fn keys_threshold(&self) -> nat {
        self.keys_threshold as nat
    }

    /// The pending requests, least recently used first.
    pub closed spec fn order(&self) -> Seq<K> {
        self.cache.order()
    }

    /// The request that a call for `k` would push out: the least recently
    /// used one, when `k` is not pending and `MAX_REQUEST_COUNT` requests are.
    pub open spec fn evicts(&self, k: K) -> Option<K> {
        evicted(self.order(), k, MAX_REQUEST_COUNT as nat)
    }

    pub closed spec fn parts_wf(&self) -> bool {
        &&& self.cache.wf()
        &&& self.cache.capacity() == MAX_REQUEST_COUNT
    }

    pub open spec fn wf(&self) -> bool {
        &&& self.parts_wf()
        &&& self.order().len() <= MAX_REQUEST_COUNT
        &&& self.order().no_duplicates()
        &&& forall|k: K| #[trigger] self.votes().contains_key(k) <==> self.order().contains(k)
        &&& forall|k: K| #[trigger] self.votes().contains_key(k) ==> votes_wf(self.votes()[k])
    }

    /// Keeps at most `MAX_REQUEST_COUNT` pending requests.
    pub fn new(claim_threshold: usize, keys_threshold: usize) -> (r: Self)
        ensures
            r.wf(),
            r.votes() == Map::<K, Votes>::empty(),
            r.order() == Seq::<K>::empty(),
            r.claim_threshold() == claim_threshold,
            r.keys_threshold() == keys_threshold,
    {
        let r = KeySentinel { cache: LruMap::new(MAX_REQUEST_COUNT), claim_threshold, keys_threshold };
        assert(r.votes() =~= Map::<K, Votes>::empty());
        r
    }

    /// Records that `sender` vouches for each of `identities`. When
    /// `claim_threshold` identities of the request then have `keys_threshold`
    /// vouchers each, the request stops being pending and those identities are
    /// handed back, most vouched for first (ties in order of first mention).
    pub fn add_identities(&mut self, request: K, sender: Name, identities: Vec<Identity>) -> (r: Option<(K, Vec<Identity>)>)
        requires
            old(self).wf(),
        ensures
            final(self).wf(),
            final(self).claim_threshold() == old(self).claim_threshold(),
            final(self).keys_threshold() == old(self).keys_threshold(),
            ({
                let t = vouch_all(votes_for(old(self).votes(), request), identities_view(identities@), sender);
                let c = cleared(t, old(self).keys_threshold());
                if c.len() >= old(self).claim_threshold() {
                    &&& r is Some
                    &&& r.unwrap().0 == request
                    &&& identities_view(r.unwrap().1@) == sorted_by_count(c).map_values(
                        |e: ((Name, Seq<u8>), nat)| e.0,
                    )
                    &&& final(self).votes() == old(self).votes().remove(request)
                    &&& final(self).order() == without(old(self).order(), request)
                } else {
                    &&& final(self).order() == inserted(old(self).order(), request, MAX_REQUEST_COUNT as nat)
                    &&& r is None
                    &&& final(self).votes() == match old(self).evicts(request) {
                        Some(e) => old(self).votes().remove(e),
                        None => old(self).votes(),
                    }.insert(request, t)
                }
            }),
    {
        let ghost m0 = self.cache.map();
        let ghost ev = self.cache.evicts(request);
        let ghost iv = identities_view(identities@);
        let held = self.cache.remove(&request);
        let mut votes = match held {
            Some(v) => v,
            None => Vec::new(),
        };
        proof {
            if m0.contains_key(request) {
                assert(old(self).votes().contains_key(request));
            } else {
                assert(votes_view(votes@) =~= Seq::<((Name, Seq<u8>), Seq<Name>)>::empty());
            }
            assert(votes_view(votes@) == votes_for(old(self).votes(), request));
        }
        let mut i: usize = 0;
        while i < identities.len()
            invariant
                i <= identities@.len(),
                iv == identities_view(identities@),
                votes_wf(votes_view(votes@)),
                votes_view(votes@) == vouch_all(votes_for(old(self).votes(), request), iv.subrange(0, i as int), sender),
            decreases identities@.len() - i,
        {
            proof {
                let u = iv.subrange(0, i + 1);
                assert(u.drop_last() =~= iv.subrange(0, i as int));
                assert(u.last() == identities@[i as int]@);
            }
            add_vouch(&mut votes, identities[i], sender);
            i = i + 1;
        }
        proof {
            assert(iv.subrange(0, i as int) =~= iv);
        }
        let picked = try_selecting_group(&votes, self.claim_threshold, self.keys_threshold);
        match picked {
            Some(ids) => {
                proof {
                    assert(self.votes() =~= old(self).votes().remove(request));
                }
                Some((request, ids))
            },
            None => {
                let ghost v = votes;
                self.cache.insert(request, votes);
                proof {
                    let m1 = match ev {
                        Some(e) => m0.remove(e),
                        None => m0,
                    };
                    assert(self.cache.map() =~= m1.insert(request, v));
                    assert(self.votes() =~= match old(self).evicts(request) {
                        Some(e) => old(self).votes().remove(e),
                        None => old(self).votes(),
                    }.insert(request, votes_view(v@)));
                }
                None
            },
        }
    }
}

/// Whether two identities are the same name with the same key.
fn same_identity(a: &Identity, b: &Identity) -> (r: bool)
    ensures
        r == (a@ == b@),
{
    if a.name != b.name {
        return false;
    }
    matches!(compare_keys(&a.public_key, &b.public_key), core::cmp::Ordering::Equal)
}

/// Records that `sender` vouches for `id`.
fn add_vouch(votes: &mut Vec<(Identity, Vec<Name>)>, id: Identity, sender: Name)
    requires
        votes_wf(votes_view(old(votes)@)),
    ensures
        votes_view(final(votes)@) == vouch(votes_view(old(votes)@), id@, sender),
        votes_wf(votes_view(final(votes)@)),
{
    if sender == id.name {
        return;
    }
    let ghost t = votes_view(votes@);
    let mut i: usize = 0;
    let mut found = false;
    while i < votes.len() && !found
        invariant
            i <= votes@.len(),
            t == votes_view(votes@),
            forall|j: int| 0 <= j < i ==> t[j].0 != id@,
            found ==> i < votes@.len() && t[i as int].0 == id@,
        decreases votes@.len() - i + if found { 0int } else { 1int },
    {
        assert(t[i as int] == (votes@[i as int].0@, votes@[i as int].1@));
        if same_identity(&votes[i].0, &id) {
            found = true;
        } else {
            i = i + 1;
        }
    }
    if found {
        proof {
            lemma_id_position_at(t, id@, i as int);
            assert(t[i as int] == (votes@[i as int].0@, votes@[i as int].1@));
        }
        let (member, mut vouchers) = votes.remove(i);
        proof {
            assert(vouchers@ == t[i as int].1);
            assert(vouchers@.no_duplicates());
        }
        add_attester(&mut vouchers, sender);
        votes.insert(i, (member, vouchers));
        proof {
            assert(votes_view(votes@) =~= t.update(i as int, (id@, with_attester(t[i as int].1, sender))));
        }
    } else {
        proof {
            lemma_id_position_absent(t, id@);
        }
        let mut vouchers: Vec<Name> = Vec::new();
        vouchers.push(sender);
        votes.push((id, vouchers));
        proof {
            assert(vouchers@ =~= seq![sender]);
            assert(votes_view(votes@) =~= t.push((id@, seq![sender])));
        }
    }
}

/// The identities with at least `keys_threshold` vouchers, most vouched for
/// first, when there are at least `claim_threshold` of them.
fn try_selecting_group(votes: &Vec<(Identity, Vec<Name>)>, claim_threshold: usize, keys_threshold: usize) -> (r: Option<Vec<Identity>>)
    ensures
        ({
            let c = cleared(votes_view(votes@), keys_threshold as nat);
            &&& r.is_some() == (c.len() >= claim_threshold)
            &&& r.is_some() ==> identities_view(r.unwrap()@) == sorted_by_count(c).map_values(
                |e: ((Name, Seq<u8>), nat)| e.0,
            )
        }),
{
    let ghost t = votes_view(votes@);
    let mut sorted: Vec<(Identity, usize)> = Vec::new();
    let mut i: usize = 0;
    while i < votes.len()
        invariant
            i <= votes@.len(),
            t == votes_view(votes@),
            counted(sorted@) == sorted_by_count(cleared(t.subrange(0, i as int), keys_threshold as nat)),
            sorted@.len() == cleared(t.subrange(0, i as int), keys_threshold as nat).len(),
        decreases votes@.len() - i,
    {
        let ghost c0 = cleared(t.subrange(0, i as int), keys_threshold as nat);
        proof {
            let u = t.subrange(0, i + 1);
            assert(u.drop_last() =~= t.subrange(0, i as int));
            assert(u.last() == (votes@[i as int].0@, votes@[i as int].1@));
        }
        let n = votes[i].1.len();
        if n >= keys_threshold {
            proof {
                let x = (votes@[i as int].0@, n as nat);
                assert(cleared(t.subrange(0, i + 1), keys_threshold as nat) =~= c0.push(x));
                assert(c0.push(x).drop_last() =~= c0);
                assert(c0.push(x).last() == x);
                assert(sorted_by_count(c0.push(x)) == insert_by_count(sorted_by_count(c0), x));
                lemma_insert_by_count_len(counted(sorted@), x);
            }
            insert_sorted(&mut sorted, (votes[i].0, n));
        } else {
            proof {
                assert(cleared(t.subrange(0, i + 1), keys_threshold as nat) =~= c0);
            }
        }
        i = i + 1;
    }
    proof {
        assert(t.subrange(0, i as int) =~= t);
    }
    if sorted.len() < claim_threshold {
        return None;
    }
    let mut ids: Vec<Identity> = Vec::new();
    let mut k: usize = 0;
    while k < sorted.len()
        invariant
            k <= sorted@.len(),
            ids@.len() == k,
            identities_view(ids@) == counted(sorted@).subrange(0, k as int).map_values(
                |e: ((Name, Seq<u8>), nat)| e.0,
            ),
        decreases sorted@.len() - k,
    {
        let ghost ids0 = ids@;
        ids.push(sorted[k].0);
        proof {
            assert forall|j: int| 0 <= j < k + 1 implies #[trigger] identities_view(ids@)[j] == counted(sorted@).subrange(0, k + 1).map_values(
                |e: ((Name, Seq<u8>), nat)| e.0,
            )[j] by {
                if j < k {
                    assert(ids@[j] == ids0[j]);
                    assert(identities_view(ids0)[j] == counted(sorted@).subrange(0, k as int).map_values(
                        |e: ((Name, Seq<u8>), nat)| e.0,
                    )[j]);
                }
            }
            assert(identities_view(ids@) =~= counted(sorted@).subrange(0, k + 1).map_values(
                |e: ((Name, Seq<u8>), nat)| e.0,
            ));
        }
        k = k + 1;
    }
    proof {
        assert(counted(sorted@).subrange(0, k as int) =~= counted(sorted@));
    }
    Some(ids)
}

proof fn lemma_insert_by_count_len<T>(t: Seq<(T, nat)>, e: (T, nat))
    ensures
        insert_by_count(t, e).len() == t.len() + 1,
    decreases t.len(),
{
    if t.len() > 0 && t.last().1 < e.1 {
        lemma_insert_by_count_len(t.drop_last(), e);
    }
}

/// Where `id_position` stops on an entry, that entry holds `id`.
pub proof fn lemma_id_position_at(t: Votes, id: (Name, Seq<u8>), i: int)
    requires
        0 <= i < t.len(),
        t[i].0 == id,
        forall|j: int| 0 <= j < i ==> t[j].0 != id,
    ensures
        id_position(t, id) == i,
    decreases i,
{
    if i > 0 {
        assert forall|j: int| 0 <= j < i - 1 implies t.drop_first()[j].0 != id by {
            assert(t.drop_first()[j] == t[j + 1]);
        }
        lemma_id_position_at(t.drop_first(), id, i - 1);
    }
}

/// `id_position` is `t.len()` when no entry holds `id`.
pub proof fn lemma_id_position_absent(t: Votes, id: (Name, Seq<u8>))
    requires
        forall|j: int| 0 <= j < t.len() ==> t[j].0 != id,
    ensures
        id_position(t, id) == t.len(),
    decreases t.len(),
{
    if t.len() > 0 {
        assert forall|j: int| 0 <= j < t.drop_first().len() implies t.drop_first()[j].0 != id by {
            assert(t.drop_first()[j] == t[j + 1]);
        }
        lemma_id_position_absent(t.drop_first(), id);
    }
}

} // verus!
