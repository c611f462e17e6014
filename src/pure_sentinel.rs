//! The resolver: signed claims and attested keys for a request are collected
//! until enough independently signed, identical claims can be verified.

use vstd::prelude::*;

use crate::crypto::{signature_valid, verify_signature};
use crate::key_store::{attested_all, keys_view, quorate, table_of, KeyStore, KeyTable};
use crate::lru::{evicted, inserted, touched, without};
use crate::refresh_sentinel::{clones, values_of, RefreshSentinel};
use crate::statistics::{
    first_reaching_of, lemma_first_reaching, lemma_sorted_by_count, lemma_tally_counts, occurrences, sorted_by_count,
    tally, view_entries, Frequency,
};
use crate::request::{Request, Source};
use crate::{Name, PublicKey, SerialisedClaim, Signature};

verus! {

/// A claim as it was submitted: who made it, their signature, and the body.
pub struct Submission {
    pub claimant: Name,
    pub signature: Signature,
    pub body: SerialisedClaim,
}

impl View for Submission {
    type V = (Name, Seq<u8>, Seq<u8>);

    open spec fn view(&self) -> (Name, Seq<u8>, Seq<u8>) {
        (self.claimant, self.signature.0@, self.body@)
    }
}

impl Clone for Submission {
    fn clone(&self) -> (r: Self)
        ensures
            r@ == self@,
    {
        let body = self.body.clone();
        proof { assert(body@ =~= self.body@); }
        Submission { claimant: self.claimant, signature: self.signature, body }
    }
}

/// What a call into the resolver asks of its caller, or hands back.
pub enum AddResult {
    /// Public keys should be solicited from the group around this name.
    RequestKeys(Name),
    /// The request has resolved to this claim body.
    Resolved(Request, SerialisedClaim),
}

pub open spec fn submissions_view(s: Seq<Submission>) -> Seq<(Name, Seq<u8>, Seq<u8>)> {
    s.map_values(|x: Submission| x@)
}

pub open spec fn attestations_view(s: Seq<(Name, PublicKey)>) -> Seq<(Name, Seq<u8>)> {
    s.map_values(|e: (Name, PublicKey)| (e.0, e.1.0@))
}

pub open spec fn bodies_view(s: Seq<SerialisedClaim>) -> Seq<Seq<u8>> {
    s.map_values(|b: SerialisedClaim| b@)
}

/// Some key that at least `kq` peers vouched for as the claimant's verifies
/// the submission's signature over its body.
pub open spec fn verified(keys: Map<Name, KeyTable>, s: (Name, Seq<u8>, Seq<u8>), kq: nat) -> bool {
    let ks = quorate(table_of(keys, s.0), kq);
    exists|i: int| 0 <= i < ks.len() && signature_valid(s.1, s.2, #[trigger] ks[i])
}

/// The bodies of the verified submissions, in order of submission.
pub open spec fn verified_bodies(keys: Map<Name, KeyTable>, subs: Seq<(Name, Seq<u8>, Seq<u8>)>, kq: nat) -> Seq<Seq<u8>>
    decreases subs.len(),
{
    if subs.len() == 0 {
        Seq::empty()
    } else {
        verified_bodies(keys, subs.drop_last(), kq) + if verified(keys, subs.last(), kq) {
            seq![subs.last().2]
        } else {
            Seq::empty()
        }
    }
}

/// The body agreed on by at least `q` of `bodies`: the most frequent one,
/// the earliest of those tied for most frequent.
pub open spec fn squashed(bodies: Seq<Seq<u8>>, q: nat) -> Option<Seq<u8>> {
    if bodies.len() < q {
        None
    } else {
        first_reaching_of(sorted_by_count(tally(bodies)), q)
    }
}

/// What the submissions resolve to, with keys that `kq` peers vouched for and
/// `cq` identical verified claims.
pub open spec fn resolution(keys: Map<Name, KeyTable>, subs: Seq<(Name, Seq<u8>, Seq<u8>)>, cq: nat, kq: nat) -> Option<Seq<u8>> {
    squashed(verified_bodies(keys, subs, kq), cq)
}

/// `b` is the resolver `a` after submission `s` for `request` was added with
/// claim quorum `cq` and key quorum `kq`, and `r` is what the call handed back.
/// The submission joins the request's pending ones; when these reach `cq` and
/// resolve, the request stops being pending and `r` is `Resolved` with the
/// agreed body. Otherwise `r` asks for keys when the request was not pending
/// before, and is `None` when it was.
pub open spec fn claim_outcome(
    a: PureSentinel,
    b: PureSentinel,
    request: Request,
    s: (Name, Seq<u8>, Seq<u8>),
    r: Option<AddResult>,
    cq: nat,
    kq: nat,
) -> bool {
    let subs = values_of(a.pending(), request).push(s);
    let res = if subs.len() >= cq {
        resolution(a.keys(), subs, cq, kq)
    } else {
        None
    };
    &&& b.wf()
    &&& b.capacity() == a.capacity()
    &&& b.keys() == a.keys()
    &&& b.store().size() == a.store().size()
    &&& b.order() == if res is Some {
        without(inserted(a.order(), request, a.capacity()), request)
    } else {
        inserted(a.order(), request, a.capacity())
    }
    &&& b.pending() == if res is Some {
        a.pending_after_add(request, s).remove(request)
    } else {
        a.pending_after_add(request, s)
    }
    &&& match r {
        Some(AddResult::Resolved(q, body)) => res == Some(body@) && q == request,
        Some(AddResult::RequestKeys(n)) => res is None && !a.pending().contains_key(request) && n
            == request.source,
        None => res is None && a.pending().contains_key(request),
    }
}

/// `b` is the resolver `a` after `sender` attested the (target, key) pairs
/// `keys` for `request`, and `r` is what the call handed back. Keys for a
/// request that is not pending change nothing. Otherwise they are recorded,
/// and when the pending submissions then resolve with claim quorum `cq` and
/// key quorum `kq`, `r` holds the request and the agreed body and the request
/// stops being pending.
pub open spec fn keys_outcome(
    a: PureSentinel,
    b: PureSentinel,
    request: Request,
    sender: Name,
    keys: Seq<(Name, Seq<u8>)>,
    r: Option<(Request, SerialisedClaim)>,
    cq: nat,
    kq: nat,
) -> bool {
    &&& b.wf()
    &&& b.capacity() == a.capacity()
    &&& !a.pending().contains_key(request) ==> r is None && b == a
    &&& a.pending().contains_key(request) ==> {
        &&& attested_all(a.store(), sender, keys, b.keys(), b.store().size())
        &&& match resolution(b.keys(), a.pending()[request], cq, kq) {
            Some(body) => r is Some && r.unwrap().0 == request && r.unwrap().1@ == body && b.pending()
                == a.pending().remove(request) && b.order() == without(touched(a.order(), request), request),
            None => r is None && b.pending() == a.pending() && b.order() == touched(a.order(), request),
        }
    }
}

/// No request resolves before it holds at least `cq` submissions: a claim
/// that leaves fewer than `cq` pending for its request never resolves it.
pub proof fn lemma_no_early_resolution(
    a: PureSentinel,
    b: PureSentinel,
    request: Request,
    s: (Name, Seq<u8>, Seq<u8>),
    r: Option<AddResult>,
    cq: nat,
    kq: nat,
)
    requires
        claim_outcome(a, b, request, s, r, cq, kq),
        values_of(a.pending(), request).len() + 1 < cq,
    ensures
        !(r matches Some(AddResult::Resolved(_, _))),
{
}

/// A claim is only verified through a key that at least `kq` distinct peers
/// vouched for as its claimant's.
pub proof fn lemma_verification_needs_vouched_key(keys: Map<Name, KeyTable>, s: (Name, Seq<u8>, Seq<u8>), kq: nat)
    requires
        forall|t: Name| #[trigger] keys.contains_key(t) ==> crate::key_store::table_wf(keys[t]),
        verified(keys, s, kq),
    ensures
        exists|j: int|
            0 <= j < table_of(keys, s.0).len() && #[trigger] table_of(keys, s.0)[j].1.len() >= kq
                && table_of(keys, s.0)[j].1.no_duplicates() && signature_valid(s.1, s.2, table_of(keys, s.0)[j].0),
{
    let t = table_of(keys, s.0);
    let ks = quorate(t, kq);
    let i = choose|i: int| 0 <= i < ks.len() && signature_valid(s.1, s.2, #[trigger] ks[i]);
    crate::key_store::lemma_quorate_vouched(t, kq, i);
    let j = choose|j: int| 0 <= j < t.len() && #[trigger] t[j].0 == ks[i] && t[j].1.len() >= kq;
    if keys.contains_key(s.0) {
        assert(crate::key_store::table_wf(keys[s.0]));
    }
    assert(t[j].1.no_duplicates());
}

/// How many of `subs` carry body `b` and verify.
pub open spec fn verified_count(keys: Map<Name, KeyTable>, subs: Seq<(Name, Seq<u8>, Seq<u8>)>, kq: nat, b: Seq<u8>) -> nat
    decreases subs.len(),
{
    if subs.len() == 0 {
        0
    } else {
        verified_count(keys, subs.drop_last(), kq, b) + if verified(keys, subs.last(), kq) && subs.last().2 == b {
            1nat
        } else {
            0nat
        }
    }
}

/// The verified bodies hold `b` once for each verified submission of it.
pub proof fn lemma_verified_count(keys: Map<Name, KeyTable>, subs: Seq<(Name, Seq<u8>, Seq<u8>)>, kq: nat, b: Seq<u8>)
    ensures
        occurrences(verified_bodies(keys, subs, kq), b) == verified_count(keys, subs, kq, b),
    decreases subs.len(),
{
    if subs.len() > 0 {
        lemma_verified_count(keys, subs.drop_last(), kq, b);
        let vb = verified_bodies(keys, subs.drop_last(), kq);
        if verified(keys, subs.last(), kq) {
            let w = vb + seq![subs.last().2];
            assert(w.drop_last() =~= vb);
        } else {
            assert(vb + Seq::<Seq<u8>>::empty() =~= vb);
        }
    }
}

/// A request only resolves to a body that at least `cq` of its submissions
/// carry, each verified through a key that at least `kq` peers vouched for.
pub proof fn lemma_resolution_backed(keys: Map<Name, KeyTable>, subs: Seq<(Name, Seq<u8>, Seq<u8>)>, cq: nat, kq: nat)
    requires
        resolution(keys, subs, cq, kq) is Some,
    ensures
        verified_count(keys, subs, kq, resolution(keys, subs, cq, kq).unwrap()) >= cq,
{
    broadcast use vstd::seq_lib::group_to_multiset_ensures;

    let bodies = verified_bodies(keys, subs, kq);
    let b = resolution(keys, subs, cq, kq).unwrap();
    let t = tally(bodies);
    let st = sorted_by_count(t);
    lemma_first_reaching(st, cq);
    let i = choose|i: int| 0 <= i < st.len() && #[trigger] st[i].0 == b && st[i].1 >= cq;
    lemma_sorted_by_count(t);
    assert(st.contains(st[i]));
    assert(st.to_multiset().count(st[i]) > 0);
    assert(t.contains(st[i]));
    let j = choose|j: int| 0 <= j < t.len() && t[j] == st[i];
    lemma_tally_counts(bodies);
    assert(t[j].1 == occurrences(bodies, t[j].0));
    lemma_verified_count(keys, subs, kq, b);
}

/// With no keys attested, nothing verifies and no claim resolves a request.
pub proof fn lemma_no_keys_no_resolution(
    a: PureSentinel,
    b: PureSentinel,
    request: Request,
    s: (Name, Seq<u8>, Seq<u8>),
    r: Option<AddResult>,
    cq: nat,
    kq: nat,
)
    requires
        claim_outcome(a, b, request, s, r, cq, kq),
        a.keys() == Map::<Name, KeyTable>::empty(),
    ensures
        !(r matches Some(AddResult::Resolved(_, _))),
{
    let subs = values_of(a.pending(), request).push(s);
    lemma_nothing_verifies(a.keys(), subs, kq);
    assert(tally(Seq::<Seq<u8>>::empty()) == Seq::<(Seq<u8>, nat)>::empty());
}

/// Without a table for any target, no submission verifies.
proof fn lemma_nothing_verifies(keys: Map<Name, KeyTable>, subs: Seq<(Name, Seq<u8>, Seq<u8>)>, kq: nat)
    requires
        keys == Map::<Name, KeyTable>::empty(),
    ensures
        verified_bodies(keys, subs, kq) == Seq::<Seq<u8>>::empty(),
    decreases subs.len(),
{
    if subs.len() > 0 {
        lemma_nothing_verifies(keys, subs.drop_last(), kq);
        assert(quorate(table_of(keys, subs.last().0), kq) == Seq::<Seq<u8>>::empty());
        assert(Seq::<Seq<u8>>::empty() + Seq::<Seq<u8>>::empty() =~= Seq::<Seq<u8>>::empty());
    }
}

/// Keys for a request that is not pending change nothing.
pub proof fn lemma_unsolicited_keys_ignored(
    a: PureSentinel,
    b: PureSentinel,
    request: Request,
    sender: Name,
    keys: Seq<(Name, Seq<u8>)>,
    r: Option<(Request, SerialisedClaim)>,
    cq: nat,
    kq: nat,
)
    requires
        keys_outcome(a, b, request, sender, keys, r, cq, kq),
        !a.pending().contains_key(request),
    ensures
        r is None,
        b == a,
{
}

/// A request that resolves stops being pending, so keys that arrive for it
/// afterwards resolve nothing until a fresh claim is made.
pub proof fn lemma_resolved_request_removed(
    a: PureSentinel,
    b: PureSentinel,
    c: PureSentinel,
    request: Request,
    s: (Name, Seq<u8>, Seq<u8>),
    r: Option<AddResult>,
    sender: Name,
    keys: Seq<(Name, Seq<u8>)>,
    r2: Option<(Request, SerialisedClaim)>,
    cq: nat,
    kq: nat,
    cq2: nat,
    kq2: nat,
)
    requires
        claim_outcome(a, b, request, s, r, cq, kq),
        r matches Some(AddResult::Resolved(_, _)),
        keys_outcome(b, c, request, sender, keys, r2, cq2, kq2),
    ensures
        !b.pending().contains_key(request),
        r2 is None,
        c == b,
{
    assert(!b.pending().contains_key(request));
}

/// The first claim for a request that is not pending asks for keys from the
/// request's source, unless it resolves the request at once; a later claim
/// for it does not ask again while it stays pending.
pub proof fn lemma_first_sighting(
    a: PureSentinel,
    b: PureSentinel,
    c: PureSentinel,
    request: Request,
    s1: (Name, Seq<u8>, Seq<u8>),
    s2: (Name, Seq<u8>, Seq<u8>),
    r1: Option<AddResult>,
    r2: Option<AddResult>,
    cq: nat,
    kq: nat,
    cq2: nat,
    kq2: nat,
)
    requires
        claim_outcome(a, b, request, s1, r1, cq, kq),
        claim_outcome(b, c, request, s2, r2, cq2, kq2),
        !a.pending().contains_key(request),
        !(r1 matches Some(AddResult::Resolved(_, _))),
    ensures
        r1 == Some(AddResult::RequestKeys(request.source)),
        !(r2 matches Some(AddResult::RequestKeys(_))),
{
    assert(b.pending().contains_key(request));
}

/// A resolver never holds more pending requests than its capacity.
pub proof fn lemma_bounded_memory(a: PureSentinel)
    requires
        a.wf(),
    ensures
        a.size() <= a.capacity(),
{
}

/// Cloned submissions read the same.
pub proof fn lemma_clones_view(a: Seq<Submission>, b: Seq<Submission>)
    requires
        clones(a, b),
    ensures
        submissions_view(a) == submissions_view(b),
{
    assert forall|i: int| 0 <= i < a.len() implies submissions_view(a)[i] == submissions_view(b)[i] by {
        assert(cloned::<Submission>(a[i], b[i]));
    }
    assert(submissions_view(a) =~= submissions_view(b));
}

/// Collects signed claims and attested keys per request, and resolves a
/// request once enough identical claims verify against keys that enough peers
/// vouched for.
pub struct PureSentinel {
    claim_accumulator: RefreshSentinel<Request, Submission>,
    key_store: KeyStore,
}

impl PureSentinel {
    /// The submissions held for each pending request, in order of arrival.
    pub closed spec fn pending(&self) -> Map<Request, Seq<(Name, Seq<u8>, Seq<u8>)>> {
        self.claim_accumulator.map().map_values(|s: Seq<Submission>| submissions_view(s))
    }

    /// The attested keys of each target.
    pub open spec fn keys(&self) -> Map<Name, KeyTable> {
        self.store().targets()
    }

    /// The key store.
    pub closed spec fn store(&self) -> KeyStore {
        self.key_store
    }

    /// How many requests may be pending at once.
    pub closed spec fn capacity(&self) -> nat {
        self.claim_accumulator.capacity()
    }

    /// The pending requests, least recently used first.
    pub closed spec fn order(&self) -> Seq<Request> {
        self.claim_accumulator.order()
    }

    /// How many requests are pending.
    pub open spec fn size(&self) -> nat {
        self.order().len()
    }

    /// The request that a claim for `r` would push out: the least recently
    /// used one, when `r` is not pending and the resolver is full.
    pub open spec fn evicts(&self, r: Request) -> Option<Request> {
        evicted(self.order(), r, self.capacity())
    }

    pub closed spec fn parts_wf(&self) -> bool {
        &&& self.claim_accumulator.wf()
        &&& self.key_store.wf()
    }

    pub open spec fn wf(&self) -> bool {
        &&& self.parts_wf()
        &&& self.store().wf()
        &&& 1 <= self.capacity()
        &&& self.size() <= self.capacity()
        &&& self.order().no_duplicates()
        &&& forall|r: Request| #[trigger] self.pending().contains_key(r) <==> self.order().contains(r)
    }

    /// The pending submissions once `s` is added for `request`.
    pub open spec fn pending_after_add(&self, request: Request, s: (Name, Seq<u8>, Seq<u8>)) -> Map<Request, Seq<(Name, Seq<u8>, Seq<u8>)>> {
        match self.evicts(request) {
            Some(e) => self.pending().remove(e),
            None => self.pending(),
        }.insert(request, values_of(self.pending(), request).push(s))
    }

    /// Keeps at most `MAX_REQUEST_COUNT` pending requests.
    pub fn new() -> (r: PureSentinel)
        ensures
            r.wf(),
            r.pending() == Map::<Request, Seq<(Name, Seq<u8>, Seq<u8>)>>::empty(),
            r.keys() == Map::<Name, KeyTable>::empty(),
            r.capacity() == crate::refresh_sentinel::MAX_REQUEST_COUNT,
    {
        Self::with_capacity(crate::refresh_sentinel::MAX_REQUEST_COUNT)
    }

    /// Keeps at most `max_request_count` pending requests.
    pub fn with_capacity(max_request_count: usize) -> (r: PureSentinel)
        requires
            1 <= max_request_count,
        ensures
            r.wf(),
            r.pending() == Map::<Request, Seq<(Name, Seq<u8>, Seq<u8>)>>::empty(),
            r.keys() == Map::<Name, KeyTable>::empty(),
            r.capacity() == max_request_count,
    {
        let r = PureSentinel {
            claim_accumulator: RefreshSentinel::with_capacity(0, max_request_count),
            key_store: KeyStore::new(0),
        };
        assert(r.pending() =~= Map::<Request, Seq<(Name, Seq<u8>, Seq<u8>)>>::empty());
        r
    }

    /// Adds a signed claim for `request`, needing `quorum_size` identical
    /// verified claims and `quorum_size` peers behind each key.
    ///
    /// Hands back `Resolved` when the request resolves with this claim; else
    /// `RequestKeys` with the request's source the first time the request is
    /// seen, so that keys can be solicited; else nothing.
    pub fn add_claim(
        &mut self,
        request: Request,
        claimant: Name,
        signature: Signature,
        claim: SerialisedClaim,
        quorum_size: usize,
    ) -> (r: Option<AddResult>)
        requires
            old(self).wf(),
        ensures
            final(self).wf(),
            final(self).capacity() == old(self).capacity(),
            final(self).keys() == old(self).keys(),
            claim_outcome(*old(self), *final(self), request, (claimant, signature.0@, claim@), r, quorum_size as nat, quorum_size as nat),
    {
        self.add_claim_with(request, claimant, signature, claim, quorum_size, quorum_size)
    }

    /// `add_claim` with separate quorums for claims and for keys.
    pub(crate) fn add_claim_with(
        &mut self,
        request: Request,
        claimant: Name,
        signature: Signature,
        claim: SerialisedClaim,
        claim_quorum: usize,
        key_quorum: usize,
    ) -> (r: Option<AddResult>)
        requires
            old(self).wf(),
        ensures
            final(self).wf(),
            final(self).capacity() == old(self).capacity(),
            final(self).keys() == old(self).keys(),
            claim_outcome(*old(self), *final(self), request, (claimant, signature.0@, claim@), r, claim_quorum as nat, key_quorum as nat),
    {
        let ghost held0 = self.pending();
        let ghost sub = (claimant, signature.0@, claim@);
        let saw_first_time = !self.claim_accumulator.contains_key(&request);
        self.claim_accumulator.set_quorum(claim_quorum);
        let submission = Submission { claimant, signature, body: claim };
        let ghost old_acc = self.claim_accumulator.map();
        proof {
            assert(values_of(old_acc, request).push(submission).map_values(|x: Submission| x@)
                =~= values_of(held0, request).push(sub)) by {
                if old_acc.contains_key(request) {
                    assert(held0.contains_key(request));
                }
            }
        }
        let added = self.claim_accumulator.add(request, submission);
        proof {
            assert(self.pending() =~= old(self).pending_after_add(request, sub));
        }
        let resolved = match added {
            Some((req, claims)) => {
                proof {
                    lemma_clones_view(values_of(old_acc, request).push(submission), claims@);
                }
                self.resolve(req, claims, claim_quorum, key_quorum)
            },
            None => None,
        };
        match resolved {
            Some((req, body)) => Some(AddResult::Resolved(req, body)),
            None => {
                if saw_first_time {
                    Some(AddResult::RequestKeys(request.get_source()))
                } else {
                    None
                }
            },
        }
    }

    /// Adds the keys that `sender` attests to, as (target, key) pairs, for a
    /// pending request, then tries to resolve it with `quorum_size` identical
    /// verified claims and `quorum_size` peers behind each key. Keys for a
    /// request that is not pending are dropped unread.
    pub fn add_keys(&mut self, request: Request, sender: Name, keys: Vec<(Name, PublicKey)>, quorum_size: usize) -> (r: Option<(Request, SerialisedClaim)>)
        requires
            old(self).wf(),
        ensures
            final(self).wf(),
            final(self).capacity() == old(self).capacity(),
            keys_outcome(*old(self), *final(self), request, sender, attestations_view(keys@), r, quorum_size as nat, quorum_size as nat),
    {
        self.add_keys_with(request, sender, keys, quorum_size, quorum_size)
    }
    /// `add_keys` with separate quorums for claims and for keys.
    pub(crate) fn add_keys_with(
        &mut self,
        request: Request,
        sender: Name,
        keys: Vec<(Name, PublicKey)>,
        claim_quorum: usize,
        key_quorum: usize,
    ) -> (r: Option<(Request, SerialisedClaim)>)
        requires
            old(self).wf(),
        ensures
            final(self).wf(),
            final(self).capacity() == old(self).capacity(),
            keys_outcome(*old(self), *final(self), request, sender, attestations_view(keys@), r, claim_quorum as nat, key_quorum as nat),
    {
        // Keys for a request that is not pending cannot have been solicited.
        if !self.claim_accumulator.contains_key(&request) {
            return None;
        }
        let ghost kv = attestations_view(keys@);
        let ghost mut states: Seq<KeyStore> = seq![self.key_store];
        let mut i: usize = 0;
        while i < keys.len()
            invariant
                i <= keys@.len(),
                kv == attestations_view(keys@),
                self.wf(),
                self.claim_accumulator == old(self).claim_accumulator,
                states.len() == i + 1,
                states[0] == old(self).key_store,
                states.last() == self.key_store,
                forall|j: int|
                    0 <= j < i ==> crate::key_store::after_add_key(
                        #[trigger] states[j],
                        states[j + 1],
                        kv[j].0,
                        sender,
                        kv[j].1,
                    ),
            decreases keys@.len() - i,
        {
            let (target, public_key) = keys[i];
            self.key_store.add_key(target, sender, public_key);
            proof {
                states = states.push(self.key_store);
            }
            i = i + 1;
        }
        proof {
            assert(states.len() == kv.len() + 1);
        }
        let ghost mid = self.keys();
        let ghost mid_size = self.key_store.size();
        match self.claim_accumulator.get(&request) {
            Some((req, claims)) => {
                proof {
                    lemma_clones_view(old(self).claim_accumulator.map()[request], claims@);
                    assert(old(self).pending().contains_key(request));
                }
                let r = self.resolve(req, claims, claim_quorum, key_quorum);
                proof {
                    assert(self.keys() == mid);
                    assert(self.key_store.size() == mid_size);
                    assert(attested_all(old(self).store(), sender, kv, self.keys(), self.store().size()));
                }
                r
            },
            None => None,
        }
    }

    /// The bodies of the submissions whose signatures verify against a key
    /// that at least `key_quorum` peers vouched for as the claimant's.
    fn verify(&mut self, claims: &Vec<Submission>, key_quorum: usize) -> (r: Vec<SerialisedClaim>)
        requires
            old(self).wf(),
        ensures
            final(self).wf(),
            final(self).keys() == old(self).keys(),
            final(self).key_store.size() == old(self).key_store.size(),
            final(self).claim_accumulator == old(self).claim_accumulator,
            bodies_view(r@) == verified_bodies(old(self).keys(), submissions_view(claims@), key_quorum as nat),
    {
        let ghost sv = submissions_view(claims@);
        let mut r: Vec<SerialisedClaim> = Vec::new();
        let mut i: usize = 0;
        while i < claims.len()
            invariant
                i <= claims@.len(),
                sv == submissions_view(claims@),
                self.wf(),
                self.keys() == old(self).keys(),
                self.key_store.size() == old(self).key_store.size(),
                self.claim_accumulator == old(self).claim_accumulator,
                bodies_view(r@) == verified_bodies(old(self).keys(), sv.subrange(0, i as int), key_quorum as nat),
            decreases claims@.len() - i,
        {
            let ghost r0 = r@;
            let c = &claims[i];
            proof {
                let u = sv.subrange(0, i + 1);
                assert(u.drop_last() =~= sv.subrange(0, i as int));
                assert(u.last() == c@);
            }
            match self.verify_single_claim(&c.claimant, &c.signature, &c.body, key_quorum) {
                Some(body) => {
                    r.push(body);
                    proof {
                        assert(bodies_view(r@) =~= bodies_view(r0) + seq![c.body@]);
                    }
                },
                None => {
                    proof {
                        assert(bodies_view(r0) + Seq::<Seq<u8>>::empty() =~= bodies_view(r0));
                    }
                },
            }
            i = i + 1;
        }
        proof {
            assert(sv.subrange(0, i as int) =~= sv);
        }
        r
    }

    /// The body, when some key that at least `key_quorum` peers vouched for as
    /// `name`'s verifies `signature` over it.
    fn verify_single_claim(&mut self, name: &Name, signature: &Signature, body: &SerialisedClaim, key_quorum: usize) -> (r: Option<SerialisedClaim>)
        requires
            old(self).wf(),
        ensures
            final(self).wf(),
            final(self).keys() == old(self).keys(),
            final(self).key_store.size() == old(self).key_store.size(),
            final(self).claim_accumulator == old(self).claim_accumulator,
            r.is_some() == verified(old(self).keys(), (*name, signature.0@, body@), key_quorum as nat),
            r.is_some() ==> r.unwrap()@ == body@,
    {
        let keys = self.key_store.get_accumulated_keys(name, Some(key_quorum));
        let ghost ks = quorate(table_of(old(self).keys(), *name), key_quorum as nat);
        let mut j: usize = 0;
        while j < keys.len()
            invariant
                j <= keys@.len(),
                keys_view(keys@) == ks,
                ks == quorate(table_of(old(self).keys(), *name), key_quorum as nat),
                self.wf(),
                self.keys() == old(self).keys(),
                self.key_store.size() == old(self).key_store.size(),
                self.claim_accumulator == old(self).claim_accumulator,
                forall|jj: int| 0 <= jj < j ==> !signature_valid(signature.0@, body@, #[trigger] ks[jj]),
            decreases keys@.len() - j,
        {
            proof {
                assert(ks[j as int] == keys@[j as int].0@);
            }
            match verify_signature(signature, &keys[j], body) {
                Some(b) => {
                    proof {
                        assert(ks.len() == keys@.len());
                        assert(signature_valid(signature.0@, body@, ks[j as int]));
                        assert(exists|i: int| 0 <= i < ks.len() && signature_valid(signature.0@, body@, #[trigger] ks[i]));
                        let s = (*name, signature.0@, body@);
                        assert(s.0 == *name && s.1 == signature.0@ && s.2 == body@);
                        assert(verified(old(self).keys(), s, key_quorum as nat));
                    }
                    return Some(b);
                },
                None => {},
            }
            j = j + 1;
        }
        None
    }

    /// The body agreed on by at least `quorum_size` of the verified claims.
    fn squash(&self, verified_claims: Vec<SerialisedClaim>, quorum_size: usize) -> (r: Option<SerialisedClaim>)
        ensures
            r.is_some() == squashed(bodies_view(verified_claims@), quorum_size as nat).is_some(),
            r.is_some() ==> Some(r.unwrap()@) == squashed(bodies_view(verified_claims@), quorum_size as nat),
    {
        let ghost bv = bodies_view(verified_claims@);
        if verified_claims.len() < quorum_size {
            return None;
        }
        let mut frequency = Frequency::new();
        let mut i: usize = 0;
        while i < verified_claims.len()
            invariant
                i <= verified_claims@.len(),
                bv == bodies_view(verified_claims@),
                frequency.counts() == tally(bv.subrange(0, i as int)),
                forall|j: int| 0 <= j < frequency.counts().len() ==> frequency.counts()[j].1 <= i,
            decreases verified_claims@.len() - i,
        {
            proof {
                let u = bv.subrange(0, i + 1);
                assert(u.drop_last() =~= bv.subrange(0, i as int));
                assert(u.last() == verified_claims@[i as int]@);
            }
            frequency.update(&verified_claims[i]);
            i = i + 1;
        }
        proof {
            assert(bv.subrange(0, i as int) =~= bv);
        }
        let sorted = frequency.sort_by_highest();
        let ghost t = view_entries(sorted@);
        proof {
            assert(t == sorted_by_count(tally(bv)));
            assert(t.subrange(0, t.len() as int) =~= t);
        }
        let mut k: usize = 0;
        while k < sorted.len()
            invariant
                k <= sorted@.len(),
                t == view_entries(sorted@),
                t == sorted_by_count(tally(bv)),
                bv == bodies_view(verified_claims@),
                bv.len() >= quorum_size,
                first_reaching_of(t, quorum_size as nat) == first_reaching_of(t.subrange(k as int, t.len() as int), quorum_size as nat),
            decreases sorted@.len() - k,
        {
            let u = Ghost(t.subrange(k as int, t.len() as int));
            proof {
                assert(u@.len() > 0);
                assert(u@[0] == t[k as int]);
                assert(t[k as int] == (sorted@[k as int].0@, sorted@[k as int].1 as nat));
                assert(u@.drop_first() =~= t.subrange(k + 1, t.len() as int));
            }
            if sorted[k].1 >= quorum_size {
                let b = sorted[k].0.clone();
                proof {
                    assert(b@ =~= sorted@[k as int].0@);
                    assert(first_reaching_of(u@, quorum_size as nat) == Some(u@[0].0));
                    assert(squashed(bv, quorum_size as nat) == first_reaching_of(t, quorum_size as nat));
                }
                return Some(b);
            }
            k = k + 1;
        }
        proof {
            assert(t.subrange(k as int, t.len() as int) =~= Seq::<(Seq<u8>, nat)>::empty());
        }
        None
    }

    /// Verifies and squashes `claims`; when they resolve, `request` stops
    /// being pending.
    fn resolve(&mut self, request: Request, claims: Vec<Submission>, claim_quorum: usize, key_quorum: usize) -> (r: Option<(Request, SerialisedClaim)>)
        requires
            old(self).wf(),
        ensures
            final(self).wf(),
            final(self).keys() == old(self).keys(),
            final(self).key_store.size() == old(self).key_store.size(),
            final(self).capacity() == old(self).capacity(),
            ({
                let res = resolution(old(self).keys(), submissions_view(claims@), claim_quorum as nat, key_quorum as nat);
                &&& final(self).order() == if res is Some {
                    without(old(self).order(), request)
                } else {
                    old(self).order()
                }
                &&& r.is_some() == res.is_some()
                &&& r.is_some() ==> r.unwrap().0 == request && Some(r.unwrap().1@) == res
                &&& final(self).pending() == if res is Some {
                    old(self).pending().remove(request)
                } else {
                    old(self).pending()
                }
            }),
    {
        let verified_claims = self.verify(&claims, key_quorum);
        match self.squash(verified_claims, claim_quorum) {
            Some(c) => {
                self.claim_accumulator.delete(&request);
                proof {
                    assert(self.pending() =~= old(self).pending().remove(request));
                }
                Some((request, c))
            },
            None => None,
        }
    }
}

} // verus!
