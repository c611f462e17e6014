//! The resolver with its thresholds fixed at construction.

use vstd::prelude::*;

use crate::pure_sentinel::{attestations_view, claim_outcome, keys_outcome, PureSentinel};
pub use crate::pure_sentinel::AddResult;
pub use crate::request::Source;
use crate::request::Request;
use crate::{Name, PublicKey, SerialisedClaim, Signature};

verus! {

/// Collects signed claims and attested keys per request and resolves a request
/// once `claim_threshold` identical claims verify against keys that
/// `keys_threshold` peers vouched for. Keys handed in for a request count as
/// attested by the request's source.
pub struct Sentinel {
    resolver: PureSentinel,
    claim_threshold: usize,
    keys_threshold: usize,
}

impl Sentinel {
    /// The underlying resolver.
    pub closed spec fn resolver(&self) -> PureSentinel {
        self.resolver
    }

    pub closed spec fn claim_threshold(&self) -> nat {
        self.claim_threshold as nat
    }

    pub closed spec fn keys_threshold(&self) -> nat {
        self.keys_threshold as nat
    }

    pub open spec fn wf(&self) -> bool {
        self.resolver().wf()
    }

    /// Keeps at most `MAX_REQUEST_COUNT` pending requests.
    pub fn new(claim_threshold: usize, keys_threshold: usize) -> (r: Sentinel)
        ensures
            r.wf(),
            r.resolver().pending() == Map::<Request, Seq<(Name, Seq<u8>, Seq<u8>)>>::empty(),
            r.resolver().keys() == Map::<Name, crate::key_store::KeyTable>::empty(),
            r.resolver().capacity() == crate::refresh_sentinel::MAX_REQUEST_COUNT,
            r.claim_threshold() == claim_threshold,
            r.keys_threshold() == keys_threshold,
    {
        Sentinel { resolver: PureSentinel::new(), claim_threshold, keys_threshold }
    }

    /// Keeps at most `max_request_count` pending requests.
    pub fn with_capacity(claim_threshold: usize, keys_threshold: usize, max_request_count: usize) -> (r: Sentinel)
        requires
            1 <= max_request_count,
        ensures
            r.wf(),
            r.resolver().pending() == Map::<Request, Seq<(Name, Seq<u8>, Seq<u8>)>>::empty(),
            r.resolver().keys() == Map::<Name, crate::key_store::KeyTable>::empty(),
            r.resolver().capacity() == max_request_count,
            r.claim_threshold() == claim_threshold,
            r.keys_threshold() == keys_threshold,
    {
        Sentinel { resolver: PureSentinel::with_capacity(max_request_count), claim_threshold, keys_threshold }
    }

    /// Adds a signed claim for `request`. Hands back `Resolved` when the
    /// request resolves with it; else `RequestKeys` with the request's source
    /// the first time the request is seen; else nothing.
    pub fn add_claim(&mut self, request: Request, claimant: Name, signature: Signature, claim: SerialisedClaim) -> (r: Option<AddResult>)
        requires
            old(self).wf(),
        ensures
            final(self).claim_threshold() == old(self).claim_threshold(),
            final(self).keys_threshold() == old(self).keys_threshold(),
            claim_outcome(
                old(self).resolver(),
                final(self).resolver(),
                request,
                (claimant, signature.0@, claim@),
                r,
                old(self).claim_threshold(),
                old(self).keys_threshold(),
            ),
    {
        self.resolver.add_claim_with(request, claimant, signature, claim, self.claim_threshold, self.keys_threshold)
    }

    /// Adds the (target, key) pairs attested by the request's source, then
    /// tries to resolve the request. Keys for a request that is not pending
    /// are dropped unread.
    pub fn add_keys(&mut self, request: Request, keys: Vec<(Name, PublicKey)>) -> (r: Option<(Request, SerialisedClaim)>)
        requires
            old(self).wf(),
        ensures
            final(self).claim_threshold() == old(self).claim_threshold(),
            final(self).keys_threshold() == old(self).keys_threshold(),
            keys_outcome(
                old(self).resolver(),
                final(self).resolver(),
                request,
                request.source,
                attestations_view(keys@),
                r,
                old(self).claim_threshold(),
                old(self).keys_threshold(),
            ),
    {
        let source = request.get_source();
        self.resolver.add_keys_with(request, source, keys, self.claim_threshold, self.keys_threshold)
    }
}

} // verus!
