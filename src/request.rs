//! Requests, and the group each one names.

use vstd::prelude::*;

use crate::lru::LruKey;
use crate::Name;

verus! {

/// The request that claims are made about. It names the group whose members
/// should be asked for public keys.
#[derive(Clone, Copy, Debug, PartialEq, Eq, Structural, Hash)]
pub struct Request {
    pub id: u64,
    pub source: Name,
}

impl Request {
    pub fn new(id: u64, source: Name) -> (r: Request)
        ensures
            r.id == id,
            r.source == source,
    {
        Request { id, source }
    }
}

impl LruKey for Request {
    fn same(&self, other: &Request) -> (r: bool) {
        self.id == other.id && self.source == other.source
    }
}

/// A request names the group from which public keys should be solicited.
pub trait Source {
    spec fn source_spec(&self) -> Name;

    fn get_source(&self) -> (r: Name)
        ensures
            r == self.source_spec(),
    ;
}

impl Source for Request {
    open spec fn source_spec(&self) -> Name {
        self.source
    }

    fn get_source(&self) -> (r: Name) {
        self.source
    }
}

} // verus!
