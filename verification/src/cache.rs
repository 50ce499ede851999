//! The freshness cache: one stored timestamp per permalink, persisted by the
//! caller across runs.
//!
//! A page is fresh exactly when its stored timestamp is byte-equal to the
//! entry's current one *and* its output artifact still exists; a missing
//! record, a mismatch, or a missing artifact all mean stale.  A failed read
//! of the underlying store is treated by callers as "no record", which
//! forces a re-render.
use vstd::prelude::*;

use crate::bytemap::ByteMap;
use crate::bytes::bytes_eq;

verus! {

/// Freshness of `permalink` against stored state: a record exists, it equals
/// `updated_at` byte for byte, and the output artifact is present.
pub open spec fn spec_fresh(
    store: Map<Seq<u8>, Seq<u8>>,
    permalink: Seq<u8>,
    updated_at: Seq<u8>,
    artifact_exists: bool,
) -> bool {
    store.contains_key(permalink) && store[permalink] == updated_at && artifact_exists
}

pub struct ChangeCache {
    store: ByteMap,
}

impl ChangeCache {
    /// The stored timestamp for each permalink.
    pub closed spec fn view(&self) -> Map<Seq<u8>, Seq<u8>> {
        self.store@
    }

    pub fn new() -> (r: Self)
        ensures
            r@ == Map::<Seq<u8>, Seq<u8>>::empty(),
    {
        ChangeCache { store: ByteMap::new() }
    }

    /// Store `updated_at` for `permalink`; the last write wins.
    pub fn record(&mut self, permalink: &[u8], updated_at: &[u8])
        ensures
            final(self)@ == old(self)@.insert(permalink@, updated_at@),
    {
        self.store.insert(permalink, updated_at);
    }

    /// The stored timestamp for `permalink`, if one exists.
    pub fn stored(&self, permalink: &[u8]) -> (r: Option<&Vec<u8>>)
        ensures
            (r is Some) == self@.contains_key(permalink@),
            r matches Some(v) ==> self@.contains_key(permalink@) && v@ == self@[permalink@],
    {
        self.store.get(permalink)
    }

    /// Decide freshness of `permalink` at `updated_at`, given whether its
    /// output artifact exists.
    pub fn is_fresh(&self, permalink: &[u8], updated_at: &[u8], artifact_exists: bool) -> (r:
        bool)
        ensures
            r == spec_fresh(self@, permalink@, updated_at@, artifact_exists),
    {
        if !artifact_exists {
            return false;
        }
        match self.store.get(permalink) {
            Some(v) => bytes_eq(v.as_slice(), updated_at),
            None => false,
        }
    }
}

/// Recording a timestamp makes exactly that timestamp fresh: after
/// `record(p, t1)`, `is_fresh(p, t1)` holds when the artifact exists, any
/// other timestamp is stale, and a missing artifact is stale even at `t1`.
pub proof fn lemma_cache_round_trip(
    store: Map<Seq<u8>, Seq<u8>>,
    p: Seq<u8>,
    t1: Seq<u8>,
    t2: Seq<u8>,
)
    requires
        t1 != t2,
    ensures
        spec_fresh(store.insert(p, t1), p, t1, true),
        !spec_fresh(store.insert(p, t1), p, t2, true),
        !spec_fresh(store.insert(p, t1), p, t1, false),
{
}

} // verus!
