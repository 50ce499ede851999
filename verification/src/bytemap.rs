//! A small byte-keyed map with last-write-wins semantics, used to model the
//! freshness store and the tree of written output artifacts.
//!
//! Records are kept as an append log; a lookup takes the most recent record
//! for a key, so its view is an ordinary `Map` from key bytes to value bytes.
use vstd::prelude::*;

use crate::bytes::bytes_eq;

verus! {

/// Most recent value recorded for `k`, if any.
pub open spec fn log_find(s: Seq<(Vec<u8>, Vec<u8>)>, k: Seq<u8>) -> Option<Seq<u8>>
    decreases s.len(),
{
    if s.len() == 0 {
        None
    } else if s.last().0@ == k {
        Some(s.last().1@)
    } else {
        log_find(s.drop_last(), k)
    }
}

pub struct ByteMap {
    records: Vec<(Vec<u8>, Vec<u8>)>,
}

impl ByteMap {
    /// The map a record log denotes: each key maps to its last written value.
    pub closed spec fn view(&self) -> Map<Seq<u8>, Seq<u8>> {
        Map::new(
            |k: Seq<u8>| log_find(self.records@, k) is Some,
            |k: Seq<u8>| log_find(self.records@, k).unwrap(),
        )
    }

    pub fn new() -> (r: Self)
        ensures
            r@ == Map::<Seq<u8>, Seq<u8>>::empty(),
    {
        let r = ByteMap { records: Vec::new() };
        proof {
            assert(r@ =~= Map::<Seq<u8>, Seq<u8>>::empty());
        }
        r
    }

    /// Record `v` as the value for `k`; any earlier value is superseded.
    pub fn insert(&mut self, k: &[u8], v: &[u8])
        ensures
            final(self)@ == old(self)@.insert(k@, v@),
    {
        let mut key: Vec<u8> = Vec::new();
        crate::bytes::push_all(&mut key, k);
        let mut val: Vec<u8> = Vec::new();
        crate::bytes::push_all(&mut val, v);
        proof {
            assert(key@ =~= k@);
            assert(val@ =~= v@);
        }
        let ghost pre = self.records@;
        self.records.push((key, val));
        proof {
            assert(self.records@.drop_last() =~= pre);
            assert forall|q: Seq<u8>| true implies #[trigger] log_find(self.records@, q)
                == if q == k@ {
                    Some(v@)
                } else {
                    log_find(pre, q)
                } by {
                assert(self.records@.last().0@ == k@);
            }
            assert(self@ =~= old(self)@.insert(k@, v@));
        }
    }

    /// Look up the current value for `k`.
    pub fn get(&self, k: &[u8]) -> (r: Option<&Vec<u8>>)
        ensures
            (r is Some) == self@.contains_key(k@),
            r matches Some(v) ==> self@.contains_key(k@) && v@ == self@[k@],
    {
        let mut i: usize = self.records.len();
        proof {
            assert(self.records@.take(i as int) =~= self.records@);
        }
        while i > 0
            invariant
                i <= self.records@.len(),
                log_find(self.records@, k@) == log_find(self.records@.take(i as int), k@),
            decreases i,
        {
            let entry = &self.records[i - 1];
            proof {
                let pre = self.records@.take(i as int);
                assert(pre.last() == self.records@[i - 1]);
                assert(pre.drop_last() =~= self.records@.take(i - 1));
            }
            if bytes_eq(entry.0.as_slice(), k) {
                return Some(&entry.1);
            }
            i -= 1;
        }
        proof {
            assert(self.records@.take(0) =~= Seq::<(Vec<u8>, Vec<u8>)>::empty());
        }
        None
    }

    /// Is a value recorded for `k`?
    pub fn contains(&self, k: &[u8]) -> (r: bool)
        ensures
            r == self@.contains_key(k@),
    {
        self.get(k).is_some()
    }
}

} // verus!
