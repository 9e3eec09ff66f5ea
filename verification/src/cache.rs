//! The cache facade: read-through `get` over the bucket store, explicit
//! `put`, and the metadata index beside them.
//!
//! The fetch collaborator and all I/O live with the caller: a `Miss` from
//! `get` is completed by fetching and handing the outcome to `fetched`,
//! which stores a fetched payload and passes a transport failure through
//! unchanged.  No operation here touches the index; it is a separate,
//! explicit API.

use vstd::prelude::*;
use crate::store::{
    BucketStore, LookupV, spec_lookup, spec_put, lemma_put_then_lookup,
};
use crate::index::CacheIndex;
use crate::errors::CacheError;
use crate::hash::{bucket_hash, spec_hash};
use crate::text::is_trimmed;

verus! {

/// What a lookup step yields: a stored payload, or the instruction to
/// invoke the fetch collaborator.
pub enum Lookup {
    Hit(String),
    Miss,
}

/// The cache: the bucket store holding the entries, and the key-to-
/// timestamp index loaded beside it.
pub struct Cache {
    pub store: BucketStore,
    pub index: CacheIndex,
}

impl Cache {
    /// Both halves are well formed.
    pub open spec fn wf(self) -> bool {
        self.store.wf() && self.index.wf()
    }

    /// A cache over a loaded index and a store scanned from disk (empty on
    /// a fresh tree).
    pub fn new(index: CacheIndex, store: BucketStore) -> (r: Cache)
        ensures
            r.index == index,
            r.store == store,
    {
        Cache { store, index }
    }

    /// The bucket hash of a request key.
    pub fn get_hash(&self, request_url: &str) -> (r: u64)
        ensures
            r == spec_hash(request_url@),
    {
        bucket_hash(request_url)
    }

    /// The lookup step of read-through `get`.  On `Miss` the caller invokes
    /// the fetch collaborator and hands the outcome to `fetched`; the index
    /// is never consulted.
    pub fn get(&self, request: &str) -> (r: Result<Lookup, CacheError>)
        ensures
            match r {
                Ok(Lookup::Hit(d)) => spec_lookup(self.store@, spec_hash(request@), request@)
                    == LookupV::Hit(d@),
                Ok(Lookup::Miss) => spec_lookup(self.store@, spec_hash(request@), request@)
                    == LookupV::Miss,
                Err(e) => spec_lookup(self.store@, spec_hash(request@), request@)
                    == LookupV::Violation && (e matches CacheError::InvariantViolation(b) && b
                    == spec_hash(request@)),
            },
    {
        let h = bucket_hash(request);
        match self.store.find_in_bucket(h, request) {
            Ok(Some(d)) => Ok(Lookup::Hit(d)),
            Ok(None) => Ok(Lookup::Miss),
            Err(e) => Err(e),
        }
    }

    /// Completes a missed `get` with what the fetch collaborator returned:
    /// a fetched payload is stored under the key and handed back; a
    /// transport failure is surfaced unchanged and nothing is stored.
    pub fn fetched(&mut self, request: &str, outcome: Result<String, String>) -> (r: Result<
        String,
        CacheError,
    >)
        requires
            old(self).wf(),
            BucketStore::spec_room_for(old(self).store@, spec_hash(request@), request@),
        ensures
            final(self).wf(),
            final(self).index == old(self).index,
            match outcome {
                Ok(d) => match r {
                    Ok(rd) => rd@ == d@ && final(self).store@ == spec_put(
                        old(self).store@,
                        spec_hash(request@),
                        request@,
                        d@,
                    ) && spec_lookup(old(self).store@, spec_hash(request@), request@)
                        != LookupV::Violation,
                    Err(e) => final(self).store@ == old(self).store@ && spec_lookup(
                        old(self).store@,
                        spec_hash(request@),
                        request@,
                    ) == LookupV::Violation && (e matches CacheError::InvariantViolation(b) && b
                        == spec_hash(request@)),
                },
                Err(m) => final(self).store@ == old(self).store@ && (r matches Err(
                    CacheError::Transport(t),
                ) && t@ == m@),
            },
    {
        match outcome {
            Ok(d) => {
                let h = bucket_hash(request);
                let stored = d.clone();
                match self.store.put_in_bucket(h, request, stored) {
                    Ok(_) => Ok(d),
                    Err(e) => Err(e),
                }
            },
            Err(m) => Err(CacheError::Transport(m)),
        }
    }

    /// Explicit write-through for a caller that already holds the payload.
    pub fn put(&mut self, request: &str, data: String) -> (r: Result<(), CacheError>)
        requires
            old(self).wf(),
            BucketStore::spec_room_for(old(self).store@, spec_hash(request@), request@),
        ensures
            final(self).wf(),
            final(self).index == old(self).index,
            match r {
                Ok(_) => final(self).store@ == spec_put(
                    old(self).store@,
                    spec_hash(request@),
                    request@,
                    data@,
                ) && spec_lookup(old(self).store@, spec_hash(request@), request@)
                    != LookupV::Violation,
                Err(e) => final(self).store@ == old(self).store@ && spec_lookup(
                    old(self).store@,
                    spec_hash(request@),
                    request@,
                ) == LookupV::Violation && (e matches CacheError::InvariantViolation(b) && b
                    == spec_hash(request@)),
            },
    {
        let h = bucket_hash(request);
        self.store.put_in_bucket(h, request, data)
    }
}

/// On an empty store every key misses, so `get` tells the caller to invoke
/// the fetch collaborator; once the fetched payload is stored, the same key
/// hits, so no second fetch is ever asked for.
pub proof fn lemma_miss_then_fetch_once(
    store: Seq<crate::store::BucketV>,
    bucket: u64,
    key: Seq<char>,
    data: Seq<char>,
)
    requires
        store.len() == 0,
        is_trimmed(key),
    ensures
        spec_lookup(store, bucket, key) == LookupV::Miss,
        spec_lookup(spec_put(store, bucket, key, data), bucket, key) == LookupV::Hit(data),
{
    lemma_put_then_lookup(store, bucket, key, data);
}

} // verus!
