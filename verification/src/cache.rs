//! The cache-aside reader: prefer the cache, fall back to the snapshot
//! store, and repopulate the cache from what was read. The cache is never
//! authoritative — an unreachable backend, a missing key, or an entry
//! that does not parse all degrade to a durable read, never to an error —
//! and a write-back failure is the caller's to ignore.

use vstd::prelude::*;

use crate::codec::{
    decode_index, encodable, encode_index, lemma_parse_encodable, lemma_round_trip, spec_encode,
    spec_parse,
};
use crate::stats::{IndexTemplate, IndexView};
use crate::store::{store_lookup, EntryView, SnapshotStore};
use crate::StatsError;

verus! {

/// What one cache lookup yielded: the backend was unreachable, the key
/// was absent, or a cached text came back.
pub enum CacheLookup {
    Unreachable,
    Miss,
    Hit(String),
}

impl CacheLookup {
    /// The backend answered, so a fresh value can be written back.
    pub open spec fn spec_reachable(&self) -> bool {
        !(self is Unreachable)
    }

    /// The backend answered, so a fresh value can be written back.
    pub fn reachable(&self) -> (r: bool)
        ensures
            r == self.spec_reachable(),
    {
        match self {
            CacheLookup::Unreachable => false,
            _ => true,
        }
    }
}

/// The value a cache lookup alone provides: a hit whose text parses back
/// to a result. Anything else defers to durable storage.
pub open spec fn cached_model(l: CacheLookup) -> Option<IndexView> {
    match l {
        CacheLookup::Hit(s) => spec_parse(s@),
        _ => None,
    }
}

/// What reading the durable snapshot under `name` yields.
pub open spec fn spec_read(s: Seq<EntryView>, name: Seq<char>) -> Result<IndexView, StatsError> {
    match store_lookup(s, name) {
        None => Err(StatsError::NotFoundError),
        Some(a) => match spec_parse(a) {
            None => Err(StatsError::CorruptDataError),
            Some(m) => Ok(m),
        },
    }
}

/// Take a usable value out of a cache lookup, treating an unreachable
/// backend, a miss, and an entry that does not parse alike as "no value".
pub fn from_cache(lookup: &CacheLookup) -> (r: Option<IndexTemplate>)
    ensures
        match r {
            Some(t) => cached_model(*lookup) == Some(t@),
            None => cached_model(*lookup) is None,
        },
{
    match lookup {
        CacheLookup::Hit(s) => match decode_index(s.as_str()) {
            Ok(t) => Some(t),
            Err(_) => None,
        },
        _ => None,
    }
}

/// The cache-aside read: return a parsed cache hit as it stands; on any
/// other lookup outcome read the authoritative snapshot, and, when the
/// backend had answered and the read succeeded, hand back the canonical
/// text to repopulate the cache with.
pub fn get_aggregation(store: &SnapshotStore, name: &String, lookup: &CacheLookup) -> (r: (
    Result<IndexTemplate, StatsError>,
    Option<String>,
))
    ensures
        match cached_model(*lookup) {
            Some(m) => (r.0 matches Ok(t) && t@ == m) && r.1 is None,
            None => {
                &&& match spec_read(store@, name@) {
                    Ok(m) => r.0 matches Ok(t) && t@ == m,
                    Err(e) => r.0 matches Err(e2) && e2 == e,
                }
                &&& match r.1 {
                    Some(w) => lookup.spec_reachable() && (spec_read(store@, name@) matches Ok(m)
                        && w@ == spec_encode(m)),
                    None => !(lookup.spec_reachable() && spec_read(store@, name@) is Ok),
                }
            },
        },
{
    if let Some(t) = from_cache(lookup) {
        return (Ok(t), None);
    }
    match store.read(name) {
        Ok(t) => {
            let writeback = if lookup.reachable() {
                Some(encode_index(&t))
            } else {
                None
            };
            (Ok(t), writeback)
        },
        Err(e) => (Err(e), None),
    }
}

/// Cache-aside correctness: a cache entry is only ever written back from
/// a durable read — it holds the canonical text of the value the store's
/// artifact denotes — and such an entry parses back to exactly that
/// value. A cache hit and a fallback to the store therefore return the
/// same result, whatever the state of the cache.
pub proof fn lemma_cache_aside_agrees(artifact: Seq<char>, m: IndexView)
    requires
        spec_parse(artifact) == Some(m),
    ensures
        spec_parse(spec_encode(m)) == Some(m),
        encodable(m),
{
    lemma_parse_encodable(artifact, m);
    lemma_round_trip(m);
}

} // verus!
