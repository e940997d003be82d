//! The internal cache adapter: wraps a first-read/last-write cache and adds
//! fetch-on-miss behaviour against an injected value source, recording every
//! miss resolution as the scope's first read.

use vstd::prelude::*;

use crate::cache::current_of;
use crate::cache::spec_add_read;
use crate::cache::spec_add_write;
use crate::cache::spec_can_merge;
use crate::cache::spec_first_reads;
use crate::cache::spec_merge;
use crate::cache::spec_writes;
use crate::cache::read_pairs;
use crate::cache::pairs_to_map;
use crate::cache::unique_keys;
use crate::cache::AccessView;
use crate::cache::CacheLog;
use crate::cache::FirstReads;
use crate::cache::MergeError;
use crate::cache::ValueExists;
use crate::storage::opt_storage_value_view;
use crate::storage::CacheKey;
use crate::storage::CacheValue;
use crate::storage::StorageKey;
use crate::storage::StorageValue;

verus! {

/// The capability a cache adapter resolves read misses against: a single
/// operation answering the current value of a key. Implemented by the
/// versioned persistent database (native context) and by the fixed witness
/// mapping (proving context).
pub trait ValueReader {
    /// Whether the source can answer for this key at all.
    spec fn serves(&self, key: Seq<u8>) -> bool;

    /// The (possibly absent) value the source answers for a key it serves.
    spec fn value_of(&self, key: Seq<u8>) -> Option<Seq<u8>>;

    /// Resolves the current value of `key`, or `None` if the key has no
    /// value.
    fn read_value(&self, key: &StorageKey) -> (r: Option<StorageValue>)
        requires
            self.serves(key@),
        ensures
            opt_storage_value_view(r) == self.value_of(key@),
    ;
}

/// The combined source a transaction-scope read falls back to: the batch
/// scope's current values first, the underlying value source behind them.
pub open spec fn source_of<R: ValueReader>(
    fallback: Map<Seq<u8>, AccessView>,
    reader: R,
) -> Map<Seq<u8>, Option<Seq<u8>>> {
    Map::new(
        |k: Seq<u8>| fallback.contains_key(k) || reader.serves(k),
        |k: Seq<u8>|
            if fallback.contains_key(k) {
                current_of(fallback[k])
            } else {
                reader.value_of(k)
            },
    )
}

/// Every first read the scope has recorded agrees with what its value source
/// currently answers for that key. The store keeps this invariant, and it is
/// exactly what makes folding the scope into its parent conflict-free.
pub open spec fn reads_consistent(
    tx: Map<Seq<u8>, AccessView>,
    src: Map<Seq<u8>, Option<Seq<u8>>>,
) -> bool {
    forall|k: Seq<u8>|
        tx.contains_key(k) && (#[trigger] tx[k]).first_read is Some ==> src.contains_key(k)
            && src[k] == tx[k].first_read->0
}

/// Whether a read of `k` can be answered from the scope or its source.
pub open spec fn spec_get_known(
    tx: Map<Seq<u8>, AccessView>,
    src: Map<Seq<u8>, Option<Seq<u8>>>,
    k: Seq<u8>,
) -> bool {
    tx.contains_key(k) || src.contains_key(k)
}

/// The value a read of `k` observes: the scope's current value if the key is
/// known, else the source's answer.
pub open spec fn spec_get_value(
    tx: Map<Seq<u8>, AccessView>,
    src: Map<Seq<u8>, Option<Seq<u8>>>,
    k: Seq<u8>,
) -> Option<Seq<u8>> {
    if tx.contains_key(k) {
        current_of(tx[k])
    } else {
        src[k]
    }
}

/// The scope after a read of `k`: unchanged on a hit; on a miss the source's
/// answer is recorded as the scope's first read of `k`.
pub open spec fn spec_get_step(
    tx: Map<Seq<u8>, AccessView>,
    src: Map<Seq<u8>, Option<Seq<u8>>>,
    k: Seq<u8>,
) -> Map<Seq<u8>, AccessView> {
    if tx.contains_key(k) {
        tx
    } else {
        spec_add_read(tx, k, src[k])
    }
}

/// A first-read/last-write cache for one scope, with fetch-on-miss reads.
pub struct StorageInternalCache {
    cache: CacheLog,
}

impl View for StorageInternalCache {
    type V = Map<Seq<u8>, AccessView>;

    closed spec fn view(&self) -> Map<Seq<u8>, AccessView> {
        self.cache@
    }
}

fn opt_cache_to_storage(v: Option<CacheValue>) -> (r: Option<StorageValue>)
    ensures
        opt_storage_value_view(r) == crate::storage::opt_value_view(v),
{
    match v {
        Option::Some(cv) => Option::Some(StorageValue::new_from_cache_value(cv)),
        Option::None => Option::None,
    }
}

fn opt_storage_to_cache(v: &Option<StorageValue>) -> (r: Option<CacheValue>)
    ensures
        crate::storage::opt_value_view(r) == opt_storage_value_view(*v),
{
    match v {
        Option::Some(sv) => Option::Some(sv.as_cache_value()),
        Option::None => Option::None,
    }
}

impl StorageInternalCache {
    /// The cache is well formed.
    pub closed spec fn wf(&self) -> bool {
        self.cache.wf()
    }

    /// A fresh, empty scope cache.
    pub fn new() -> (r: Self)
        ensures
            r.wf(),
            r@ == Map::<Seq<u8>, AccessView>::empty(),
    {
        StorageInternalCache { cache: CacheLog::new() }
    }

    /// Reads `key`: a key known to this scope is answered from it; a miss is
    /// resolved against the fallback scope's current values, or behind them
    /// the injected source, and the answer is recorded as this scope's first
    /// read of the key.
    pub fn get_or_fetch<R: ValueReader>(
        &mut self,
        fallback: &StorageInternalCache,
        reader: &R,
        key: &StorageKey,
    ) -> (r: Option<StorageValue>)
        requires
            old(self).wf(),
            fallback.wf(),
            spec_get_known(old(self)@, source_of(fallback@, *reader), key@),
        ensures
            final(self).wf(),
            opt_storage_value_view(r) == spec_get_value(
                old(self)@,
                source_of(fallback@, *reader),
                key@,
            ),
            final(self)@ == spec_get_step(old(self)@, source_of(fallback@, *reader), key@),
    {
        let ghost src = source_of(fallback@, *reader);
        let ck = key.as_cache_key();
        match self.cache.get_value(&ck) {
            ValueExists::Yes(v) => opt_cache_to_storage(v),
            ValueExists::No => {
                let resolved: Option<StorageValue> = match fallback.cache.get_value(&ck) {
                    ValueExists::Yes(v) => opt_cache_to_storage(v),
                    ValueExists::No => {
                        proof {
                            assert(src.contains_key(key@));
                            assert(reader.serves(key@));
                        }
                        reader.read_value(key)
                    },
                };
                proof {
                    assert(opt_storage_value_view(resolved) == src[key@]);
                }
                let cache_val = opt_storage_to_cache(&resolved);
                let res = self.cache.add_read(ck, cache_val);
                match res {
                    Result::Ok(()) => resolved,
                    Result::Err(_) => vstd::pervasive::unreached(),
                }
            },
        }
    }

    /// Buffers a write of `value` to `key` in this scope; the source is not
    /// consulted.
    pub fn set(&mut self, key: StorageKey, value: StorageValue)
        requires
            old(self).wf(),
        ensures
            final(self).wf(),
            final(self)@ == spec_add_write(old(self)@, key@, Option::Some(value@)),
    {
        let ck = key.into_cache_key();
        let cv = value.into_cache_value();
        self.cache.add_write(ck, Option::Some(cv));
    }

    /// Buffers a delete of `key` in this scope: the tombstone becomes the
    /// key's last write.
    pub fn delete(&mut self, key: StorageKey)
        requires
            old(self).wf(),
        ensures
            final(self).wf(),
            final(self)@ == spec_add_write(old(self)@, key@, Option::None),
    {
        let ck = key.into_cache_key();
        self.cache.add_write(ck, Option::None);
    }

    /// The first-read snapshot of this scope.
    pub fn get_first_reads(&self) -> (r: FirstReads)
        requires
            self.wf(),
        ensures
            r.wf(),
            r@ == spec_first_reads(self@),
    {
        self.cache.get_first_reads()
    }

    /// Every pending write of this scope, as (key, last-write-or-tombstone)
    /// pairs; the scope is emptied.
    pub fn get_all_writes_and_clear_cache(&mut self) -> (r: Vec<(CacheKey, Option<CacheValue>)>)
        requires
            old(self).wf(),
        ensures
            final(self).wf(),
            final(self)@ == Map::<Seq<u8>, AccessView>::empty(),
            unique_keys(read_pairs(r@)),
            pairs_to_map(read_pairs(r@)) == spec_writes(old(self)@),
    {
        self.cache.get_all_writes_and_clear_cache()
    }

    /// Folds the child scope into this one and empties the child; fails,
    /// changing nothing, when the child's first reads contradict this scope's
    /// current values.
    pub fn merge(&mut self, child: &mut StorageInternalCache) -> (r: Result<(), MergeError>)
        requires
            old(self).wf(),
            old(child).wf(),
        ensures
            final(self).wf(),
            final(child).wf(),
            match r {
                Result::Ok(()) => spec_can_merge(old(self)@, old(child)@) && final(self)@
                    == spec_merge(old(self)@, old(child)@) && final(child)@ == Map::<
                    Seq<u8>,
                    AccessView,
                >::empty(),
                Result::Err(e) => e == MergeError::MergeConflict && !spec_can_merge(
                    old(self)@,
                    old(child)@,
                ) && final(self)@ == old(self)@ && final(child)@ == old(child)@,
            },
    {
        self.cache.merge(&mut child.cache)
    }
}

} // verus!
