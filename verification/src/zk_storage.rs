//! The proving store: the same two-tier cache as the native store, but reads
//! that miss both scopes are resolved strictly from a precomputed witness —
//! the first-read snapshot of a prior native execution. Finalize persists
//! nothing: root computation happens inside the proving circuit.

use vstd::prelude::*;

use crate::cache::current_of;
use crate::cache::spec_add_write;
use crate::cache::spec_merge;
use crate::cache::AccessView;
use crate::cache::FirstReads;
use crate::cache::ValueExists;
use crate::internal_cache::reads_consistent;
use crate::internal_cache::source_of;
use crate::internal_cache::spec_get_known;
use crate::internal_cache::spec_get_step;
use crate::internal_cache::spec_get_value;
use crate::internal_cache::StorageInternalCache;
use crate::internal_cache::ValueReader;
use crate::storage::opt_storage_value_view;
use crate::storage::StorageKey;
use crate::storage::StorageValue;

verus! {

impl ValueReader for FirstReads {
    /// The witness answers only for the keys it was built with: the keys the
    /// native execution actually touched. A key outside it is a
    /// proof-construction bug upstream, so resolving one is excluded, not
    /// recovered from.
    open spec fn serves(&self, key: Seq<u8>) -> bool {
        self@.contains_key(key)
    }

    open spec fn value_of(&self, key: Seq<u8>) -> Option<Seq<u8>> {
        self@[key]
    }

    fn read_value(&self, key: &StorageKey) -> (r: Option<StorageValue>) {
        let ck = key.as_cache_key();
        match self.get(&ck) {
            ValueExists::Yes(v) => match v {
                Option::Some(cv) => Option::Some(StorageValue::new_from_cache_value(cv)),
                Option::None => Option::None,
            },
            ValueExists::No => vstd::pervasive::unreached(),
        }
    }
}

/// The combined value source the proving store's transaction scope reads
/// against: the batch scope's current values in front of the witness. It
/// answers only for keys one of the two holds.
pub open spec fn zk_source(
    batch: Map<Seq<u8>, AccessView>,
    witness: Map<Seq<u8>, Option<Seq<u8>>>,
) -> Map<Seq<u8>, Option<Seq<u8>>> {
    Map::new(
        |k: Seq<u8>| batch.contains_key(k) || witness.contains_key(k),
        |k: Seq<u8>|
            if batch.contains_key(k) {
                current_of(batch[k])
            } else {
                witness[k]
            },
    )
}

/// The proving store: externally shaped like the native store, but backed by
/// a fixed witness mapping instead of a persistent database.
pub struct ZkStorage {
    batch_cache: StorageInternalCache,
    value_reader: FirstReads,
    tx_cache: StorageInternalCache,
}

impl ZkStorage {
    /// The transaction scope's recorded accesses.
    pub closed spec fn tx_view(&self) -> Map<Seq<u8>, AccessView> {
        self.tx_cache@
    }

    /// The batch scope's recorded accesses.
    pub closed spec fn batch_view(&self) -> Map<Seq<u8>, AccessView> {
        self.batch_cache@
    }

    /// The witness mapping this store resolves misses from.
    pub closed spec fn witness(&self) -> Map<Seq<u8>, Option<Seq<u8>>> {
        self.value_reader@
    }

    /// The storage is well formed: both scopes are, and every first read the
    /// transaction scope recorded agrees with its source.
    pub open spec fn wf(&self) -> bool {
        &&& self.tx_cache_wf()
        &&& self.batch_cache_wf()
        &&& reads_consistent(self.tx_view(), zk_source(self.batch_view(), self.witness()))
    }

    /// The transaction scope's cache is well formed.
    pub closed spec fn tx_cache_wf(&self) -> bool {
        self.tx_cache.wf()
    }

    /// The batch scope's cache is well formed.
    pub closed spec fn batch_cache_wf(&self) -> bool {
        self.batch_cache.wf()
    }

    proof fn lemma_source_eq(&self)
        ensures
            source_of(self.batch_view(), self.value_reader) == zk_source(
                self.batch_view(),
                self.witness(),
            ),
    {
        assert(source_of(self.batch_view(), self.value_reader) =~= zk_source(
            self.batch_view(),
            self.witness(),
        ));
    }

    /// A store over the given witness, with both scopes empty.
    pub fn new(value_reader: FirstReads) -> (r: Self)
        ensures
            r.wf(),
            r.tx_view() == Map::<Seq<u8>, AccessView>::empty(),
            r.batch_view() == Map::<Seq<u8>, AccessView>::empty(),
            r.witness() == value_reader@,
    {
        ZkStorage {
            value_reader,
            tx_cache: StorageInternalCache::new(),
            batch_cache: StorageInternalCache::new(),
        }
    }

    /// Reads `key`: answered from the transaction scope, behind it the batch
    /// scope, behind it the witness; a miss resolution is recorded as the
    /// transaction scope's first read. A key none of the three holds is a
    /// witness gap and is excluded.
    pub fn get(&mut self, key: StorageKey) -> (r: Option<StorageValue>)
        requires
            old(self).wf(),
            spec_get_known(
                old(self).tx_view(),
                zk_source(old(self).batch_view(), old(self).witness()),
                key@,
            ),
        ensures
            final(self).wf(),
            final(self).batch_view() == old(self).batch_view(),
            final(self).witness() == old(self).witness(),
            opt_storage_value_view(r) == spec_get_value(
                old(self).tx_view(),
                zk_source(old(self).batch_view(), old(self).witness()),
                key@,
            ),
            final(self).tx_view() == spec_get_step(
                old(self).tx_view(),
                zk_source(old(self).batch_view(), old(self).witness()),
                key@,
            ),
    {
        proof {
            self.lemma_source_eq();
        }
        let ghost src = zk_source(self.batch_view(), self.witness());
        let r = self.tx_cache.get_or_fetch(&self.batch_cache, &self.value_reader, &key);
        proof {
            assert(reads_consistent(self.tx_view(), src));
        }
        r
    }

    /// Buffers a write of `value` to `key` in the transaction scope.
    pub fn set(&mut self, key: StorageKey, value: StorageValue)
        requires
            old(self).wf(),
        ensures
            final(self).wf(),
            final(self).batch_view() == old(self).batch_view(),
            final(self).witness() == old(self).witness(),
            final(self).tx_view() == spec_add_write(
                old(self).tx_view(),
                key@,
                Option::Some(value@),
            ),
    {
        let ghost src = zk_source(self.batch_view(), self.witness());
        self.tx_cache.set(key, value);
        proof {
            assert(reads_consistent(self.tx_view(), src));
        }
    }

    /// Buffers a delete of `key` in the transaction scope.
    pub fn delete(&mut self, key: StorageKey)
        requires
            old(self).wf(),
        ensures
            final(self).wf(),
            final(self).batch_view() == old(self).batch_view(),
            final(self).witness() == old(self).witness(),
            final(self).tx_view() == spec_add_write(old(self).tx_view(), key@, Option::None),
    {
        let ghost src = zk_source(self.batch_view(), self.witness());
        self.tx_cache.delete(key);
        proof {
            assert(reads_consistent(self.tx_view(), src));
        }
    }

    /// Closes the transaction scope into the batch scope. The store's
    /// invariant makes the fold conflict-free, so this never fails.
    pub fn merge(&mut self)
        requires
            old(self).wf(),
        ensures
            final(self).wf(),
            final(self).batch_view() == spec_merge(old(self).batch_view(), old(self).tx_view()),
            final(self).tx_view() == Map::<Seq<u8>, AccessView>::empty(),
            final(self).witness() == old(self).witness(),
    {
        proof {
            let src = zk_source(self.batch_view(), self.witness());
            assert forall|k: Seq<u8>|
                self.tx_view().contains_key(k) && (#[trigger] self.tx_view()[k]).first_read
                    is Some && self.batch_view().contains_key(k) implies current_of(
                self.batch_view()[k],
            ) == self.tx_view()[k].first_read->0 by {
                assert(src[k] == current_of(self.batch_view()[k]));
            }
        }
        let r = self.batch_cache.merge(&mut self.tx_cache);
        match r {
            Result::Ok(()) => {},
            Result::Err(_) => {
                vstd::pervasive::unreached::<()>()
            },
        }
    }

    /// Persists nothing: in the proving context the state root is computed
    /// and committed inside the circuit, outside this layer.
    pub fn finalize(&mut self)
        requires
            old(self).wf(),
        ensures
            final(self).wf(),
            final(self).tx_view() == old(self).tx_view(),
            final(self).batch_view() == old(self).batch_view(),
            final(self).witness() == old(self).witness(),
    {
    }
}

} // verus!
