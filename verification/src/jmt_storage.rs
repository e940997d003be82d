//! The native store: a two-tier cache over a versioned persistent tree
//! database, with merge (transaction into batch) and finalize (batch into a
//! durable, versioned commit).

use vstd::prelude::*;

use crate::cache::current_of;
use crate::cache::spec_add_write;
use crate::cache::spec_first_reads;
use crate::cache::spec_merge;
use crate::cache::spec_writes;
use crate::cache::read_pairs;
use crate::cache::pairs_to_map;
use crate::cache::unique_keys;
use crate::cache::lemma_pairs_to_map_props;
use crate::cache::AccessView;
use crate::cache::FirstReads;
use crate::internal_cache::reads_consistent;
use crate::internal_cache::source_of;
use crate::internal_cache::spec_get_step;
use crate::internal_cache::spec_get_value;
use crate::internal_cache::StorageInternalCache;
use crate::internal_cache::ValueReader;
use crate::storage::clone_bytes;
use crate::storage::bytes_eq;
use crate::storage::opt_storage_value_view;
use crate::storage::StorageKey;
use crate::storage::StorageValue;

verus! {

/// The mathematical view of an optional byte vector.
pub open spec fn opt_bytes_view(v: Option<Vec<u8>>) -> Option<Seq<u8>> {
    match v {
        Option::Some(b) => Option::Some(b@),
        Option::None => Option::None,
    }
}

/// One committed record of the persistent tree: a raw key and its key image,
/// bound at a version to a value or a tombstone.
#[verifier::ext_equal]
pub ghost struct DbEntryView {
    pub version: u64,
    pub key: Seq<u8>,
    pub image: Seq<u8>,
    pub value: Option<Seq<u8>>,
}

/// The mathematical view of the persistent store: the committed records in
/// commit order, the recorded key-image preimages, and the last committed
/// version (0 before any commit).
#[verifier::ext_equal]
pub ghost struct StateDbView {
    pub entries: Seq<DbEntryView>,
    pub preimages: Seq<(Seq<u8>, Seq<u8>)>,
    pub last_version: u64,
}

/// The record a read of `key` as of `version` resolves to: the latest
/// committed record for that key with a version no later than `version`.
pub open spec fn entry_lookup(entries: Seq<DbEntryView>, version: u64, key: Seq<u8>) -> Option<
    Option<Seq<u8>>,
>
    decreases entries.len(),
{
    if entries.len() == 0 {
        Option::None
    } else if entries.last().key == key && entries.last().version <= version {
        Option::Some(entries.last().value)
    } else {
        entry_lookup(entries.drop_last(), version, key)
    }
}

/// The value of `key` as of `version`: absent when the key was never
/// committed, or when its latest record is a tombstone.
pub open spec fn value_at(db: StateDbView, version: u64, key: Seq<u8>) -> Option<Seq<u8>> {
    match entry_lookup(db.entries, version, key) {
        Option::Some(Option::Some(v)) => Option::Some(v),
        _ => Option::None,
    }
}

/// The raw key most recently recorded as the preimage of `image`.
pub open spec fn preimage_lookup(pre: Seq<(Seq<u8>, Seq<u8>)>, image: Seq<u8>) -> Option<Seq<u8>>
    decreases pre.len(),
{
    if pre.len() == 0 {
        Option::None
    } else if pre.last().0 == image {
        Option::Some(pre.last().1)
    } else {
        preimage_lookup(pre.drop_last(), image)
    }
}

/// The persistent store is well formed: records appear in commit order, with
/// versions from 1 up to the last committed version.
pub open spec fn db_wf(db: StateDbView) -> bool {
    &&& forall|i: int|
        0 <= i < db.entries.len() ==> 1 <= (#[trigger] db.entries[i]).version <= db.last_version
    &&& forall|i: int, j: int|
        0 <= i < j < db.entries.len() ==> db.entries[i].version <= db.entries[j].version
}

/// Raising the read version past every committed record changes no lookup.
pub proof fn lemma_lookup_version_clamp(s: Seq<DbEntryView>, v1: u64, v2: u64, k: Seq<u8>)
    requires
        forall|i: int| 0 <= i < s.len() ==> (#[trigger] s[i]).version <= v1,
        v1 <= v2,
    ensures
        entry_lookup(s, v2, k) == entry_lookup(s, v1, k),
    decreases s.len(),
{
    if s.len() > 0 {
        let p = s.drop_last();
        assert(forall|i: int| 0 <= i < p.len() ==> #[trigger] p[i] == s[i]);
        lemma_lookup_version_clamp(p, v1, v2, k);
    }
}

/// A newly committed record answers reads of its key at or past its version
/// and changes no other lookup.
pub proof fn lemma_lookup_push(s: Seq<DbEntryView>, e: DbEntryView, v: u64, k: Seq<u8>)
    ensures
        entry_lookup(s.push(e), v, k) == if e.key == k && e.version <= v {
            Option::Some(e.value)
        } else {
            entry_lookup(s, v, k)
        },
{
    assert(s.push(e).drop_last() =~= s);
}

/// The versioned persistent tree store, indexed by key image with raw-key
/// preimages retained beside it.
pub struct StateDB {
    entries: Vec<DbEntry>,
    preimages: Vec<(Vec<u8>, Vec<u8>)>,
    last_version: u64,
}

struct DbEntry {
    version: u64,
    key: Vec<u8>,
    image: Vec<u8>,
    value: Option<Vec<u8>>,
}

spec fn db_entry_view(e: DbEntry) -> DbEntryView {
    DbEntryView { version: e.version, key: e.key@, image: e.image@, value: opt_bytes_view(e.value) }
}

impl View for StateDB {
    type V = StateDbView;

    closed spec fn view(&self) -> StateDbView {
        StateDbView {
            entries: self.entries@.map_values(|e: DbEntry| db_entry_view(e)),
            preimages: self.preimages@.map_values(|p: (Vec<u8>, Vec<u8>)| (p.0@, p.1@)),
            last_version: self.last_version,
        }
    }
}

impl StateDB {
    /// The store is well formed.
    pub open spec fn wf(&self) -> bool {
        db_wf(self@)
    }

    /// A fresh store with no committed version.
    pub fn new() -> (r: Self)
        ensures
            r.wf(),
            r@.entries == Seq::<DbEntryView>::empty(),
            r@.preimages == Seq::<(Seq<u8>, Seq<u8>)>::empty(),
            r@.last_version == 0,
    {
        let r = StateDB { entries: Vec::new(), preimages: Vec::new(), last_version: 0 };
        proof {
            assert(r@.entries =~= Seq::<DbEntryView>::empty());
            assert(r@.preimages =~= Seq::<(Seq<u8>, Seq<u8>)>::empty());
        }
        r
    }

    /// The last committed version, 0 when nothing was ever committed.
    pub fn last_version(&self) -> (r: u64)
        ensures
            r == self@.last_version,
    {
        self.last_version
    }

    /// Resolves the value of `key` as of `version`.
    pub fn get_value_option_by_key(&self, version: u64, key: &Vec<u8>) -> (r: Option<Vec<u8>>)
        ensures
            opt_bytes_view(r) == value_at(self@, version, key@),
    {
        let ghost full = self@.entries;
        let mut i: usize = self.entries.len();
        proof {
            assert(full.subrange(0, full.len() as int) =~= full);
        }
        while i > 0
            invariant
                i <= self.entries@.len(),
                full == self@.entries,
                entry_lookup(full, version, key@) == entry_lookup(
                    full.subrange(0, i as int),
                    version,
                    key@,
                ),
            decreases i,
        {
            i = i - 1;
            let e = &self.entries[i];
            let ghost pre = full.subrange(0, i + 1);
            proof {
                assert(pre.drop_last() =~= full.subrange(0, i as int));
                assert(pre.last() == db_entry_view(self.entries@[i as int]));
            }
            if e.version <= version && bytes_eq(&e.key, key) {
                return match &e.value {
                    Option::Some(v) => Option::Some(clone_bytes(v)),
                    Option::None => Option::None,
                };
            }
        }
        proof {
            assert(full.subrange(0, 0) =~= Seq::<DbEntryView>::empty());
        }
        Option::None
    }

    /// Records `key` as the preimage of `image`.
    pub fn put_preimage(&mut self, image: Vec<u8>, key: &Vec<u8>)
        ensures
            final(self)@.preimages == old(self)@.preimages.push((image@, key@)),
            final(self)@.entries == old(self)@.entries,
            final(self)@.last_version == old(self)@.last_version,
    {
        let ghost old_view = self@;
        self.preimages.push((image, clone_bytes(key)));
        proof {
            assert(self@.preimages =~= old_view.preimages.push((image@, key@)));
            assert(self@.entries =~= old_view.entries);
        }
    }

    /// The raw key recorded as the preimage of `image`, if any.
    pub fn get_preimage(&self, image: &Vec<u8>) -> (r: Option<Vec<u8>>)
        ensures
            opt_bytes_view(r) == preimage_lookup(self@.preimages, image@),
    {
        let ghost full = self@.preimages;
        let mut i: usize = self.preimages.len();
        proof {
            assert(full.subrange(0, full.len() as int) =~= full);
        }
        while i > 0
            invariant
                i <= self.preimages@.len(),
                full == self@.preimages,
                preimage_lookup(full, image@) == preimage_lookup(
                    full.subrange(0, i as int),
                    image@,
                ),
            decreases i,
        {
            i = i - 1;
            let p = &self.preimages[i];
            let ghost pre = full.subrange(0, i + 1);
            proof {
                assert(pre.drop_last() =~= full.subrange(0, i as int));
                assert(pre.last() == (self.preimages@[i as int].0@, self.preimages@[i as int].1@));
            }
            if bytes_eq(&p.0, image) {
                return Option::Some(clone_bytes(&p.1));
            }
        }
        proof {
            assert(full.subrange(0, 0) =~= Seq::<(Seq<u8>, Seq<u8>)>::empty());
        }
        Option::None
    }

    /// Commits one record at `version`, which may not precede any committed
    /// record; the last committed version becomes `version`.
    pub fn put_entry(&mut self, version: u64, key: &Vec<u8>, image: Vec<u8>, value: Option<Vec<u8>>)
        requires
            old(self).wf(),
            version >= old(self)@.last_version,
            version >= 1,
        ensures
            final(self).wf(),
            final(self)@.entries == old(self)@.entries.push(
                DbEntryView { version, key: key@, image: image@, value: opt_bytes_view(value) },
            ),
            final(self)@.preimages == old(self)@.preimages,
            final(self)@.last_version == version,
    {
        let ghost old_view = self@;
        let e = DbEntry { version, key: clone_bytes(key), image, value };
        let ghost ev = db_entry_view(e);
        self.entries.push(e);
        self.last_version = version;
        proof {
            assert(self@.entries =~= old_view.entries.push(ev));
            assert(self@.preimages =~= old_view.preimages);
            assert(forall|i: int|
                0 <= i < old_view.entries.len() ==> #[trigger] self@.entries[i]
                    == old_view.entries[i]);
        }
    }
}

/// The key image of raw key bytes: the fixed-width cryptographic hash under
/// which the persistent tree indexes the key.
pub uninterp spec fn key_image_of(key: Seq<u8>) -> Seq<u8>;

/// Relies on sha2::Sha256 through `Digest::digest`: the digest is a function
/// of the input bytes alone, and is 32 bytes long.
#[verifier::external_body]
fn sha256_key_image(key: &Vec<u8>) -> (r: Vec<u8>)
    ensures
        r@ == key_image_of(key@),
        r@.len() == 32,
{
    let digest = <sha2::Sha256 as sha2::Digest>::digest(key.as_slice());
    digest.as_slice().to_vec()
}

struct StateDBAndVersion {
    db: StateDB,
    version: u64,
}

impl ValueReader for StateDBAndVersion {
    /// The database answers for every key: an uncommitted key reads as
    /// absent.
    open spec fn serves(&self, key: Seq<u8>) -> bool {
        true
    }

    closed spec fn value_of(&self, key: Seq<u8>) -> Option<Seq<u8>> {
        value_at(self.db@, self.version, key)
    }

    fn read_value(&self, key: &StorageKey) -> (r: Option<StorageValue>) {
        match self.db.get_value_option_by_key(self.version, key.as_bytes()) {
            Option::Some(v) => Option::Some(StorageValue::new_from_bytes(v)),
            Option::None => Option::None,
        }
    }
}

/// The combined value source the native store's transaction scope reads
/// against: the batch scope's current values in front of the database as of
/// the store's version. It answers for every key.
pub open spec fn native_source(
    batch: Map<Seq<u8>, AccessView>,
    db: StateDbView,
    version: u64,
) -> Map<Seq<u8>, Option<Seq<u8>>> {
    Map::new(
        |k: Seq<u8>| true,
        |k: Seq<u8>|
            if batch.contains_key(k) {
                current_of(batch[k])
            } else {
                value_at(db, version, k)
            },
    )
}

/// The native store: get/set/delete run against the transaction scope,
/// merge folds it into the batch scope, finalize commits the batch scope to
/// the versioned persistent store.
pub struct JmtStorage {
    batch_cache: StorageInternalCache,
    tx_cache: StorageInternalCache,
    db_and_version: StateDBAndVersion,
}

impl JmtStorage {
    /// The transaction scope's recorded accesses.
    pub closed spec fn tx_view(&self) -> Map<Seq<u8>, AccessView> {
        self.tx_cache@
    }

    /// The batch scope's recorded accesses.
    pub closed spec fn batch_view(&self) -> Map<Seq<u8>, AccessView> {
        self.batch_cache@
    }

    /// The persistent store behind this storage.
    pub closed spec fn db_view(&self) -> StateDbView {
        self.db_and_version.db@
    }

    /// The version this storage reads at: the last committed version.
    pub closed spec fn spec_version(&self) -> u64 {
        self.db_and_version.version
    }

    /// The storage is well formed: both scopes are, the persistent store is,
    /// the read version is the last committed one, and every first read the
    /// transaction scope recorded agrees with its source.
    pub open spec fn wf(&self) -> bool {
        &&& self.tx_cache_wf()
        &&& self.batch_cache_wf()
        &&& db_wf(self.db_view())
        &&& self.spec_version() == self.db_view().last_version
        &&& reads_consistent(
            self.tx_view(),
            native_source(self.batch_view(), self.db_view(), self.spec_version()),
        )
    }

    /// The transaction scope's cache is well formed.
    pub closed spec fn tx_cache_wf(&self) -> bool {
        self.tx_cache.wf()
    }

    /// The batch scope's cache is well formed.
    pub closed spec fn batch_cache_wf(&self) -> bool {
        self.batch_cache.wf()
    }

    proof fn lemma_source_eq(&self)
        ensures
            source_of(self.batch_view(), self.db_and_version) == native_source(
                self.batch_view(),
                self.db_view(),
                self.spec_version(),
            ),
    {
        assert(source_of(self.batch_view(), self.db_and_version) =~= native_source(
            self.batch_view(),
            self.db_view(),
            self.spec_version(),
        ));
    }

    /// A store over the given persistent database, reading at its last
    /// committed version, with both scopes empty.
    pub fn with_db(db: StateDB) -> (r: Self)
        requires
            db.wf(),
        ensures
            r.wf(),
            r.tx_view() == Map::<Seq<u8>, AccessView>::empty(),
            r.batch_view() == Map::<Seq<u8>, AccessView>::empty(),
            r.db_view() == db@,
            r.spec_version() == db@.last_version,
    {
        let version = db.last_version();
        JmtStorage {
            batch_cache: StorageInternalCache::new(),
            tx_cache: StorageInternalCache::new(),
            db_and_version: StateDBAndVersion { db, version },
        }
    }

    /// A store over a fresh, empty database; nothing survives it.
    pub fn temporary() -> (r: Self)
        ensures
            r.wf(),
            r.tx_view() == Map::<Seq<u8>, AccessView>::empty(),
            r.batch_view() == Map::<Seq<u8>, AccessView>::empty(),
            r.db_view().entries == Seq::<DbEntryView>::empty(),
            r.db_view().preimages == Seq::<(Seq<u8>, Seq<u8>)>::empty(),
            r.spec_version() == 0,
    {
        JmtStorage::with_db(StateDB::new())
    }

    /// Hands the persistent database back, dropping both cache scopes.
    pub fn into_db(self) -> (r: StateDB)
        ensures
            r@ == self.db_view(),
    {
        self.db_and_version.db
    }

    /// The version this storage reads at.
    pub fn version(&self) -> (r: u64)
        ensures
            r == self.spec_version(),
    {
        self.db_and_version.version
    }

    /// The transaction scope's first-read snapshot, the input to proof
    /// witness construction.
    pub fn get_first_reads(&self) -> (r: FirstReads)
        requires
            self.wf(),
        ensures
            r.wf(),
            r@ == spec_first_reads(self.tx_view()),
    {
        self.tx_cache.get_first_reads()
    }

    /// Reads `key`: answered from the transaction scope, behind it the batch
    /// scope, behind it the database; a miss resolution is recorded as the
    /// transaction scope's first read.
    pub fn get(&mut self, key: StorageKey) -> (r: Option<StorageValue>)
        requires
            old(self).wf(),
        ensures
            final(self).wf(),
            final(self).batch_view() == old(self).batch_view(),
            final(self).db_view() == old(self).db_view(),
            final(self).spec_version() == old(self).spec_version(),
            opt_storage_value_view(r) == spec_get_value(
                old(self).tx_view(),
                native_source(old(self).batch_view(), old(self).db_view(), old(self).spec_version()),
                key@,
            ),
            final(self).tx_view() == spec_get_step(
                old(self).tx_view(),
                native_source(old(self).batch_view(), old(self).db_view(), old(self).spec_version()),
                key@,
            ),
    {
        proof {
            self.lemma_source_eq();
        }
        let ghost src = native_source(self.batch_view(), self.db_view(), self.spec_version());
        let r = self.tx_cache.get_or_fetch(&self.batch_cache, &self.db_and_version, &key);
        proof {
            assert(reads_consistent(self.tx_view(), src));
        }
        r
    }

    /// Buffers a write of `value` to `key` in the transaction scope; nothing
    /// becomes visible outside the store before merge and finalize.
    pub fn set(&mut self, key: StorageKey, value: StorageValue)
        requires
            old(self).wf(),
        ensures
            final(self).wf(),
            final(self).batch_view() == old(self).batch_view(),
            final(self).db_view() == old(self).db_view(),
            final(self).spec_version() == old(self).spec_version(),
            final(self).tx_view() == spec_add_write(
                old(self).tx_view(),
                key@,
                Option::Some(value@),
            ),
    {
        let ghost src = native_source(self.batch_view(), self.db_view(), self.spec_version());
        let ghost k = key@;
        self.tx_cache.set(key, value);
        proof {
            assert(reads_consistent(self.tx_view(), src));
        }
    }

    /// Buffers a delete of `key` in the transaction scope.
    pub fn delete(&mut self, key: StorageKey)
        requires
            old(self).wf(),
        ensures
            final(self).wf(),
            final(self).batch_view() == old(self).batch_view(),
            final(self).db_view() == old(self).db_view(),
            final(self).spec_version() == old(self).spec_version(),
            final(self).tx_view() == spec_add_write(old(self).tx_view(), key@, Option::None),
    {
        let ghost src = native_source(self.batch_view(), self.db_view(), self.spec_version());
        self.tx_cache.delete(key);
        proof {
            assert(reads_consistent(self.tx_view(), src));
        }
    }

    /// Closes the transaction scope into the batch scope. The store's
    /// invariant makes the fold conflict-free, so this never fails.
    pub fn merge(&mut self)
        requires
            old(self).wf(),
        ensures
            final(self).wf(),
            final(self).batch_view() == spec_merge(old(self).batch_view(), old(self).tx_view()),
            final(self).tx_view() == Map::<Seq<u8>, AccessView>::empty(),
            final(self).db_view() == old(self).db_view(),
            final(self).spec_version() == old(self).spec_version(),
    {
        proof {
            let src = native_source(self.batch_view(), self.db_view(), self.spec_version());
            assert forall|k: Seq<u8>|
                self.tx_view().contains_key(k) && (#[trigger] self.tx_view()[k]).first_read
                    is Some && self.batch_view().contains_key(k) implies current_of(
                self.batch_view()[k],
            ) == self.tx_view()[k].first_read->0 by {
                assert(src[k] == current_of(self.batch_view()[k]));
            }
        }
        let r = self.batch_cache.merge(&mut self.tx_cache);
        match r {
            Result::Ok(()) => {},
            Result::Err(_) => {
                vstd::pervasive::unreached::<()>()
            },
        }
    }

    /// Commits the batch scope. Every pending write is recorded in the
    /// persistent store at the next version, under its key image and with
    /// its raw key retained as a preimage; earlier versions keep their
    /// values. With no pending writes nothing changes and no version is
    /// consumed. The transaction scope must have been merged (or never
    /// touched) before committing.
    pub fn finalize(&mut self)
        requires
            old(self).wf(),
            old(self).tx_view() == Map::<Seq<u8>, AccessView>::empty(),
            old(self).spec_version() < u64::MAX,
        ensures
            final(self).wf(),
            final(self).tx_view() == Map::<Seq<u8>, AccessView>::empty(),
            final(self).batch_view() == Map::<Seq<u8>, AccessView>::empty(),
            ({
                let w = spec_writes(old(self).batch_view());
                let nv = (old(self).spec_version() + 1) as u64;
                if w.dom() == Set::<Seq<u8>>::empty() {
                    final(self).spec_version() == old(self).spec_version() && final(self).db_view()
                        == old(self).db_view()
                } else {
                    &&& final(self).spec_version() == nv
                    &&& final(self).db_view().last_version == nv
                    &&& forall|k: Seq<u8>|
                        #[trigger] w.contains_key(k) ==> value_at(final(self).db_view(), nv, k)
                            == w[k] && final(self).db_view().preimages.contains(
                            (key_image_of(k), k),
                        )
                    &&& forall|k: Seq<u8>|
                        !(#[trigger] w.contains_key(k)) ==> value_at(final(self).db_view(), nv, k)
                            == value_at(old(self).db_view(), old(self).spec_version(), k)
                    &&& forall|v: u64, k: Seq<u8>|
                        v <= old(self).spec_version() ==> #[trigger] value_at(
                            final(self).db_view(),
                            v,
                            k,
                        ) == value_at(old(self).db_view(), v, k)
                }
            }),
    {
        let ghost w = spec_writes(old(self).batch_view());
        let ghost db0 = self.db_and_version.db@;
        let ghost old_v = self.db_and_version.version;
        let writes = self.batch_cache.get_all_writes_and_clear_cache();
        let ghost wp = read_pairs(writes@);
        proof {
            lemma_pairs_to_map_props(wp);
        }
        if writes.len() == 0 {
            proof {
                assert(wp.len() == 0);
                assert(pairs_to_map(wp) =~~= Map::<Seq<u8>, Option<Seq<u8>>>::empty());
                assert(w.dom() =~= Set::<Seq<u8>>::empty());
            }
            return ;
        }
        proof {
            assert(wp[0].0 == read_pairs(writes@)[0].0);
            assert(w.contains_key(wp[0].0));
            if w.dom() == Set::<Seq<u8>>::empty() {
                assert(!w.dom().contains(wp[0].0));
                assert(false);
            }
            assert(forall|l: int|
                0 <= l < db0.entries.len() ==> (#[trigger] db0.entries[l]).version <= old_v);
        }
        let new_v = self.db_and_version.version + 1;
        let mut i: usize = 0;
        while i < writes.len()
            invariant
                i <= writes@.len(),
                wp == read_pairs(writes@),
                unique_keys(wp),
                pairs_to_map(wp) == w,
                new_v == old_v + 1,
                old_v == old(self).spec_version(),
                db0 == old(self).db_view(),
                db_wf(db0),
                db0.last_version == old_v,
                forall|l: int|
                    0 <= l < db0.entries.len() ==> (#[trigger] db0.entries[l]).version <= old_v,
                self.db_and_version.db.wf(),
                self.db_and_version.db@.last_version == if i == 0 {
                    old_v
                } else {
                    new_v
                },
                self.db_and_version.db@.entries.len() == db0.entries.len() + i,
                forall|l: int|
                    0 <= l < db0.entries.len() ==> #[trigger] self.db_and_version.db@.entries[l]
                        == db0.entries[l],
                forall|j: int|
                    0 <= j < i ==> entry_lookup(
                        self.db_and_version.db@.entries,
                        new_v,
                        (#[trigger] wp[j]).0,
                    ) == Option::Some(wp[j].1),
                forall|v: u64, k: Seq<u8>|
                    (forall|j: int| 0 <= j < i ==> (#[trigger] wp[j]).0 != k) ==> #[trigger]
                    entry_lookup(self.db_and_version.db@.entries, v, k) == entry_lookup(
                        db0.entries,
                        v,
                        k,
                    ),
                forall|v: u64, k: Seq<u8>|
                    v <= old_v ==> #[trigger] entry_lookup(self.db_and_version.db@.entries, v, k)
                        == entry_lookup(db0.entries, v, k),
                forall|j: int|
                    0 <= j < i ==> self.db_and_version.db@.preimages.contains(
                        (key_image_of((#[trigger] wp[j]).0), wp[j].0),
                    ),
                self.db_and_version.version == old_v,
                self.tx_cache.wf(),
                self.tx_cache@ == old(self).tx_view(),
                self.batch_cache.wf(),
                self.batch_cache@ == Map::<Seq<u8>, AccessView>::empty(),
            decreases writes@.len() - i,
        {
            let ghost cur = self.db_and_version.db@;
            let p = &writes[i];
            let ghost k = wp[i as int].0;
            proof {
                assert(wp[i as int] == crate::cache::read_pair(writes@[i as int]));
            }
            let image = sha256_key_image(p.0.as_bytes());
            let image2 = clone_bytes(&image);
            self.db_and_version.db.put_preimage(image, p.0.as_bytes());
            let vb: Option<Vec<u8>> = match &p.1 {
                Option::Some(cv) => Option::Some(clone_bytes(cv.as_bytes())),
                Option::None => Option::None,
            };
            proof {
                assert(opt_bytes_view(vb) == wp[i as int].1);
            }
            self.db_and_version.db.put_entry(new_v, p.0.as_bytes(), image2, vb);
            let ghost now = self.db_and_version.db@;
            let ghost ev = DbEntryView {
                version: new_v,
                key: k,
                image: key_image_of(k),
                value: wp[i as int].1,
            };
            proof {
                assert(now.entries =~= cur.entries.push(ev));
                assert(now.preimages =~= cur.preimages.push((key_image_of(k), k)));
                assert forall|j: int| 0 <= j < i + 1 implies entry_lookup(
                    now.entries,
                    new_v,
                    (#[trigger] wp[j]).0,
                ) == Option::Some(wp[j].1) by {
                    lemma_lookup_push(cur.entries, ev, new_v, wp[j].0);
                    if j < i {
                        assert(wp[j].0 != k);
                    }
                }
                assert forall|v: u64, k2: Seq<u8>|
                    (forall|j: int| 0 <= j < i + 1 ==> (#[trigger] wp[j]).0 != k2) implies
                    #[trigger] entry_lookup(now.entries, v, k2) == entry_lookup(
                    db0.entries,
                    v,
                    k2,
                ) by {
                    lemma_lookup_push(cur.entries, ev, v, k2);
                    assert(k2 != k);
                }
                assert forall|v: u64, k2: Seq<u8>| v <= old_v implies #[trigger] entry_lookup(
                    now.entries,
                    v,
                    k2,
                ) == entry_lookup(db0.entries, v, k2) by {
                    lemma_lookup_push(cur.entries, ev, v, k2);
                    assert(ev.version > v);
                }
                assert forall|j: int| 0 <= j < i + 1 implies now.preimages.contains(
                    (key_image_of((#[trigger] wp[j]).0), wp[j].0),
                ) by {
                    if j < i {
                        let l = choose|l: int|
                            0 <= l < cur.preimages.len() && cur.preimages[l] == (
                            key_image_of(wp[j].0),
                            wp[j].0,
                            );
                        assert(now.preimages[l] == (key_image_of(wp[j].0), wp[j].0));
                    } else {
                        assert(now.preimages[now.preimages.len() - 1] == (key_image_of(k), k));
                    }
                }
            }
            i = i + 1;
        }
        self.db_and_version.version = new_v;
        proof {
            let dbf = self.db_view();
            assert forall|k: Seq<u8>| #[trigger] w.contains_key(k) implies value_at(dbf, new_v, k)
                == w[k] && dbf.preimages.contains((key_image_of(k), k)) by {
                let j = choose|j: int| 0 <= j < wp.len() && wp[j].0 == k;
                assert(wp[j].1 == w[k]);
                assert(entry_lookup(dbf.entries, new_v, k) == Option::Some(w[k]));
            }
            assert forall|k: Seq<u8>| !(#[trigger] w.contains_key(k)) implies value_at(
                dbf,
                new_v,
                k,
            ) == value_at(db0, old_v, k) by {
                assert forall|j: int| 0 <= j < wp.len() implies (#[trigger] wp[j]).0 != k by {
                    if wp[j].0 == k {
                        assert(w.contains_key(k));
                    }
                }
                assert(entry_lookup(dbf.entries, new_v, k) == entry_lookup(db0.entries, new_v, k));
                lemma_lookup_version_clamp(db0.entries, old_v, new_v, k);
            }
        }
    }
}

} // verus!
