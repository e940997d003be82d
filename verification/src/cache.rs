//! The first-read/last-write cache: a per-scope log that, for each key
//! touched, remembers the value observed on first access and the value left
//! by the last write.

use vstd::prelude::*;

use crate::storage::opt_value_view;
use crate::storage::duplicate_opt_value;
use crate::storage::opt_cache_value_eq;
use crate::storage::CacheKey;
use crate::storage::CacheValue;

verus! {

/// The mathematical record the cache keeps for one key: the value observed on
/// first access (if the key was ever read) and the value left by the last
/// write (if the key was ever written). The inner `Option` distinguishes a
/// present value from a recorded absence.
#[verifier::ext_equal]
pub ghost struct AccessView {
    pub first_read: Option<Option<Seq<u8>>>,
    pub last_write: Option<Option<Seq<u8>>>,
}

/// An access record is meaningful only if the key was read or written.
pub open spec fn access_wf(a: AccessView) -> bool {
    a.first_read is Some || a.last_write is Some
}

/// The value a read of the key would currently observe: the last write if one
/// exists, else the first read.
pub open spec fn current_of(a: AccessView) -> Option<Seq<u8>> {
    match a.last_write {
        Option::Some(w) => w,
        Option::None => match a.first_read {
            Option::Some(f) => f,
            Option::None => Option::None,
        },
    }
}

/// The mapping described by a sequence of key/value pairs, later pairs
/// winning.
pub open spec fn pairs_to_map<V>(s: Seq<(Seq<u8>, V)>) -> Map<Seq<u8>, V>
    decreases s.len(),
{
    if s.len() == 0 {
        Map::empty()
    } else {
        pairs_to_map(s.drop_last()).insert(s.last().0, s.last().1)
    }
}

/// No key occurs twice in the pair sequence.
pub open spec fn unique_keys<V>(s: Seq<(Seq<u8>, V)>) -> bool {
    forall|i: int, j: int| 0 <= i < j < s.len() ==> s[i].0 != s[j].0
}

/// With unique keys, the mapping of a pair sequence contains exactly the
/// listed keys, each bound to its listed value.
pub proof fn lemma_pairs_to_map_props<V>(s: Seq<(Seq<u8>, V)>)
    requires
        unique_keys(s),
    ensures
        forall|k: Seq<u8>|
            pairs_to_map(s).contains_key(k) <==> (exists|i: int| 0 <= i < s.len() && s[i].0 == k),
        forall|i: int|
            0 <= i < s.len() ==> pairs_to_map(s).contains_key(#[trigger] s[i].0)
                && pairs_to_map(s)[s[i].0] == s[i].1,
    decreases s.len(),
{
    if s.len() > 0 {
        let p = s.drop_last();
        assert(forall|i: int| 0 <= i < p.len() ==> #[trigger] p[i] == s[i]);
        assert(unique_keys(p));
        lemma_pairs_to_map_props(p);
        assert forall|k: Seq<u8>| pairs_to_map(s).contains_key(k) implies (exists|i: int|
            0 <= i < s.len() && s[i].0 == k) by {
            if k == s.last().0 {
                assert(s[s.len() - 1].0 == k);
            } else {
                assert(pairs_to_map(p).contains_key(k));
                let i = choose|i: int| 0 <= i < p.len() && p[i].0 == k;
                assert(p[i] == s[i]);
                assert(s[i].0 == k);
            }
        }
        assert forall|k: Seq<u8>| (exists|i: int| 0 <= i < s.len() && s[i].0 == k)
            implies pairs_to_map(s).contains_key(k) by {
            let i = choose|i: int| 0 <= i < s.len() && s[i].0 == k;
            if i < s.len() - 1 {
                assert(p[i].0 == k);
            }
        }
        assert forall|i: int| 0 <= i < s.len() implies pairs_to_map(s).contains_key(
            #[trigger] s[i].0,
        ) && pairs_to_map(s)[s[i].0] == s[i].1 by {
            if i < s.len() - 1 {
                assert(p[i] == s[i]);
                assert(s[i].0 != s.last().0);
            }
        }
    }
}

/// A key is in the mapping of a pair sequence exactly when some pair lists
/// it.
pub proof fn lemma_pairs_to_map_contains<V>(s: Seq<(Seq<u8>, V)>, k: Seq<u8>)
    ensures
        pairs_to_map(s).contains_key(k) <==> (exists|i: int| 0 <= i < s.len() && s[i].0 == k),
    decreases s.len(),
{
    if s.len() > 0 {
        let p = s.drop_last();
        assert(forall|i: int| 0 <= i < p.len() ==> #[trigger] p[i] == s[i]);
        lemma_pairs_to_map_contains(p, k);
        if pairs_to_map(s).contains_key(k) {
            if k == s.last().0 {
                assert(s[s.len() - 1].0 == k);
            } else {
                let i = choose|i: int| 0 <= i < p.len() && p[i].0 == k;
                assert(s[i].0 == k);
            }
        }
        if exists|i: int| 0 <= i < s.len() && s[i].0 == k {
            let i = choose|i: int| 0 <= i < s.len() && s[i].0 == k;
            if i < s.len() - 1 {
                assert(p[i].0 == k);
            }
        }
    }
}

/// The last pair listing a key decides its binding.
pub proof fn lemma_pairs_to_map_last<V>(s: Seq<(Seq<u8>, V)>, i: int)
    requires
        0 <= i < s.len(),
        forall|j: int| i < j < s.len() ==> s[j].0 != s[i].0,
    ensures
        pairs_to_map(s).contains_key(s[i].0),
        pairs_to_map(s)[s[i].0] == s[i].1,
    decreases s.len(),
{
    if i < s.len() - 1 {
        let p = s.drop_last();
        assert(forall|j: int| 0 <= j < p.len() ==> #[trigger] p[j] == s[j]);
        lemma_pairs_to_map_last(p, i);
        assert(s.last().0 != s[i].0);
    }
}

/// Appending a pair with a fresh key inserts it into the mapping.
pub proof fn lemma_pairs_to_map_push<V>(s: Seq<(Seq<u8>, V)>, k: Seq<u8>, v: V)
    requires
        unique_keys(s),
        forall|i: int| 0 <= i < s.len() ==> s[i].0 != k,
    ensures
        unique_keys(s.push((k, v))),
        pairs_to_map(s.push((k, v))) == pairs_to_map(s).insert(k, v),
{
    let s2 = s.push((k, v));
    assert(s2.drop_last() =~= s);
    assert(forall|i: int, j: int|
        0 <= i < j < s2.len() ==> s2[i].0 != s2[j].0) by {
        assert(forall|i: int| 0 <= i < s.len() ==> s2[i] == s[i]);
    }
}

/// Replacing the value of one pair updates its key's binding and nothing else.
pub proof fn lemma_pairs_to_map_update<V>(s: Seq<(Seq<u8>, V)>, i: int, v: V)
    requires
        unique_keys(s),
        0 <= i < s.len(),
    ensures
        unique_keys(s.update(i, (s[i].0, v))),
        pairs_to_map(s.update(i, (s[i].0, v))) == pairs_to_map(s).insert(s[i].0, v),
{
    let k = s[i].0;
    let s2 = s.update(i, (k, v));
    assert(forall|j: int| 0 <= j < s.len() && j != i ==> s2[j] == s[j]);
    assert(unique_keys(s2));
    lemma_pairs_to_map_props(s);
    lemma_pairs_to_map_props(s2);
    let m2 = pairs_to_map(s).insert(k, v);
    assert forall|k2: Seq<u8>| pairs_to_map(s2).contains_key(k2) implies m2.contains_key(k2)
        && pairs_to_map(s2)[k2] == m2[k2] by {
        let j = choose|j: int| 0 <= j < s2.len() && s2[j].0 == k2;
        if j == i {
            assert(pairs_to_map(s2)[k2] == v);
        } else {
            assert(s[j].0 == k2);
            assert(k2 != k);
            assert(pairs_to_map(s2)[k2] == s[j].1);
        }
    }
    assert forall|k2: Seq<u8>| m2.contains_key(k2) implies pairs_to_map(s2).contains_key(k2) by {
        if k2 == k {
            assert(s2[i].0 == k2);
        } else {
            let j = choose|j: int| 0 <= j < s.len() && s[j].0 == k2;
            assert(s2[j].0 == k2);
        }
    }
    assert(pairs_to_map(s2) =~= m2);
}

/// Recording a key whose first read is set extends the first-read snapshot by
/// exactly that binding.
pub proof fn lemma_first_reads_insert(m: Map<Seq<u8>, AccessView>, k: Seq<u8>, a: AccessView)
    requires
        a.first_read is Some,
    ensures
        spec_first_reads(m.insert(k, a)) == spec_first_reads(m).insert(k, a.first_read->0),
{
    let lhs = spec_first_reads(m.insert(k, a));
    let rhs = spec_first_reads(m).insert(k, a.first_read->0);
    assert forall|k2: Seq<u8>| #![auto] lhs.contains_key(k2) == rhs.contains_key(k2) by {
        if k2 != k {
            assert(m.insert(k, a).contains_key(k2) == m.contains_key(k2));
            if m.contains_key(k2) {
                assert(m.insert(k, a)[k2] == m[k2]);
            }
        }
    }
    assert forall|k2: Seq<u8>| lhs.contains_key(k2) implies lhs[k2] == rhs[k2] by {
        if k2 != k {
            assert(m.insert(k, a)[k2] == m[k2]);
        }
    }
    assert(lhs =~= rhs);
}

/// Recording a fresh key whose first read is unset leaves the first-read
/// snapshot unchanged.
pub proof fn lemma_first_reads_same(m: Map<Seq<u8>, AccessView>, k: Seq<u8>, a: AccessView)
    requires
        a.first_read is None,
        !m.contains_key(k),
    ensures
        spec_first_reads(m.insert(k, a)) == spec_first_reads(m),
{
    let lhs = spec_first_reads(m.insert(k, a));
    let rhs = spec_first_reads(m);
    assert forall|k2: Seq<u8>| #![auto] lhs.contains_key(k2) == rhs.contains_key(k2) by {
        if k2 != k {
            assert(m.insert(k, a).contains_key(k2) == m.contains_key(k2));
            if m.contains_key(k2) {
                assert(m.insert(k, a)[k2] == m[k2]);
            }
        }
    }
    assert forall|k2: Seq<u8>| lhs.contains_key(k2) implies lhs[k2] == rhs[k2] by {
        assert(m.insert(k, a)[k2] == m[k2]);
    }
    assert(lhs =~= rhs);
}

/// Recording a key whose last write is set extends the pending writes by
/// exactly that binding.
pub proof fn lemma_writes_insert(m: Map<Seq<u8>, AccessView>, k: Seq<u8>, a: AccessView)
    requires
        a.last_write is Some,
    ensures
        spec_writes(m.insert(k, a)) == spec_writes(m).insert(k, a.last_write->0),
{
    let lhs = spec_writes(m.insert(k, a));
    let rhs = spec_writes(m).insert(k, a.last_write->0);
    assert forall|k2: Seq<u8>| #![auto] lhs.contains_key(k2) == rhs.contains_key(k2) by {
        if k2 != k {
            assert(m.insert(k, a).contains_key(k2) == m.contains_key(k2));
            if m.contains_key(k2) {
                assert(m.insert(k, a)[k2] == m[k2]);
            }
        }
    }
    assert forall|k2: Seq<u8>| lhs.contains_key(k2) implies lhs[k2] == rhs[k2] by {
        if k2 != k {
            assert(m.insert(k, a)[k2] == m[k2]);
        }
    }
    assert(lhs =~= rhs);
}

/// Recording a fresh key whose last write is unset leaves the pending writes
/// unchanged.
pub proof fn lemma_writes_same(m: Map<Seq<u8>, AccessView>, k: Seq<u8>, a: AccessView)
    requires
        a.last_write is None,
        !m.contains_key(k),
    ensures
        spec_writes(m.insert(k, a)) == spec_writes(m),
{
    let lhs = spec_writes(m.insert(k, a));
    let rhs = spec_writes(m);
    assert forall|k2: Seq<u8>| #![auto] lhs.contains_key(k2) == rhs.contains_key(k2) by {
        if k2 != k {
            assert(m.insert(k, a).contains_key(k2) == m.contains_key(k2));
            if m.contains_key(k2) {
                assert(m.insert(k, a)[k2] == m[k2]);
            }
        }
    }
    assert forall|k2: Seq<u8>| lhs.contains_key(k2) implies lhs[k2] == rhs[k2] by {
        assert(m.insert(k, a)[k2] == m[k2]);
    }
    assert(lhs =~= rhs);
}

/// Raised when two reads of one key in one scope observed different values
/// without an intervening recorded write: an internal-consistency violation.
#[derive(Debug, Clone, PartialEq, Eq)]
pub enum ReadError {
    InconsistentRead,
}

/// Raised when merging a child scope into a parent scope would contradict the
/// parent's recorded state for some key.
#[derive(Debug, Clone, PartialEq, Eq)]
pub enum MergeError {
    MergeConflict,
}

/// Whether the scope may record `v` as an observed read of `k` without
/// contradicting an earlier recorded first read.
pub open spec fn spec_read_ok(m: Map<Seq<u8>, AccessView>, k: Seq<u8>, v: Option<Seq<u8>>) -> bool {
    m.contains_key(k) && m[k].first_read is Some ==> m[k].first_read->0 == v
}

/// The scope after recording an observed read of `k` with value `v`.
pub open spec fn spec_add_read(
    m: Map<Seq<u8>, AccessView>,
    k: Seq<u8>,
    v: Option<Seq<u8>>,
) -> Map<Seq<u8>, AccessView> {
    if m.contains_key(k) {
        m.insert(
            k,
            AccessView {
                first_read: if m[k].first_read is Some {
                    m[k].first_read
                } else {
                    Option::Some(v)
                },
                last_write: m[k].last_write,
            },
        )
    } else {
        m.insert(k, AccessView { first_read: Option::Some(v), last_write: Option::None })
    }
}

/// The scope after recording a write of `v` to `k`: the last write is
/// replaced, the first read (if any) is kept.
pub open spec fn spec_add_write(
    m: Map<Seq<u8>, AccessView>,
    k: Seq<u8>,
    v: Option<Seq<u8>>,
) -> Map<Seq<u8>, AccessView> {
    m.insert(
        k,
        AccessView {
            first_read: if m.contains_key(k) {
                m[k].first_read
            } else {
                Option::None
            },
            last_write: Option::Some(v),
        },
    )
}

/// The first-read snapshot of a scope: each key that was ever read, bound to
/// the value observed on its first access.
pub open spec fn spec_first_reads(m: Map<Seq<u8>, AccessView>) -> Map<Seq<u8>, Option<Seq<u8>>> {
    Map::new(
        |k: Seq<u8>| m.contains_key(k) && m[k].first_read is Some,
        |k: Seq<u8>| m[k].first_read->0,
    )
}

/// The pending writes of a scope: each key that was ever written, bound to
/// the value left by its last write.
pub open spec fn spec_writes(m: Map<Seq<u8>, AccessView>) -> Map<Seq<u8>, Option<Seq<u8>>> {
    Map::new(
        |k: Seq<u8>| m.contains_key(k) && m[k].last_write is Some,
        |k: Seq<u8>| m[k].last_write->0,
    )
}

/// One key's record after a child scope is folded into a parent scope: the
/// parent's first read takes precedence, the child's last write takes
/// precedence.
pub open spec fn merge_access(pa: AccessView, ca: AccessView) -> AccessView {
    AccessView {
        first_read: if pa.first_read is Some {
            pa.first_read
        } else {
            ca.first_read
        },
        last_write: if ca.last_write is Some {
            ca.last_write
        } else {
            pa.last_write
        },
    }
}

/// A child scope may be folded into a parent scope only if every value the
/// child observed on first access agrees with what the parent showed for that
/// key at the time.
pub open spec fn spec_can_merge(p: Map<Seq<u8>, AccessView>, c: Map<Seq<u8>, AccessView>) -> bool {
    forall|k: Seq<u8>|
        c.contains_key(k) && (#[trigger] c[k]).first_read is Some && p.contains_key(k)
            ==> current_of(p[k]) == c[k].first_read->0
}

/// The parent scope after the child scope is folded into it.
pub open spec fn spec_merge(
    p: Map<Seq<u8>, AccessView>,
    c: Map<Seq<u8>, AccessView>,
) -> Map<Seq<u8>, AccessView> {
    Map::new(
        |k: Seq<u8>| p.contains_key(k) || c.contains_key(k),
        |k: Seq<u8>|
            if c.contains_key(k) {
                if p.contains_key(k) {
                    merge_access(p[k], c[k])
                } else {
                    c[k]
                }
            } else {
                p[k]
            },
    )
}

/// Answer of a cache query: the key has a record with its current (possibly
/// absent) value, or the key is unknown to this scope.
pub enum ValueExists {
    Yes(Option<CacheValue>),
    No,
}

struct CacheEntry {
    key: CacheKey,
    first_read: Option<Option<CacheValue>>,
    last_write: Option<Option<CacheValue>>,
}

/// The per-scope first-read/last-write log.
pub struct CacheLog {
    entries: Vec<CacheEntry>,
}

/// The first-read snapshot of a scope, in the order the keys were first
/// touched; the proof-witness input.
pub struct FirstReads {
    reads: Vec<(CacheKey, Option<CacheValue>)>,
}

spec fn outer_view(v: Option<Option<CacheValue>>) -> Option<Option<Seq<u8>>> {
    match v {
        Option::Some(inner) => Option::Some(opt_value_view(inner)),
        Option::None => Option::None,
    }
}

spec fn entry_pair(e: CacheEntry) -> (Seq<u8>, AccessView) {
    (e.key@, AccessView { first_read: outer_view(e.first_read), last_write: outer_view(e.last_write) })
}

spec fn entry_pairs(s: Seq<CacheEntry>) -> Seq<(Seq<u8>, AccessView)> {
    s.map_values(|e: CacheEntry| entry_pair(e))
}

/// The mathematical view of one key/value pair.
pub open spec fn read_pair(p: (CacheKey, Option<CacheValue>)) -> (Seq<u8>, Option<Seq<u8>>) {
    (p.0@, opt_value_view(p.1))
}

/// The mathematical view of a sequence of key/value pairs.
pub open spec fn read_pairs(s: Seq<(CacheKey, Option<CacheValue>)>) -> Seq<(Seq<u8>, Option<Seq<u8>>)> {
    s.map_values(|p: (CacheKey, Option<CacheValue>)| read_pair(p))
}

impl View for CacheLog {
    type V = Map<Seq<u8>, AccessView>;

    closed spec fn view(&self) -> Map<Seq<u8>, AccessView> {
        pairs_to_map(entry_pairs(self.entries@))
    }
}

impl View for FirstReads {
    type V = Map<Seq<u8>, Option<Seq<u8>>>;

    closed spec fn view(&self) -> Map<Seq<u8>, Option<Seq<u8>>> {
        pairs_to_map(read_pairs(self.reads@))
    }
}

fn duplicate_outer(v: &Option<Option<CacheValue>>) -> (r: Option<Option<CacheValue>>)
    ensures
        outer_view(r) == outer_view(*v),
{
    match v {
        Option::Some(inner) => Option::Some(duplicate_opt_value(inner)),
        Option::None => Option::None,
    }
}

impl CacheLog {
    /// The log is well formed: no key is recorded twice, and every record
    /// stems from at least one read or write.
    pub closed spec fn wf(&self) -> bool {
        &&& unique_keys(entry_pairs(self.entries@))
        &&& forall|i: int|
            0 <= i < self.entries@.len() ==> access_wf(#[trigger] entry_pairs(self.entries@)[i].1)
    }

    /// A fresh, empty scope log.
    pub fn new() -> (r: Self)
        ensures
            r.wf(),
            r@ == Map::<Seq<u8>, AccessView>::empty(),
    {
        CacheLog { entries: Vec::new() }
    }

    fn find_index(&self, key: &CacheKey) -> (r: Option<usize>)
        ensures
            match r {
                Option::Some(i) => i < self.entries@.len() && self.entries@[i as int].key@ == key@,
                Option::None => forall|i: int|
                    0 <= i < self.entries@.len() ==> (#[trigger] self.entries@[i]).key@ != key@,
            },
    {
        let mut i: usize = 0;
        while i < self.entries.len()
            invariant
                i <= self.entries@.len(),
                forall|j: int| 0 <= j < i ==> (#[trigger] self.entries@[j]).key@ != key@,
            decreases self.entries@.len() - i,
        {
            if crate::storage::bytes_eq(self.entries[i].key.as_bytes(), key.as_bytes()) {
                return Option::Some(i);
            }
            i = i + 1;
        }
        Option::None
    }

    proof fn lemma_view_props(&self)
        requires
            self.wf(),
        ensures
            forall|k: Seq<u8>|
                self@.contains_key(k) <==> (exists|i: int|
                    0 <= i < self.entries@.len() && entry_pairs(self.entries@)[i].0 == k),
            forall|i: int|
                0 <= i < self.entries@.len() ==> self@.contains_key(
                    #[trigger] entry_pairs(self.entries@)[i].0,
                ) && self@[entry_pairs(self.entries@)[i].0] == entry_pairs(self.entries@)[i].1,
    {
        lemma_pairs_to_map_props(entry_pairs(self.entries@));
    }

    /// Records that `value` was observed for `key`. Fails when the key
    /// already has a recorded first read that differs from `value`; the log
    /// is then left unchanged.
    pub fn add_read(&mut self, key: CacheKey, value: Option<CacheValue>) -> (r: Result<
        (),
        ReadError,
    >)
        requires
            old(self).wf(),
        ensures
            final(self).wf(),
            match r {
                Result::Ok(()) => spec_read_ok(old(self)@, key@, opt_value_view(value))
                    && final(self)@ == spec_add_read(old(self)@, key@, opt_value_view(value)),
                Result::Err(e) => e == ReadError::InconsistentRead && !spec_read_ok(
                    old(self)@,
                    key@,
                    opt_value_view(value),
                ) && final(self)@ == old(self)@,
            },
    {
        proof {
            self.lemma_view_props();
        }
        match self.find_index(&key) {
            Option::Some(i) => {
                proof {
                    assert(entry_pairs(self.entries@)[i as int].0 == key@);
                }
                let ghost a = self@[key@];
                match &self.entries[i].first_read {
                    Option::Some(f) => {
                        if opt_cache_value_eq(f, &value) {
                            proof {
                                assert(a.first_read == Option::Some(opt_value_view(value)));
                                assert(self@.insert(key@, a) =~= self@);
                                assert(spec_add_read(self@, key@, opt_value_view(value)) =~~= self@);
                            }
                            Result::Ok(())
                        } else {
                            Result::Err(ReadError::InconsistentRead)
                        }
                    },
                    Option::None => {
                        let e = &self.entries[i];
                        let new_entry = CacheEntry {
                            key,
                            first_read: Option::Some(value),
                            last_write: duplicate_outer(&e.last_write),
                        };
                        let ghost s = self.entries@;
                        self.entries.set(i, new_entry);
                        proof {
                            assert(entry_pairs(self.entries@) =~= entry_pairs(s).update(
                                i as int,
                                (key@, entry_pair(new_entry)).1,
                            ).update(i as int, entry_pairs(self.entries@)[i as int]));
                            assert(entry_pairs(self.entries@) =~= entry_pairs(s).update(
                                i as int,
                                (s[i as int].key@, entry_pair(new_entry).1),
                            ));
                            lemma_pairs_to_map_update(
                                entry_pairs(s),
                                i as int,
                                entry_pair(new_entry).1,
                            );
                            assert(self@ =~~= spec_add_read(
                                pairs_to_map(entry_pairs(s)),
                                key@,
                                opt_value_view(value),
                            ));
                        }
                        Result::Ok(())
                    },
                }
            },
            Option::None => {
                proof {
                    assert(forall|i: int|
                        0 <= i < self.entries@.len()
                            ==> (#[trigger] entry_pairs(self.entries@)[i]).0 != key@);
                    assert(!self@.contains_key(key@));
                }
                let new_entry = CacheEntry {
                    key,
                    first_read: Option::Some(value),
                    last_write: Option::None,
                };
                let ghost s = self.entries@;
                self.entries.push(new_entry);
                proof {
                    assert(entry_pairs(self.entries@) =~= entry_pairs(s).push(
                        (key@, entry_pair(new_entry).1),
                    ));
                    lemma_pairs_to_map_push(entry_pairs(s), key@, entry_pair(new_entry).1);
                    assert(self@ =~~= spec_add_read(
                        pairs_to_map(entry_pairs(s)),
                        key@,
                        opt_value_view(value),
                    ));
                }
                Result::Ok(())
            },
        }
    }

    /// Records or overwrites the last-write value of `key`; a prior read
    /// record is kept. Recording `None` writes a tombstone.
    pub fn add_write(&mut self, key: CacheKey, value: Option<CacheValue>)
        requires
            old(self).wf(),
        ensures
            final(self).wf(),
            final(self)@ == spec_add_write(old(self)@, key@, opt_value_view(value)),
    {
        proof {
            self.lemma_view_props();
        }
        match self.find_index(&key) {
            Option::Some(i) => {
                proof {
                    assert(entry_pairs(self.entries@)[i as int].0 == key@);
                }
                let e = &self.entries[i];
                let new_entry = CacheEntry {
                    key,
                    first_read: duplicate_outer(&e.first_read),
                    last_write: Option::Some(value),
                };
                let ghost s = self.entries@;
                self.entries.set(i, new_entry);
                proof {
                    assert(entry_pairs(self.entries@) =~= entry_pairs(s).update(
                        i as int,
                        (s[i as int].key@, entry_pair(new_entry).1),
                    ));
                    lemma_pairs_to_map_update(entry_pairs(s), i as int, entry_pair(new_entry).1);
                    assert(self@ =~~= spec_add_write(
                        pairs_to_map(entry_pairs(s)),
                        key@,
                        opt_value_view(value),
                    ));
                }
            },
            Option::None => {
                proof {
                    assert(forall|i: int|
                        0 <= i < self.entries@.len()
                            ==> (#[trigger] entry_pairs(self.entries@)[i]).0 != key@);
                    assert(!self@.contains_key(key@));
                }
                let new_entry = CacheEntry {
                    key,
                    first_read: Option::None,
                    last_write: Option::Some(value),
                };
                let ghost s = self.entries@;
                self.entries.push(new_entry);
                proof {
                    assert(entry_pairs(self.entries@) =~= entry_pairs(s).push(
                        (key@, entry_pair(new_entry).1),
                    ));
                    lemma_pairs_to_map_push(entry_pairs(s), key@, entry_pair(new_entry).1);
                    assert(self@ =~~= spec_add_write(
                        pairs_to_map(entry_pairs(s)),
                        key@,
                        opt_value_view(value),
                    ));
                }
            },
        }
    }

    /// Answers whether `key` has any record in this scope, and if so its
    /// current (possibly absent) value.
    pub fn get_value(&self, key: &CacheKey) -> (r: ValueExists)
        requires
            self.wf(),
        ensures
            match r {
                ValueExists::Yes(v) => self@.contains_key(key@) && opt_value_view(v) == current_of(
                    self@[key@],
                ),
                ValueExists::No => !self@.contains_key(key@),
            },
    {
        proof {
            self.lemma_view_props();
        }
        match self.find_index(key) {
            Option::Some(i) => {
                proof {
                    assert(entry_pairs(self.entries@)[i as int].0 == key@);
                }
                let e = &self.entries[i];
                match &e.last_write {
                    Option::Some(w) => ValueExists::Yes(duplicate_opt_value(w)),
                    Option::None => match &e.first_read {
                        Option::Some(f) => ValueExists::Yes(duplicate_opt_value(f)),
                        Option::None => {
                            proof {
                                assert(access_wf(entry_pairs(self.entries@)[i as int].1));
                                assert(false);
                            }
                            ValueExists::No
                        },
                    },
                }
            },
            Option::None => {
                proof {
                    assert(forall|i: int|
                        0 <= i < self.entries@.len()
                            ==> (#[trigger] entry_pairs(self.entries@)[i]).0 != key@);
                }
                ValueExists::No
            },
        }
    }

    fn entry_current(e: &CacheEntry) -> (r: &Option<CacheValue>)
        requires
            access_wf(entry_pair(*e).1),
        ensures
            opt_value_view(*r) == current_of(entry_pair(*e).1),
    {
        match &e.last_write {
            Option::Some(w) => w,
            Option::None => match &e.first_read {
                Option::Some(f) => f,
                Option::None => vstd::pervasive::unreached(),
            },
        }
    }

    /// Returns the first-read snapshot of this scope, in the order the keys
    /// were first touched.
    pub fn get_first_reads(&self) -> (r: FirstReads)
        requires
            self.wf(),
        ensures
            r.wf(),
            r@ == spec_first_reads(self@),
    {
        let ghost full = entry_pairs(self.entries@);
        let mut out: Vec<(CacheKey, Option<CacheValue>)> = Vec::new();
        let mut i: usize = 0;
        while i < self.entries.len()
            invariant
                self.wf(),
                i <= self.entries@.len(),
                unique_keys(read_pairs(out@)),
                pairs_to_map(read_pairs(out@)) == spec_first_reads(
                    pairs_to_map(entry_pairs(self.entries@.subrange(0, i as int))),
                ),
            decreases self.entries@.len() - i,
        {
            let ghost prefix = entry_pairs(self.entries@.subrange(0, i as int));
            let ghost m = pairs_to_map(prefix);
            let e = &self.entries[i];
            let ghost pair = entry_pair(*e);
            proof {
                assert(entry_pairs(self.entries@.subrange(0, i + 1)) =~= prefix.push(pair));
                assert(forall|j: int| 0 <= j < prefix.len() ==> #[trigger] prefix[j]
                    == entry_pairs(self.entries@)[j]);
                assert(forall|j: int| 0 <= j < prefix.len() ==> prefix[j].0 != pair.0) by {
                    assert(pair.0 == entry_pairs(self.entries@)[i as int].0);
                }
                lemma_pairs_to_map_push(prefix, pair.0, pair.1);
            }
            match &e.first_read {
                Option::Some(f) => {
                    proof {
                        lemma_pairs_to_map_props(read_pairs(out@));
                        lemma_pairs_to_map_props(prefix);
                        assert forall|l: int| 0 <= l < read_pairs(out@).len() implies (
                        #[trigger] read_pairs(out@)[l]).0 != pair.0 by {
                            if read_pairs(out@)[l].0 == pair.0 {
                                assert(pairs_to_map(read_pairs(out@)).contains_key(pair.0));
                                assert(m.contains_key(pair.0));
                            }
                        }
                    }
                    let ghost old_out = out@;
                    out.push((e.key.duplicate(), duplicate_opt_value(f)));
                    proof {
                        assert(read_pairs(out@) =~= read_pairs(old_out).push(
                            (pair.0, pair.1.first_read->0),
                        ));
                        lemma_pairs_to_map_push(
                            read_pairs(old_out),
                            pair.0,
                            pair.1.first_read->0,
                        );
                        lemma_first_reads_insert(m, pair.0, pair.1);
                    }
                },
                Option::None => {
                    proof {
                        lemma_pairs_to_map_props(prefix);
                        assert(!m.contains_key(pair.0));
                        lemma_first_reads_same(m, pair.0, pair.1);
                    }
                },
            }
            i = i + 1;
        }
        proof {
            assert(self.entries@.subrange(0, self.entries@.len() as int) =~= self.entries@);
        }
        FirstReads { reads: out }
    }

    /// Returns every pending write as a (key, last-write-or-tombstone) pair
    /// and empties the log; used at finalize.
    pub fn get_all_writes_and_clear_cache(&mut self) -> (r: Vec<(CacheKey, Option<CacheValue>)>)
        requires
            old(self).wf(),
        ensures
            final(self).wf(),
            final(self)@ == Map::<Seq<u8>, AccessView>::empty(),
            unique_keys(read_pairs(r@)),
            pairs_to_map(read_pairs(r@)) == spec_writes(old(self)@),
    {
        let mut out: Vec<(CacheKey, Option<CacheValue>)> = Vec::new();
        let mut i: usize = 0;
        while i < self.entries.len()
            invariant
                self.wf(),
                *self == *old(self),
                i <= self.entries@.len(),
                unique_keys(read_pairs(out@)),
                pairs_to_map(read_pairs(out@)) == spec_writes(
                    pairs_to_map(entry_pairs(self.entries@.subrange(0, i as int))),
                ),
            decreases self.entries@.len() - i,
        {
            let ghost prefix = entry_pairs(self.entries@.subrange(0, i as int));
            let ghost m = pairs_to_map(prefix);
            let e = &self.entries[i];
            let ghost pair = entry_pair(*e);
            proof {
                assert(entry_pairs(self.entries@.subrange(0, i + 1)) =~= prefix.push(pair));
                assert(forall|j: int| 0 <= j < prefix.len() ==> #[trigger] prefix[j]
                    == entry_pairs(self.entries@)[j]);
                assert(forall|j: int| 0 <= j < prefix.len() ==> prefix[j].0 != pair.0) by {
                    assert(pair.0 == entry_pairs(self.entries@)[i as int].0);
                }
                lemma_pairs_to_map_push(prefix, pair.0, pair.1);
            }
            match &e.last_write {
                Option::Some(w) => {
                    proof {
                        lemma_pairs_to_map_props(read_pairs(out@));
                        lemma_pairs_to_map_props(prefix);
                        assert forall|l: int| 0 <= l < read_pairs(out@).len() implies (
                        #[trigger] read_pairs(out@)[l]).0 != pair.0 by {
                            if read_pairs(out@)[l].0 == pair.0 {
                                assert(pairs_to_map(read_pairs(out@)).contains_key(pair.0));
                                assert(m.contains_key(pair.0));
                            }
                        }
                    }
                    let ghost old_out = out@;
                    out.push((e.key.duplicate(), duplicate_opt_value(w)));
                    proof {
                        assert(read_pairs(out@) =~= read_pairs(old_out).push(
                            (pair.0, pair.1.last_write->0),
                        ));
                        lemma_pairs_to_map_push(
                            read_pairs(old_out),
                            pair.0,
                            pair.1.last_write->0,
                        );
                        lemma_writes_insert(m, pair.0, pair.1);
                    }
                },
                Option::None => {
                    proof {
                        lemma_pairs_to_map_props(prefix);
                        assert(!m.contains_key(pair.0));
                        lemma_writes_same(m, pair.0, pair.1);
                    }
                },
            }
            i = i + 1;
        }
        proof {
            assert(self.entries@.subrange(0, self.entries@.len() as int) =~= self.entries@);
        }
        self.entries = Vec::new();
        proof {
            assert(entry_pairs(Seq::<CacheEntry>::empty()) =~= Seq::<(
                Seq<u8>,
                AccessView,
            )>::empty());
            assert(self@ =~~= Map::<Seq<u8>, AccessView>::empty());
        }
        out
    }

    fn can_merge_with(&self, child: &CacheLog) -> (r: bool)
        requires
            self.wf(),
            child.wf(),
        ensures
            r == spec_can_merge(self@, child@),
    {
        proof {
            self.lemma_view_props();
            child.lemma_view_props();
        }
        let ghost cp = entry_pairs(child.entries@);
        let mut i: usize = 0;
        while i < child.entries.len()
            invariant
                self.wf(),
                child.wf(),
                i <= child.entries@.len(),
                cp == entry_pairs(child.entries@),
                forall|j: int|
                    0 <= j < i ==> ((#[trigger] cp[j]).1.first_read is Some && self@.contains_key(
                        cp[j].0,
                    ) ==> current_of(self@[cp[j].0]) == cp[j].1.first_read->0),
            decreases child.entries@.len() - i,
        {
            proof {
                self.lemma_view_props();
            }
            let e = &child.entries[i];
            match &e.first_read {
                Option::Some(f) => {
                    match self.find_index(&e.key) {
                        Option::Some(j) => {
                            proof {
                                assert(entry_pairs(self.entries@)[j as int].0 == e.key@);
                                assert(access_wf(entry_pairs(self.entries@)[j as int].1));
                            }
                            let cur = Self::entry_current(&self.entries[j]);
                            if !opt_cache_value_eq(cur, f) {
                                proof {
                                    child.lemma_view_props();
                                    let k = cp[i as int].0;
                                    assert(child@.contains_key(k) && child@[k] == cp[i as int].1);
                                    assert(!spec_can_merge(self@, child@));
                                }
                                return false;
                            }
                        },
                        Option::None => {
                            proof {
                                assert(forall|l: int|
                                    0 <= l < self.entries@.len()
                                        ==> (#[trigger] entry_pairs(self.entries@)[l]).0
                                        != e.key@);
                                assert(!self@.contains_key(cp[i as int].0));
                            }
                        },
                    }
                },
                Option::None => {},
            }
            i = i + 1;
        }
        proof {
            child.lemma_view_props();
            assert forall|k: Seq<u8>|
                child@.contains_key(k) && (#[trigger] child@[k]).first_read is Some
                    && self@.contains_key(k) implies current_of(self@[k])
                == child@[k].first_read->0 by {
                let j = choose|j: int| 0 <= j < child.entries@.len() && cp[j].0 == k;
                assert(child@[k] == cp[j].1);
            }
        }
        true
    }

    /// Folds the child scope into this parent scope: for every key the child
    /// touched, the parent keeps its own first read (adopting the child's
    /// where it has none) and takes the child's last write. On success the
    /// child is emptied. Fails, changing nothing, when some value the child
    /// observed on first access disagrees with what the parent showed for
    /// that key.
    pub fn merge(&mut self, child: &mut CacheLog) -> (r: Result<(), MergeError>)
        requires
            old(self).wf(),
            old(child).wf(),
        ensures
            final(self).wf(),
            final(child).wf(),
            match r {
                Result::Ok(()) => spec_can_merge(old(self)@, old(child)@) && final(self)@
                    == spec_merge(old(self)@, old(child)@) && final(child)@ == Map::<
                    Seq<u8>,
                    AccessView,
                >::empty(),
                Result::Err(e) => e == MergeError::MergeConflict && !spec_can_merge(
                    old(self)@,
                    old(child)@,
                ) && final(self)@ == old(self)@ && final(child)@ == old(child)@,
            },
    {
        if !self.can_merge_with(child) {
            return Result::Err(MergeError::MergeConflict);
        }
        let ghost p = self@;
        let ghost cp = entry_pairs(child.entries@);
        let mut i: usize = 0;
        while i < child.entries.len()
            invariant
                self.wf(),
                child.wf(),
                *child == *old(child),
                p == old(self)@,
                cp == entry_pairs(child.entries@),
                i <= child.entries@.len(),
                self@ == spec_merge(p, pairs_to_map(cp.subrange(0, i as int))),
            decreases child.entries@.len() - i,
        {
            let ghost prefix = cp.subrange(0, i as int);
            let ghost m = pairs_to_map(prefix);
            let e = &child.entries[i];
            let ghost pair = cp[i as int];
            proof {
                assert(pair == entry_pair(*e));
                assert(forall|j: int| 0 <= j < prefix.len() ==> #[trigger] prefix[j] == cp[j]);
                assert(forall|j: int| 0 <= j < prefix.len() ==> prefix[j].0 != pair.0);
                lemma_pairs_to_map_push(prefix, pair.0, pair.1);
                assert(cp.subrange(0, i + 1) =~= prefix.push(pair));
                lemma_pairs_to_map_props(prefix);
                assert(!m.contains_key(pair.0));
                self.lemma_view_props();
            }
            let ghost target = if p.contains_key(pair.0) {
                merge_access(p[pair.0], pair.1)
            } else {
                pair.1
            };
            proof {
                assert(spec_merge(p, m.insert(pair.0, pair.1)) =~~= spec_merge(p, m).insert(
                    pair.0,
                    target,
                ));
            }
            match self.find_index(&e.key) {
                Option::Some(j) => {
                    proof {
                        assert(entry_pairs(self.entries@)[j as int].0 == e.key@);
                        assert(self@.contains_key(pair.0));
                        assert(self@[pair.0] == entry_pairs(self.entries@)[j as int].1);
                        assert(p.contains_key(pair.0));
                        assert(self@[pair.0] == p[pair.0]);
                    }
                    let pe = &self.entries[j];
                    let new_fr = match &pe.first_read {
                        Option::Some(_) => duplicate_outer(&pe.first_read),
                        Option::None => duplicate_outer(&e.first_read),
                    };
                    let new_lw = match &e.last_write {
                        Option::Some(_) => duplicate_outer(&e.last_write),
                        Option::None => duplicate_outer(&pe.last_write),
                    };
                    let new_entry = CacheEntry {
                        key: e.key.duplicate(),
                        first_read: new_fr,
                        last_write: new_lw,
                    };
                    proof {
                        assert(entry_pair(new_entry).1 =~= target);
                        assert(access_wf(entry_pairs(self.entries@)[j as int].1));
                        assert(access_wf(target));
                    }
                    let ghost s = self.entries@;
                    self.entries.set(j, new_entry);
                    proof {
                        assert(entry_pairs(self.entries@) =~= entry_pairs(s).update(
                            j as int,
                            (s[j as int].key@, entry_pair(new_entry).1),
                        ));
                        lemma_pairs_to_map_update(
                            entry_pairs(s),
                            j as int,
                            entry_pair(new_entry).1,
                        );
                        assert(self@ =~~= spec_merge(p, pairs_to_map(cp.subrange(0, i + 1))));
                    }
                },
                Option::None => {
                    proof {
                        assert(forall|l: int|
                            0 <= l < self.entries@.len()
                                ==> (#[trigger] entry_pairs(self.entries@)[l]).0 != e.key@);
                        assert(!self@.contains_key(pair.0));
                        assert(!p.contains_key(pair.0));
                        assert(target =~= pair.1);
                        assert(access_wf(pair.1));
                    }
                    let new_entry = CacheEntry {
                        key: e.key.duplicate(),
                        first_read: duplicate_outer(&e.first_read),
                        last_write: duplicate_outer(&e.last_write),
                    };
                    let ghost s = self.entries@;
                    self.entries.push(new_entry);
                    proof {
                        assert(entry_pair(new_entry).1 =~= pair.1);
                        assert(entry_pairs(self.entries@) =~= entry_pairs(s).push(
                            (pair.0, entry_pair(new_entry).1),
                        ));
                        lemma_pairs_to_map_push(entry_pairs(s), pair.0, entry_pair(new_entry).1);
                        assert(self@ =~~= spec_merge(p, pairs_to_map(cp.subrange(0, i + 1))));
                    }
                },
            }
            i = i + 1;
        }
        proof {
            assert(cp.subrange(0, cp.len() as int) =~= cp);
            assert(self@ == spec_merge(p, pairs_to_map(cp)));
        }
        child.entries = Vec::new();
        proof {
            assert(entry_pairs(Seq::<CacheEntry>::empty()) =~= Seq::<(
                Seq<u8>,
                AccessView,
            )>::empty());
            assert(child@ =~~= Map::<Seq<u8>, AccessView>::empty());
        }
        Result::Ok(())
    }
}

impl FirstReads {
    /// The snapshot is well formed: no key occurs twice.
    pub closed spec fn wf(&self) -> bool {
        unique_keys(read_pairs(self.reads@))
    }

    /// An empty snapshot.
    pub fn empty() -> (r: Self)
        ensures
            r.wf(),
            r@ == Map::<Seq<u8>, Option<Seq<u8>>>::empty(),
    {
        FirstReads { reads: Vec::new() }
    }

    fn find_index(&self, key: &CacheKey) -> (r: Option<usize>)
        ensures
            match r {
                Option::Some(i) => i < self.reads@.len() && self.reads@[i as int].0@ == key@
                    && forall|j: int|
                    i < j < self.reads@.len() ==> (#[trigger] self.reads@[j]).0@ != key@,
                Option::None => forall|i: int|
                    0 <= i < self.reads@.len() ==> (#[trigger] self.reads@[i]).0@ != key@,
            },
    {
        let mut i: usize = self.reads.len();
        while i > 0
            invariant
                i <= self.reads@.len(),
                forall|j: int| i <= j < self.reads@.len() ==> (#[trigger] self.reads@[j]).0@
                    != key@,
            decreases i,
        {
            i = i - 1;
            if crate::storage::bytes_eq(self.reads[i].0.as_bytes(), key.as_bytes()) {
                return Option::Some(i);
            }
        }
        Option::None
    }

    /// Answers whether the snapshot holds a first read for `key`, and if so
    /// the (possibly absent) value it recorded.
    pub fn get(&self, key: &CacheKey) -> (r: ValueExists)
        ensures
            match r {
                ValueExists::Yes(v) => self@.contains_key(key@) && opt_value_view(v)
                    == self@[key@],
                ValueExists::No => !self@.contains_key(key@),
            },
    {
        match self.find_index(key) {
            Option::Some(i) => {
                proof {
                    assert(read_pairs(self.reads@)[i as int].0 == key@);
                    assert(forall|j: int|
                        i < j < self.reads@.len()
                            ==> (#[trigger] read_pairs(self.reads@)[j]).0 != key@);
                    lemma_pairs_to_map_last(read_pairs(self.reads@), i as int);
                }
                ValueExists::Yes(duplicate_opt_value(&self.reads[i].1))
            },
            Option::None => {
                proof {
                    assert(forall|i: int|
                        0 <= i < self.reads@.len()
                            ==> (#[trigger] read_pairs(self.reads@)[i]).0 != key@);
                    lemma_pairs_to_map_contains(read_pairs(self.reads@), key@);
                }
                ValueExists::No
            },
        }
    }
}

} // verus!
