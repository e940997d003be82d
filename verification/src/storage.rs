//! Byte-sequence wrappers for storage keys and values, and the cache's
//! internal key/value representation.

use vstd::prelude::*;

verus! {

/// A raw storage key: an immutable byte sequence.
#[derive(Clone, Debug, PartialEq, Eq, Hash)]
pub struct StorageKey {
    key: Vec<u8>,
}

/// A raw storage value: an immutable byte sequence. Absence of a value is
/// expressed by the surrounding `Option`.
#[derive(Clone, Debug, PartialEq, Eq)]
pub struct StorageValue {
    value: Vec<u8>,
}

/// The cache's internal key representation.
#[derive(Clone, Debug, PartialEq, Eq, Hash)]
pub struct CacheKey {
    key: Vec<u8>,
}

/// The cache's internal value representation.
#[derive(Clone, Debug, PartialEq, Eq)]
pub struct CacheValue {
    value: Vec<u8>,
}

impl View for StorageKey {
    type V = Seq<u8>;

    closed spec fn view(&self) -> Seq<u8> {
        self.key@
    }
}

impl View for StorageValue {
    type V = Seq<u8>;

    closed spec fn view(&self) -> Seq<u8> {
        self.value@
    }
}

impl View for CacheKey {
    type V = Seq<u8>;

    closed spec fn view(&self) -> Seq<u8> {
        self.key@
    }
}

impl View for CacheValue {
    type V = Seq<u8>;

    closed spec fn view(&self) -> Seq<u8> {
        self.value@
    }
}

/// Copies a byte vector.
pub fn clone_bytes(v: &Vec<u8>) -> (r: Vec<u8>)
    ensures
        r@ == v@,
{
    let mut r: Vec<u8> = Vec::new();
    let mut i: usize = 0;
    while i < v.len()
        invariant
            i <= v.len(),
            r@ == v@.subrange(0, i as int),
        decreases v.len() - i,
    {
        r.push(v[i]);
        proof {
            assert(r@ =~= v@.subrange(0, i + 1 as int));
        }
        i = i + 1;
    }
    proof {
        assert(r@ =~= v@);
    }
    r
}

/// Compares two byte vectors for byte-exact equality.
pub fn bytes_eq(a: &Vec<u8>, b: &Vec<u8>) -> (r: bool)
    ensures
        r == (a@ == b@),
{
    if a.len() != b.len() {
        proof {
            assert(a@.len() != b@.len());
        }
        return false;
    }
    let mut i: usize = 0;
    while i < a.len()
        invariant
            i <= a.len(),
            a@.len() == b@.len(),
            forall|j: int| 0 <= j < i ==> a@[j] == b@[j],
        decreases a.len() - i,
    {
        if a[i] != b[i] {
            return false;
        }
        i = i + 1;
    }
    proof {
        assert(a@ =~= b@);
    }
    true
}

impl StorageKey {
    /// Wraps raw key bytes.
    pub fn new(key: Vec<u8>) -> (r: Self)
        ensures
            r@ == key@,
    {
        StorageKey { key }
    }

    /// The raw key bytes.
    pub fn as_bytes(&self) -> (r: &Vec<u8>)
        ensures
            r@ == self@,
    {
        &self.key
    }

    /// The cache-internal form of this key.
    pub fn as_cache_key(&self) -> (r: CacheKey)
        ensures
            r@ == self@,
    {
        CacheKey { key: clone_bytes(&self.key) }
    }

    /// Consumes the key, yielding the cache-internal form.
    pub fn into_cache_key(self) -> (r: CacheKey)
        ensures
            r@ == self@,
    {
        CacheKey { key: self.key }
    }
}

impl StorageValue {
    /// Wraps raw value bytes.
    pub fn new(value: Vec<u8>) -> (r: Self)
        ensures
            r@ == value@,
    {
        StorageValue { value }
    }

    /// Wraps raw value bytes read back from the persistent store.
    pub fn new_from_bytes(value: Vec<u8>) -> (r: Self)
        ensures
            r@ == value@,
    {
        StorageValue { value }
    }

    /// Converts a cache-internal value into a storage value.
    pub fn new_from_cache_value(value: CacheValue) -> (r: Self)
        ensures
            r@ == value@,
    {
        StorageValue { value: value.value }
    }

    /// The raw value bytes.
    pub fn as_bytes(&self) -> (r: &Vec<u8>)
        ensures
            r@ == self@,
    {
        &self.value
    }

    /// The cache-internal form of this value.
    pub fn as_cache_value(&self) -> (r: CacheValue)
        ensures
            r@ == self@,
    {
        CacheValue { value: clone_bytes(&self.value) }
    }

    /// Consumes the value, yielding the cache-internal form.
    pub fn into_cache_value(self) -> (r: CacheValue)
        ensures
            r@ == self@,
    {
        CacheValue { value: self.value }
    }
}

impl CacheKey {
    /// Wraps raw key bytes.
    pub fn new(key: Vec<u8>) -> (r: Self)
        ensures
            r@ == key@,
    {
        CacheKey { key }
    }

    /// The raw key bytes.
    pub fn as_bytes(&self) -> (r: &Vec<u8>)
        ensures
            r@ == self@,
    {
        &self.key
    }

    /// A copy of this key.
    pub fn duplicate(&self) -> (r: Self)
        ensures
            r@ == self@,
    {
        CacheKey { key: clone_bytes(&self.key) }
    }
}

impl CacheValue {
    /// Wraps raw value bytes.
    pub fn new(value: Vec<u8>) -> (r: Self)
        ensures
            r@ == value@,
    {
        CacheValue { value }
    }

    /// The raw value bytes.
    pub fn as_bytes(&self) -> (r: &Vec<u8>)
        ensures
            r@ == self@,
    {
        &self.value
    }

    /// A copy of this value.
    pub fn duplicate(&self) -> (r: Self)
        ensures
            r@ == self@,
    {
        CacheValue { value: clone_bytes(&self.value) }
    }
}

/// Compares two optional cache values for byte-exact equality.
pub fn opt_cache_value_eq(a: &Option<CacheValue>, b: &Option<CacheValue>) -> (r: bool)
    ensures
        r == (opt_value_view(*a) == opt_value_view(*b)),
{
    match (a, b) {
        (Option::Some(av), Option::Some(bv)) => bytes_eq(&av.value, &bv.value),
        (Option::None, Option::None) => true,
        _ => false,
    }
}

/// The mathematical view of an optional cache value: the byte sequence it
/// holds, or `None` for a recorded absence.
pub open spec fn opt_value_view(v: Option<CacheValue>) -> Option<Seq<u8>> {
    match v {
        Option::Some(cv) => Option::Some(cv@),
        Option::None => Option::None,
    }
}

/// The mathematical view of an optional storage value.
pub open spec fn opt_storage_value_view(v: Option<StorageValue>) -> Option<Seq<u8>> {
    match v {
        Option::Some(sv) => Option::Some(sv@),
        Option::None => Option::None,
    }
}

/// Copies an optional cache value.
pub fn duplicate_opt_value(v: &Option<CacheValue>) -> (r: Option<CacheValue>)
    ensures
        opt_value_view(r) == opt_value_view(*v),
{
    match v {
        Option::Some(cv) => Option::Some(cv.duplicate()),
        Option::None => Option::None,
    }
}

} // verus!
