//! A two-tier first-read/last-write cached key/value store.
//!
//! Application modules read and write state through a uniform key/value
//! interface while the store keeps, per scope, the value each key had when it
//! was first observed (the proof witness) and the value last written to it.
//! The native store backs reads with a versioned persistent database; the
//! proving store backs them with a fixed witness mapping, so the same module
//! code runs unchanged in both contexts.

pub mod cache;
pub mod laws;
pub mod mocks;
pub mod internal_cache;
pub mod jmt_storage;
pub mod zk_storage;
pub mod storage;

pub use cache::CacheLog;
pub use cache::FirstReads;
pub use cache::MergeError;
pub use cache::ReadError;
pub use cache::ValueExists;
pub use internal_cache::StorageInternalCache;
pub use jmt_storage::JmtStorage;
pub use jmt_storage::StateDB;
pub use mocks::MockContext;
pub use mocks::MockPublicKey;
pub use mocks::MockSignature;
pub use mocks::ZkMockContext;
pub use storage::CacheKey;
pub use storage::CacheValue;
pub use storage::StorageKey;
pub use storage::StorageValue;
pub use zk_storage::ZkStorage;
