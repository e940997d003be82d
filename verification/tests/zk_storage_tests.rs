use sov_state::CacheKey;
use sov_state::JmtStorage;
use sov_state::StorageKey;
use sov_state::StorageValue;
use sov_state::ValueExists;
use sov_state::ZkStorage;

fn key(s: &str) -> StorageKey {
    StorageKey::new(s.as_bytes().to_vec())
}

fn value(s: &str) -> StorageValue {
    StorageValue::new(s.as_bytes().to_vec())
}

#[test]
fn first_read_recorded_before_local_write() {
    let mut storage = JmtStorage::temporary();

    assert_eq!(storage.get(key("k")), None);
    storage.set(key("k"), value("v"));
    assert_eq!(storage.get(key("k")), Some(value("v")));

    let first_reads = storage.get_first_reads();
    let ck = CacheKey::new("k".as_bytes().to_vec());
    assert!(matches!(first_reads.get(&ck), ValueExists::Yes(None)));
}

#[test]
fn first_read_is_stable_under_later_writes() {
    let mut storage = JmtStorage::temporary();
    storage.set(key("k"), value("v0"));
    storage.merge();
    storage.finalize();

    let mut storage = JmtStorage::with_db(storage.into_db());
    assert_eq!(storage.get(key("k")), Some(value("v0")));
    storage.set(key("k"), value("v1"));
    storage.set(key("k"), value("v2"));
    assert_eq!(storage.get(key("k")), Some(value("v2")));

    let first_reads = storage.get_first_reads();
    let ck = CacheKey::new("k".as_bytes().to_vec());
    match first_reads.get(&ck) {
        ValueExists::Yes(Some(v)) => assert_eq!(v.as_bytes(), "v0".as_bytes()),
        _ => panic!("first read of k should be the committed value"),
    }
}

#[test]
fn zk_replay_matches_native_execution() {
    let mut native = JmtStorage::temporary();
    native.set(key("seed"), value("committed"));
    native.merge();
    native.finalize();

    let mut native = JmtStorage::with_db(native.into_db());
    let native_outputs = (
        native.get(key("seed")),
        native.get(key("missing")),
        {
            native.set(key("fresh"), value("new"));
            native.get(key("fresh"))
        },
        {
            native.delete(key("seed"));
            native.get(key("seed"))
        },
    );

    let witness = native.get_first_reads();
    let mut zk = ZkStorage::new(witness);
    let zk_outputs = (
        zk.get(key("seed")),
        zk.get(key("missing")),
        {
            zk.set(key("fresh"), value("new"));
            zk.get(key("fresh"))
        },
        {
            zk.delete(key("seed"));
            zk.get(key("seed"))
        },
    );

    assert_eq!(native_outputs, zk_outputs);
    assert_eq!(native_outputs.0, Some(value("committed")));
    assert_eq!(native_outputs.1, None);
    assert_eq!(native_outputs.2, Some(value("new")));
    assert_eq!(native_outputs.3, None);
}

#[test]
fn zk_storage_serves_writes_and_merges() {
    let mut native = JmtStorage::temporary();
    assert_eq!(native.get(key("k")), None);
    let witness = native.get_first_reads();

    let mut zk = ZkStorage::new(witness);
    assert_eq!(zk.get(key("k")), None);
    zk.set(key("k"), value("v"));
    assert_eq!(zk.get(key("k")), Some(value("v")));
    zk.merge();
    assert_eq!(zk.get(key("k")), Some(value("v")));
    zk.delete(key("k"));
    assert_eq!(zk.get(key("k")), None);
    zk.merge();
    zk.finalize();
}
