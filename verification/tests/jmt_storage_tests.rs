use sov_state::JmtStorage;
use sov_state::StateDB;
use sov_state::StorageKey;
use sov_state::StorageValue;

fn key(s: &str) -> StorageKey {
    StorageKey::new(s.as_bytes().to_vec())
}

fn value(s: &str) -> StorageValue {
    StorageValue::new(s.as_bytes().to_vec())
}

#[test]
fn test_jmt_storage() {
    let db = {
        let key_1 = key("key_1");
        let value_1 = value("value_1");

        let mut storage = JmtStorage::with_db(StateDB::new());
        storage.set(key_1, value_1);
        storage.merge();
        storage.finalize();

        assert_eq!(storage.version(), 1);
        storage.into_db()
    };

    let db = {
        let key_1 = key("key_1");
        let value_1 = value("value_1");

        let mut storage = JmtStorage::with_db(db);

        assert_eq!(value_1, storage.get(key_1).unwrap());

        assert_eq!(storage.version(), 1);

        let key_2 = key("key_2");
        let value_2 = value("value_2");
        assert_eq!(storage.version(), 1);
        storage.set(key_2, value_2);
        storage.merge();
        storage.finalize();
        assert_eq!(storage.version(), 2);
        storage.into_db()
    };

    {
        let mut storage = JmtStorage::with_db(db);
        assert_eq!(storage.version(), 2);

        let key_2 = key("key_2");
        let value_2 = value("value_2");

        storage.set(key_2, value_2);
        storage.merge();
        storage.finalize();
        assert_eq!(storage.version(), 3);
    }
}

#[test]
fn write_visibility_before_commit() {
    let mut storage = JmtStorage::temporary();
    storage.set(key("k"), value("v"));
    assert_eq!(storage.get(key("k")), Some(value("v")));
}

#[test]
fn delete_visibility() {
    let mut storage = JmtStorage::temporary();
    storage.set(key("k"), value("v"));
    storage.delete(key("k"));
    assert_eq!(storage.get(key("k")), None);
}

#[test]
fn delete_of_committed_key_is_visible_and_persists() {
    let mut storage = JmtStorage::temporary();
    storage.set(key("k"), value("v"));
    storage.merge();
    storage.finalize();

    let mut storage = JmtStorage::with_db(storage.into_db());
    storage.delete(key("k"));
    assert_eq!(storage.get(key("k")), None);
    storage.merge();
    storage.finalize();
    assert_eq!(storage.version(), 2);

    let mut storage = JmtStorage::with_db(storage.into_db());
    assert_eq!(storage.get(key("k")), None);
}

#[test]
fn empty_finalize_keeps_version() {
    let mut storage = JmtStorage::temporary();
    storage.finalize();
    assert_eq!(storage.version(), 0);

    storage.set(key("k"), value("v"));
    storage.merge();
    storage.finalize();
    assert_eq!(storage.version(), 1);

    storage.finalize();
    assert_eq!(storage.version(), 1);
}

#[test]
fn commit_persists_into_fresh_instance() {
    let mut storage = JmtStorage::temporary();
    storage.set(key("k1"), value("v1"));
    storage.merge();
    storage.finalize();
    assert_eq!(storage.version(), 1);

    let mut fresh = JmtStorage::with_db(storage.into_db());
    assert_eq!(fresh.version(), 1);
    assert_eq!(fresh.get(key("k1")), Some(value("v1")));
}

#[test]
fn earlier_values_survive_later_commits() {
    let mut storage = JmtStorage::temporary();
    storage.set(key("k1"), value("v1"));
    storage.merge();
    storage.finalize();
    assert_eq!(storage.version(), 1);

    let mut storage = JmtStorage::with_db(storage.into_db());
    storage.set(key("k2"), value("v2"));
    storage.merge();
    storage.finalize();
    assert_eq!(storage.version(), 2);

    let mut storage = JmtStorage::with_db(storage.into_db());
    assert_eq!(storage.get(key("k1")), Some(value("v1")));
    assert_eq!(storage.get(key("k2")), Some(value("v2")));
}

#[test]
fn last_write_wins_across_transactions() {
    let mut storage = JmtStorage::temporary();
    storage.set(key("k"), value("v1"));
    storage.merge();
    storage.set(key("k"), value("v2"));
    storage.merge();
    storage.finalize();

    let mut fresh = JmtStorage::with_db(storage.into_db());
    assert_eq!(fresh.get(key("k")), Some(value("v2")));
}

#[test]
fn key_image_is_the_sha256_digest_of_the_key() {
    let mut storage = JmtStorage::temporary();
    storage.set(key("key_1"), value("value_1"));
    storage.merge();
    storage.finalize();

    let db = storage.into_db();
    let image = <sha2::Sha256 as sha2::Digest>::digest("key_1".as_bytes())
        .as_slice()
        .to_vec();
    assert_eq!(db.get_preimage(&image), Some("key_1".as_bytes().to_vec()));
    assert_eq!(db.get_preimage(&"key_1".as_bytes().to_vec()), None);
}
