use sov_state::CacheKey;
use sov_state::CacheLog;
use sov_state::CacheValue;
use sov_state::MergeError;
use sov_state::MockPublicKey;
use sov_state::MockSignature;
use sov_state::ReadError;
use sov_state::ValueExists;

fn ck(s: &str) -> CacheKey {
    CacheKey::new(s.as_bytes().to_vec())
}

fn cv(s: &str) -> CacheValue {
    CacheValue::new(s.as_bytes().to_vec())
}

#[test]
fn add_read_is_idempotent_for_equal_values() {
    let mut log = CacheLog::new();
    assert!(log.add_read(ck("k"), Some(cv("v"))).is_ok());
    assert!(log.add_read(ck("k"), Some(cv("v"))).is_ok());
}

#[test]
fn inconsistent_read_is_rejected() {
    let mut log = CacheLog::new();
    assert!(log.add_read(ck("k"), Some(cv("v1"))).is_ok());
    let second = log.add_read(ck("k"), Some(cv("v2")));
    assert!(matches!(second, Err(ReadError::InconsistentRead)));
    let absent = log.add_read(ck("k"), None);
    assert!(matches!(absent, Err(ReadError::InconsistentRead)));
}

#[test]
fn get_value_sees_last_write() {
    let mut log = CacheLog::new();
    assert!(matches!(log.get_value(&ck("k")), ValueExists::No));
    log.add_write(ck("k"), Some(cv("v1")));
    match log.get_value(&ck("k")) {
        ValueExists::Yes(Some(v)) => assert_eq!(v.as_bytes(), "v1".as_bytes()),
        _ => panic!("key should be known with value v1"),
    }
    log.add_write(ck("k"), None);
    assert!(matches!(log.get_value(&ck("k")), ValueExists::Yes(None)));
}

#[test]
fn merge_conflict_is_rejected_and_changes_nothing() {
    let mut parent = CacheLog::new();
    assert!(parent.add_read(ck("k"), Some(cv("v1"))).is_ok());
    let mut child = CacheLog::new();
    assert!(child.add_read(ck("k"), Some(cv("v2"))).is_ok());

    let r = parent.merge(&mut child);
    assert!(matches!(r, Err(MergeError::MergeConflict)));
    match parent.get_value(&ck("k")) {
        ValueExists::Yes(Some(v)) => assert_eq!(v.as_bytes(), "v1".as_bytes()),
        _ => panic!("parent should keep its record"),
    }
    match child.get_value(&ck("k")) {
        ValueExists::Yes(Some(v)) => assert_eq!(v.as_bytes(), "v2".as_bytes()),
        _ => panic!("child should keep its record"),
    }
}

#[test]
fn merge_keeps_earlier_first_read_and_later_write() {
    let mut batch = CacheLog::new();

    let mut t1 = CacheLog::new();
    assert!(t1.add_read(ck("k"), None).is_ok());
    t1.add_write(ck("k"), Some(cv("v1")));
    assert!(batch.merge(&mut t1).is_ok());

    let mut t2 = CacheLog::new();
    assert!(t2.add_read(ck("k"), Some(cv("v1"))).is_ok());
    t2.add_write(ck("k"), Some(cv("v2")));
    assert!(batch.merge(&mut t2).is_ok());

    let first_reads = batch.get_first_reads();
    assert!(matches!(first_reads.get(&ck("k")), ValueExists::Yes(None)));
    match batch.get_value(&ck("k")) {
        ValueExists::Yes(Some(v)) => assert_eq!(v.as_bytes(), "v2".as_bytes()),
        _ => panic!("batch should hold the latest write"),
    }
}

#[test]
fn merge_empties_the_child() {
    let mut parent = CacheLog::new();
    let mut child = CacheLog::new();
    child.add_write(ck("k"), Some(cv("v")));
    assert!(parent.merge(&mut child).is_ok());
    assert!(matches!(child.get_value(&ck("k")), ValueExists::No));
}

#[test]
fn drained_writes_skip_read_only_keys_and_clear_the_log() {
    let mut log = CacheLog::new();
    assert!(log.add_read(ck("r"), Some(cv("seen"))).is_ok());
    log.add_write(ck("w"), Some(cv("v")));
    log.add_write(ck("d"), None);

    let mut writes = log.get_all_writes_and_clear_cache();
    writes.sort_by(|a, b| a.0.as_bytes().cmp(b.0.as_bytes()));
    assert_eq!(writes.len(), 2);
    assert_eq!(writes[0].0.as_bytes(), "d".as_bytes());
    assert!(writes[0].1.is_none());
    assert_eq!(writes[1].0.as_bytes(), "w".as_bytes());
    assert_eq!(writes[1].1.as_ref().unwrap().as_bytes(), "v".as_bytes());
    assert!(matches!(log.get_value(&ck("w")), ValueExists::No));
}

#[test]
fn write_only_keys_have_no_first_read() {
    let mut log = CacheLog::new();
    log.add_write(ck("w"), Some(cv("v")));
    assert!(log.add_read(ck("r"), Some(cv("seen"))).is_ok());
    let first_reads = log.get_first_reads();
    assert!(matches!(first_reads.get(&ck("w")), ValueExists::No));
    match first_reads.get(&ck("r")) {
        ValueExists::Yes(Some(v)) => assert_eq!(v.as_bytes(), "seen".as_bytes()),
        _ => panic!("read key should be in the first-read snapshot"),
    }
}

#[test]
fn mock_identities_compare_by_bytes() {
    let a = MockPublicKey::new("alice".as_bytes().to_vec());
    let b = MockPublicKey::new("alice".as_bytes().to_vec());
    let c = MockPublicKey::new("bob".as_bytes().to_vec());
    assert!(a == b);
    assert!(a != c);
    assert_eq!(a.as_bytes(), "alice".as_bytes());

    let s1 = MockSignature::new(vec![1, 2, 3]);
    let s2 = MockSignature::new(vec![1, 2, 3]);
    assert!(s1 == s2);
}

#[test]
fn mock_contexts_expose_their_sender() {
    let ctx = sov_state::MockContext::new(MockPublicKey::new(vec![7]));
    assert_eq!(ctx.sender().as_bytes(), &vec![7u8]);
    let zk_ctx = sov_state::ZkMockContext::new(MockPublicKey::new(vec![9]));
    assert_eq!(zk_ctx.sender().as_bytes(), &vec![9u8]);
}
