use percolator::cell::{Column, Value};
use percolator::msg::{CommitRequest, GetRequest, PrewriteRequest, TxnError, Write};
use percolator::storage::MemoryStorage;

fn prewrite(s: &mut MemoryStorage, key: &str, value: &str, primary: &str, start_ts: u64) -> Result<(), TxnError> {
    let req = PrewriteRequest {
        write: Write { key: key.as_bytes().to_vec(), value: value.as_bytes().to_vec() },
        primary: Write { key: primary.as_bytes().to_vec(), value: Vec::new() },
        start_ts,
    };
    s.prewrite(req).map(|_| ())
}

fn commit(s: &mut MemoryStorage, key: &str, start_ts: u64, commit_ts: u64, is_primary: bool) -> Result<(), TxnError> {
    let req = CommitRequest {
        is_primary,
        write: Write { key: key.as_bytes().to_vec(), value: Vec::new() },
        start_ts,
        commit_ts,
    };
    s.commit(req).map(|_| ())
}

fn get(s: &mut MemoryStorage, key: &str, start_ts: u64) -> Result<Vec<u8>, TxnError> {
    s.get(GetRequest { key: key.as_bytes().to_vec(), start_ts }).map(|r| r.value)
}

fn committed_x() -> MemoryStorage {
    let mut s = MemoryStorage::new();
    assert_eq!(prewrite(&mut s, "x", "1", "x", 10), Ok(()));
    assert_eq!(commit(&mut s, "x", 10, 11, true), Ok(()));
    s
}

#[test]
fn single_key_commit_is_visible_to_later_reader() {
    let mut s = committed_x();
    assert_eq!(get(&mut s, "x", 12), Ok(b"1".to_vec()));
    assert_eq!(get(&mut s, "x", 11), Ok(b"1".to_vec()));
}

#[test]
fn reader_below_commit_sees_nothing() {
    let mut s = committed_x();
    assert_eq!(get(&mut s, "x", 9), Ok(Vec::new()));
    assert_eq!(get(&mut s, "x", 10), Ok(Vec::new()));
}

#[test]
fn prewrite_below_a_commit_is_a_write_conflict() {
    let mut s = committed_x();
    assert_eq!(prewrite(&mut s, "x", "2", "x", 5), Err(TxnError::WriteConflict));
    assert_eq!(prewrite(&mut s, "x", "2", "x", 11), Err(TxnError::WriteConflict));
    assert_eq!(get(&mut s, "x", 12), Ok(b"1".to_vec()));
    assert_eq!(prewrite(&mut s, "x", "2", "x", 12), Ok(()));
}

#[test]
fn prewrite_on_a_locked_key_is_a_lock_conflict() {
    let mut s = MemoryStorage::new();
    assert_eq!(prewrite(&mut s, "y", "a", "y", 20), Ok(()));
    assert_eq!(prewrite(&mut s, "y", "b", "y", 21), Err(TxnError::LockConflict));
    assert_eq!(prewrite(&mut s, "y", "b", "y", 19), Err(TxnError::LockConflict));
    let t = s.get_snapshot();
    let (k, v) = t.read(b"y".to_vec(), Column::Data, None, None).unwrap();
    assert_eq!(k, &(b"y".to_vec(), 20));
    assert_eq!(v.as_bytes(), Some(&b"a".to_vec()));
}

#[test]
fn dead_transaction_is_rolled_back() {
    let mut s = MemoryStorage::new();
    assert_eq!(prewrite(&mut s, "z", "q", "z", 30), Ok(()));
    assert_eq!(get(&mut s, "z", 100_000_040), Err(TxnError::Backoff));
    assert_eq!(get(&mut s, "z", 100_000_040), Ok(Vec::new()));
    assert_eq!(get(&mut s, "z", 100_000_041), Ok(Vec::new()));
    let t = s.get_snapshot();
    assert!(t.read(b"z".to_vec(), Column::Lock, Some(30), Some(30)).is_none());
    assert!(t.read(b"z".to_vec(), Column::Data, Some(30), Some(30)).is_none());
    assert!(t.read(b"z".to_vec(), Column::Lock, None, None).is_none());
}

#[test]
fn abandoned_secondary_is_rolled_forward() {
    let mut s = MemoryStorage::new();
    assert_eq!(prewrite(&mut s, "p", "vp", "p", 40), Ok(()));
    assert_eq!(prewrite(&mut s, "s", "vs", "p", 40), Ok(()));
    assert_eq!(commit(&mut s, "p", 40, 41, true), Ok(()));
    assert_eq!(get(&mut s, "s", 50), Err(TxnError::Backoff));
    let t = s.get_snapshot();
    let (k, v) = t.read(b"s".to_vec(), Column::Write, None, None).unwrap();
    assert_eq!(k, &(b"s".to_vec(), 41));
    assert_eq!(v.as_ts(), Some(40));
    assert!(t.read(b"s".to_vec(), Column::Lock, Some(40), Some(40)).is_none());
    assert_eq!(get(&mut s, "s", 50), Ok(b"vs".to_vec()));
    assert_eq!(get(&mut s, "p", 50), Ok(b"vp".to_vec()));
}

#[test]
fn live_lock_is_left_alone() {
    let mut s = MemoryStorage::new();
    assert_eq!(prewrite(&mut s, "z", "q", "z", 30), Ok(()));
    s.clean_up_lock(30 + 100_000_000, 30, b"z".to_vec());
    let t = s.get_snapshot();
    assert!(t.read(b"z".to_vec(), Column::Lock, Some(30), Some(30)).is_some());
    s.clean_up_lock(29, 30, b"z".to_vec());
    assert!(s.get_snapshot().read(b"z".to_vec(), Column::Lock, Some(30), Some(30)).is_some());
    s.clean_up_lock(30 + 100_000_001, 30, b"z".to_vec());
    let t = s.get_snapshot();
    assert!(t.read(b"z".to_vec(), Column::Lock, None, None).is_none());
    assert!(t.read(b"z".to_vec(), Column::Data, None, None).is_none());
    let _ = Value::Timestamp(0);
}

#[test]
fn commit_of_primary_without_lock_is_refused() {
    let mut s = MemoryStorage::new();
    assert_eq!(commit(&mut s, "k", 5, 6, true), Err(TxnError::LockNotFound));
    assert!(s.get_snapshot().read(b"k".to_vec(), Column::Write, None, None).is_none());
    assert_eq!(prewrite(&mut s, "k", "v", "k", 5), Ok(()));
    assert_eq!(commit(&mut s, "k", 4, 6, true), Err(TxnError::LockNotFound));
    assert_eq!(commit(&mut s, "k", 5, 6, true), Ok(()));
    assert_eq!(commit(&mut s, "k", 5, 6, true), Err(TxnError::LockNotFound));
}
