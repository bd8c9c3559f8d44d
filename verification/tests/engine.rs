use percolator::cell::Column;
use percolator::msg::{CommitRequest, GetRequest, PrewriteRequest, TimestampRequest, TxnError, Write};
use percolator::oracle::TimestampOracle;
use percolator::protocol::MAX_TIME_TO_ALIVE;
use percolator::storage::{lock_expired, MemoryStorage};
use percolator::table::KvTable;

fn bytes(s: &str) -> Vec<u8> {
    s.as_bytes().to_vec()
}

fn put(s: &mut MemoryStorage, key: &str, value: &str, primary: &str, start_ts: u64) -> Result<(), TxnError> {
    let req = PrewriteRequest {
        write: Write { key: bytes(key), value: bytes(value) },
        primary: Write { key: bytes(primary), value: Vec::new() },
        start_ts,
    };
    s.prewrite(req).map(|_| ())
}

fn seal(s: &mut MemoryStorage, key: &str, start_ts: u64, commit_ts: u64, is_primary: bool) -> Result<(), TxnError> {
    let req = CommitRequest {
        is_primary,
        write: Write { key: bytes(key), value: Vec::new() },
        start_ts,
        commit_ts,
    };
    s.commit(req).map(|_| ())
}

fn look(s: &mut MemoryStorage, key: &str, start_ts: u64) -> Result<Vec<u8>, TxnError> {
    s.get(GetRequest { key: bytes(key), start_ts }).map(|r| r.value)
}

fn has(t: &KvTable, column: Column, key: &str, ts: u64) -> bool {
    t.read(bytes(key), column, Some(ts), Some(ts)).is_some()
}

fn locks_on(t: &KvTable, key: &str) -> usize {
    let mut n = 0;
    let mut upper = u64::MAX;
    while let Some((k, _)) = t.read(bytes(key), Column::Lock, None, Some(upper)) {
        n += 1;
        if k.1 == 0 {
            break;
        }
        upper = k.1 - 1;
    }
    n
}

#[test]
fn time_to_live_is_a_hundred_milliseconds() {
    assert_eq!(MAX_TIME_TO_ALIVE, 100_000_000);
}

#[test]
fn fresh_engine_reads_nothing() {
    let mut s = MemoryStorage::default();
    assert_eq!(look(&mut s, "k", 0), Ok(Vec::new()));
    assert_eq!(look(&mut s, "k", u64::MAX), Ok(Vec::new()));
}

#[test]
fn prewrite_places_data_and_lock() {
    let mut s = MemoryStorage::new();
    assert_eq!(put(&mut s, "k", "v", "p", 7), Ok(()));
    let t = s.get_snapshot();
    let (k, v) = t.read(bytes("k"), Column::Data, None, None).unwrap();
    assert_eq!((k.0.clone(), k.1), (bytes("k"), 7));
    assert_eq!(v.as_bytes(), Some(&bytes("v")));
    let (k, v) = t.read(bytes("k"), Column::Lock, None, None).unwrap();
    assert_eq!((k.0.clone(), k.1), (bytes("k"), 7));
    assert_eq!(v.as_bytes(), Some(&bytes("p")));
    assert!(t.read(bytes("k"), Column::Write, None, None).is_none());
    assert!(t.read(bytes("p"), Column::Lock, None, None).is_none());
}

#[test]
fn failed_prewrite_changes_nothing() {
    let mut s = MemoryStorage::new();
    assert_eq!(put(&mut s, "k", "v", "k", 7), Ok(()));
    assert_eq!(put(&mut s, "k", "w", "k", 8), Err(TxnError::LockConflict));
    let t = s.get_snapshot();
    assert!(!has(&t, Column::Data, "k", 8));
    assert!(!has(&t, Column::Lock, "k", 8));
    assert_eq!(t.read(bytes("k"), Column::Data, None, None).unwrap().1.as_bytes(), Some(&bytes("v")));
}

#[test]
fn write_conflict_comes_before_lock_conflict() {
    let mut s = MemoryStorage::new();
    assert_eq!(put(&mut s, "k", "v", "k", 10), Ok(()));
    assert_eq!(seal(&mut s, "k", 10, 20, true), Ok(()));
    assert_eq!(put(&mut s, "k", "w", "k", 30), Ok(()));
    assert_eq!(put(&mut s, "k", "x", "k", 15), Err(TxnError::WriteConflict));
    assert_eq!(put(&mut s, "k", "x", "k", 20), Err(TxnError::WriteConflict));
    assert_eq!(put(&mut s, "k", "x", "k", 21), Err(TxnError::LockConflict));
}

#[test]
fn of_two_racing_prewrites_one_succeeds() {
    for (first, second) in [(10u64, 11u64), (11, 10), (10, 10)] {
        let mut s = MemoryStorage::new();
        assert_eq!(put(&mut s, "k", "a", "k", first), Ok(()));
        let r = put(&mut s, "k", "b", "k", second);
        assert!(r == Err(TxnError::LockConflict) || r == Err(TxnError::WriteConflict));
        assert_eq!(locks_on(&s.get_snapshot(), "k"), 1);
    }
}

#[test]
fn commit_records_the_write_and_releases_the_lock() {
    let mut s = MemoryStorage::new();
    assert_eq!(put(&mut s, "k", "v", "k", 10), Ok(()));
    assert_eq!(seal(&mut s, "k", 10, 12, true), Ok(()));
    let t = s.get_snapshot();
    let (k, v) = t.read(bytes("k"), Column::Write, None, None).unwrap();
    assert_eq!(k.1, 12);
    assert_eq!(v.as_ts(), Some(10));
    assert_eq!(locks_on(&t, "k"), 0);
    assert!(has(&t, Column::Data, "k", 10));
}

#[test]
fn secondary_commit_does_not_ask_for_the_lock() {
    let mut s = MemoryStorage::new();
    assert_eq!(put(&mut s, "p", "1", "p", 10), Ok(()));
    assert_eq!(put(&mut s, "s", "2", "p", 10), Ok(()));
    assert_eq!(seal(&mut s, "p", 10, 11, true), Ok(()));
    assert_eq!(seal(&mut s, "s", 10, 11, false), Ok(()));
    assert_eq!(seal(&mut s, "s", 10, 11, false), Ok(()));
    assert_eq!(look(&mut s, "s", 11), Ok(bytes("2")));
    assert_eq!(look(&mut s, "p", 11), Ok(bytes("1")));
    assert_eq!(look(&mut s, "s", 10), Ok(Vec::new()));
}

#[test]
fn commit_before_the_start_leaves_the_lock() {
    let mut s = MemoryStorage::new();
    assert_eq!(put(&mut s, "k", "v", "k", 10), Ok(()));
    assert_eq!(seal(&mut s, "k", 10, 9, true), Ok(()));
    let t = s.get_snapshot();
    assert!(has(&t, Column::Lock, "k", 10));
    assert_eq!(t.read(bytes("k"), Column::Write, None, None).unwrap().0.1, 9);
}

#[test]
fn reader_sees_the_latest_commit_at_or_below_its_snapshot() {
    let mut s = MemoryStorage::new();
    assert_eq!(put(&mut s, "k", "one", "k", 10), Ok(()));
    assert_eq!(seal(&mut s, "k", 10, 11, true), Ok(()));
    assert_eq!(put(&mut s, "k", "two", "k", 20), Ok(()));
    assert_eq!(seal(&mut s, "k", 20, 21, true), Ok(()));
    assert_eq!(look(&mut s, "k", 10), Ok(Vec::new()));
    assert_eq!(look(&mut s, "k", 11), Ok(bytes("one")));
    assert_eq!(look(&mut s, "k", 20), Ok(bytes("one")));
    assert_eq!(look(&mut s, "k", 21), Ok(bytes("two")));
    assert_eq!(look(&mut s, "k", u64::MAX), Ok(bytes("two")));
}

#[test]
fn lock_above_the_snapshot_does_not_block() {
    let mut s = MemoryStorage::new();
    assert_eq!(put(&mut s, "k", "one", "k", 10), Ok(()));
    assert_eq!(seal(&mut s, "k", 10, 11, true), Ok(()));
    assert_eq!(put(&mut s, "k", "two", "k", 20), Ok(()));
    assert_eq!(look(&mut s, "k", 19), Ok(bytes("one")));
    assert!(has(&s.get_snapshot(), Column::Lock, "k", 20));
}

#[test]
fn read_that_meets_a_lock_changes_no_write() {
    let mut s = MemoryStorage::new();
    assert_eq!(put(&mut s, "k", "one", "k", 10), Ok(()));
    assert_eq!(look(&mut s, "k", 10), Err(TxnError::Backoff));
    assert!(s.get_snapshot().read(bytes("k"), Column::Write, None, None).is_none());
}

#[test]
fn live_lock_blocks_and_stays() {
    let mut oracle = TimestampOracle::new();
    let start_ts = oracle.get_timestamp(TimestampRequest {}).unwrap().ts;
    let mut s = MemoryStorage::new();
    assert_eq!(put(&mut s, "k", "v", "k", start_ts), Ok(()));
    assert_eq!(look(&mut s, "k", start_ts + 1), Err(TxnError::Backoff));
    let t = s.get_snapshot();
    assert!(has(&t, Column::Lock, "k", start_ts));
    assert!(has(&t, Column::Data, "k", start_ts));
    assert_eq!(seal(&mut s, "k", start_ts, start_ts + 2, true), Ok(()));
    assert_eq!(look(&mut s, "k", start_ts + 2), Ok(bytes("v")));
}

#[test]
fn clean_up_keeps_to_the_time_to_live() {
    let mut s = MemoryStorage::new();
    assert_eq!(put(&mut s, "k", "v", "k", 1_000), Ok(()));
    for now in [0u64, 999, 1_000, 1_001, 1_000 + MAX_TIME_TO_ALIVE] {
        s.clean_up_lock(now, 1_000, bytes("k"));
        assert!(has(&s.get_snapshot(), Column::Lock, "k", 1_000));
    }
    s.clean_up_lock(1_001 + MAX_TIME_TO_ALIVE, 1_000, bytes("k"));
    assert!(!has(&s.get_snapshot(), Column::Lock, "k", 1_000));
    assert!(!has(&s.get_snapshot(), Column::Data, "k", 1_000));
}

#[test]
fn roll_back_takes_every_key_of_the_transaction() {
    let mut s = MemoryStorage::new();
    assert_eq!(put(&mut s, "p", "1", "p", 40), Ok(()));
    assert_eq!(put(&mut s, "left", "2", "p", 40), Ok(()));
    assert_eq!(put(&mut s, "right", "3", "p", 40), Ok(()));
    assert_eq!(put(&mut s, "other", "4", "other", 41), Ok(()));
    assert_eq!(look(&mut s, "left", 50), Err(TxnError::Backoff));
    let t = s.get_snapshot();
    for k in ["p", "left", "right"] {
        assert!(!has(&t, Column::Lock, k, 40));
        assert!(!has(&t, Column::Data, k, 40));
        assert!(t.read(bytes(k), Column::Write, None, None).is_none());
    }
    assert!(has(&t, Column::Lock, "other", 41));
    assert!(has(&t, Column::Data, "other", 41));
    assert_eq!(seal(&mut s, "p", 40, 60, true), Err(TxnError::LockNotFound));
}

#[test]
fn roll_forward_takes_every_key_of_the_transaction() {
    let mut s = MemoryStorage::new();
    assert_eq!(put(&mut s, "p", "1", "p", 40), Ok(()));
    assert_eq!(put(&mut s, "left", "2", "p", 40), Ok(()));
    assert_eq!(put(&mut s, "right", "3", "p", 40), Ok(()));
    assert_eq!(seal(&mut s, "p", 40, 45, true), Ok(()));
    assert_eq!(look(&mut s, "right", 50), Err(TxnError::Backoff));
    let t = s.get_snapshot();
    for k in ["p", "left", "right"] {
        assert!(!has(&t, Column::Lock, k, 40));
        assert!(has(&t, Column::Data, k, 40));
        let (w, v) = t.read(bytes(k), Column::Write, None, None).unwrap();
        assert_eq!(w.1, 45);
        assert_eq!(v.as_ts(), Some(40));
    }
    assert_eq!(t.get_commit_ts(40, bytes("p")), Some(45));
    assert_eq!(look(&mut s, "left", 45), Ok(bytes("2")));
    assert_eq!(look(&mut s, "right", 44), Ok(Vec::new()));
}

#[test]
fn clean_up_goes_by_the_lock_below_the_snapshot() {
    let mut s = MemoryStorage::new();
    assert_eq!(put(&mut s, "k", "v", "k", 40), Ok(()));
    s.back_off_maybe_clean_up_lock(39, bytes("k"));
    assert!(has(&s.get_snapshot(), Column::Lock, "k", 40));
    s.back_off_maybe_clean_up_lock(40, bytes("other"));
    assert!(has(&s.get_snapshot(), Column::Lock, "k", 40));
    s.back_off_maybe_clean_up_lock(40, bytes("k"));
    assert!(!has(&s.get_snapshot(), Column::Lock, "k", 40));
}

#[test]
fn roll_back_takes_older_data_of_the_key_too() {
    let mut s = MemoryStorage::new();
    assert_eq!(put(&mut s, "x", "1", "x", 10), Ok(()));
    assert_eq!(seal(&mut s, "x", 10, 11, true), Ok(()));
    assert_eq!(put(&mut s, "x", "2", "x", 30), Ok(()));
    assert_eq!(look(&mut s, "x", 50), Err(TxnError::Backoff));
    let t = s.get_snapshot();
    assert!(!has(&t, Column::Lock, "x", 30));
    assert!(!has(&t, Column::Data, "x", 30));
    assert!(!has(&t, Column::Data, "x", 10));
    assert!(has(&t, Column::Write, "x", 11));
    assert_eq!(look(&mut s, "x", 50), Ok(Vec::new()));
}

#[test]
fn primary_decides_by_its_lock_or_its_commit() {
    let mut s = MemoryStorage::new();
    assert!(!s.primary_decides(40, &bytes("p")));
    assert_eq!(put(&mut s, "p", "1", "p", 40), Ok(()));
    assert!(s.primary_decides(40, &bytes("p")));
    assert!(!s.primary_decides(41, &bytes("p")));
    assert!(!s.primary_decides(40, &bytes("q")));
    assert_eq!(seal(&mut s, "p", 40, 45, true), Ok(()));
    assert!(s.primary_decides(40, &bytes("p")));
    assert!(!s.primary_decides(45, &bytes("p")));
}

#[test]
fn expiry_is_counted_from_the_lock() {
    assert!(!lock_expired(0, 0));
    assert!(!lock_expired(0, 5));
    assert!(!lock_expired(5, u64::MAX));
    assert!(!lock_expired(MAX_TIME_TO_ALIVE, 0));
    assert!(lock_expired(MAX_TIME_TO_ALIVE + 1, 0));
    assert!(!lock_expired(MAX_TIME_TO_ALIVE + 7, 7));
    assert!(lock_expired(MAX_TIME_TO_ALIVE + 8, 7));
    assert!(lock_expired(u64::MAX, 0));
}

#[test]
fn read_beside_a_fresh_lock_with_undecided_primary_backs_off() {
    let mut oracle = TimestampOracle::new();
    let start_ts = oracle.get_timestamp(TimestampRequest {}).unwrap().ts;
    let mut s = MemoryStorage::new();
    assert_eq!(put(&mut s, "s", "2", "p", start_ts), Ok(()));
    assert!(!s.primary_decides(start_ts, &bytes("p")));
    assert_eq!(look(&mut s, "s", start_ts + 1), Err(TxnError::Backoff));
    let t = s.get_snapshot();
    assert!(has(&t, Column::Lock, "s", start_ts));
    assert!(has(&t, Column::Data, "s", start_ts));
    assert!(t.read(bytes("s"), Column::Write, None, None).is_none());
    assert!(t.read(bytes("p"), Column::Lock, None, None).is_none());
    assert!(t.read(bytes("p"), Column::Data, None, None).is_none());
    assert!(t.read(bytes("p"), Column::Write, None, None).is_none());
}

#[test]
fn read_beside_an_expired_lock_with_undecided_primary_backs_off() {
    let mut s = MemoryStorage::new();
    assert_eq!(put(&mut s, "p", "1", "p", 40), Ok(()));
    assert_eq!(look(&mut s, "p", 50), Err(TxnError::Backoff));
    assert_eq!(put(&mut s, "s", "2", "p", 40), Ok(()));
    assert!(!s.primary_decides(40, &bytes("p")));
    for _ in 0..2 {
        assert_eq!(look(&mut s, "s", 50), Err(TxnError::Backoff));
        let t = s.get_snapshot();
        assert!(has(&t, Column::Lock, "s", 40));
        assert!(has(&t, Column::Data, "s", 40));
        assert!(t.read(bytes("s"), Column::Write, None, None).is_none());
        assert!(t.read(bytes("p"), Column::Lock, None, None).is_none());
    }
    assert_eq!(look(&mut s, "s", 39), Ok(Vec::new()));
}

#[test]
fn secondary_prewritten_before_its_primary_is_left_to_the_primary() {
    let mut s = MemoryStorage::new();
    assert_eq!(put(&mut s, "s", "2", "p", 40), Ok(()));
    s.back_off_maybe_clean_up_lock(50, bytes("s"));
    assert!(has(&s.get_snapshot(), Column::Lock, "s", 40));
    assert_eq!(put(&mut s, "p", "1", "p", 40), Ok(()));
    assert_eq!(seal(&mut s, "p", 40, 41, true), Ok(()));
    assert_eq!(look(&mut s, "s", 50), Err(TxnError::Backoff));
    assert_eq!(look(&mut s, "s", 50), Ok(bytes("2")));
}

#[test]
fn snapshot_is_a_copy() {
    let mut s = MemoryStorage::new();
    assert_eq!(put(&mut s, "k", "v", "k", 10), Ok(()));
    let before = s.get_snapshot();
    assert_eq!(seal(&mut s, "k", 10, 11, true), Ok(()));
    assert!(has(&before, Column::Lock, "k", 10));
    assert!(before.read(bytes("k"), Column::Write, None, None).is_none());
    let after = s.get_snapshot();
    assert!(!has(&after, Column::Lock, "k", 10));
    assert!(has(&after, Column::Write, "k", 11));
}

#[test]
fn writes_point_to_data_and_keys_hold_one_lock_after_a_run() {
    let mut s = MemoryStorage::new();
    let mut all: Vec<String> = Vec::new();
    let mut ts = 10u64;
    for round in 0..6 {
        let keys = [format!("a{}", round / 2), format!("b{}", round / 2), format!("c{}", round / 2)];
        for k in &keys {
            let _ = put(&mut s, k, "v", &keys[0], ts);
            let _ = put(&mut s, k, "w", &keys[0], ts + 1);
            all.push(k.clone());
        }
        if round % 2 == 1 {
            assert_eq!(seal(&mut s, &keys[0], ts, ts + 5, true), Ok(()));
            let _ = seal(&mut s, &keys[1], ts, ts + 5, false);
        }
        assert_eq!(look(&mut s, &keys[2], ts + 6), Err(TxnError::Backoff));
        let t = s.get_snapshot();
        for k in &all {
            assert!(locks_on(&t, k) <= 1);
            let mut upper = u64::MAX;
            while let Some((w, v)) = t.read(bytes(k), Column::Write, None, Some(upper)) {
                let data_ts = v.as_ts().unwrap();
                assert!(data_ts <= w.1);
                assert!(has(&t, Column::Data, k, data_ts));
                if w.1 == 0 {
                    break;
                }
                upper = w.1 - 1;
            }
        }
        assert_eq!(look(&mut s, &keys[2], ts + 6), Ok(if round % 2 == 1 { bytes("v") } else { Vec::new() }));
        ts += 10;
    }
}

#[test]
fn both_keys_record_the_commit_timestamp_of_the_primary() {
    let mut s = MemoryStorage::new();
    assert_eq!(put(&mut s, "p", "1", "p", 40), Ok(()));
    assert_eq!(put(&mut s, "k", "2", "p", 40), Ok(()));
    assert_eq!(seal(&mut s, "p", 40, 43, true), Ok(()));
    assert_eq!(seal(&mut s, "k", 40, 43, false), Ok(()));
    let t = s.get_snapshot();
    for key in ["p", "k"] {
        let (w, v) = t.read(bytes(key), Column::Write, None, None).unwrap();
        assert_eq!(w.1, 43);
        assert_eq!(v.as_ts(), Some(40));
        assert!(!has(&t, Column::Lock, key, 40));
    }
    assert_eq!(t.get_commit_ts(40, bytes("p")), Some(43));
    assert_eq!(t.get_commit_ts(40, bytes("k")), Some(43));
}
