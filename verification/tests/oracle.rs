use percolator::clock::low_64_bits;
use percolator::msg::{TimestampRequest, TxnError};
use percolator::oracle::TimestampOracle;

#[test]
fn advance_follows_the_clock_when_it_runs_ahead() {
    let mut o = TimestampOracle::new();
    assert_eq!(o.advance(100), Some(100));
    assert_eq!(o.advance(250), Some(250));
    assert_eq!(o.advance(251), Some(251));
}

#[test]
fn advance_steps_by_one_when_the_clock_stands_or_goes_back() {
    let mut o = TimestampOracle::new();
    assert_eq!(o.advance(100), Some(100));
    assert_eq!(o.advance(100), Some(101));
    assert_eq!(o.advance(50), Some(102));
    assert_eq!(o.advance(0), Some(103));
    assert_eq!(o.advance(103), Some(104));
    assert_eq!(o.advance(105), Some(105));
}

#[test]
fn advance_from_a_fresh_oracle_with_a_clock_at_zero() {
    let mut o = TimestampOracle::default();
    assert_eq!(o.advance(0), Some(1));
    assert_eq!(o.advance(0), Some(2));
}

#[test]
fn advance_ends_at_the_largest_timestamp() {
    let mut o = TimestampOracle::new();
    assert_eq!(o.advance(u64::MAX - 1), Some(u64::MAX - 1));
    assert_eq!(o.advance(3), Some(u64::MAX));
    assert_eq!(o.advance(3), None);
    assert_eq!(o.advance(u64::MAX), None);
}

#[test]
fn timestamps_strictly_increase() {
    let mut o = TimestampOracle::new();
    let mut last = 0u64;
    for _ in 0..1000 {
        let ts = o.get_timestamp(TimestampRequest {}).unwrap().ts;
        assert!(ts > last);
        last = ts;
    }
}

#[test]
fn timestamps_come_from_the_wall_clock() {
    let mut o = TimestampOracle::new();
    let before = std::time::SystemTime::now()
        .duration_since(std::time::UNIX_EPOCH)
        .unwrap()
        .as_nanos() as u64;
    let ts = o.get_timestamp(TimestampRequest {}).unwrap().ts;
    let after = std::time::SystemTime::now()
        .duration_since(std::time::UNIX_EPOCH)
        .unwrap()
        .as_nanos() as u64;
    assert!(before <= ts);
    assert!(ts <= after);
}

#[test]
fn low_bits_of_a_wide_number() {
    assert_eq!(low_64_bits(0), 0);
    assert_eq!(low_64_bits(12345), 12345);
    assert_eq!(low_64_bits(u64::MAX as u128), u64::MAX);
    assert_eq!(low_64_bits(u64::MAX as u128 + 1), 0);
    assert_eq!(low_64_bits((7u128 << 64) + 42), 42);
    assert_eq!(low_64_bits(u128::MAX), u64::MAX);
}

#[test]
fn error_tags() {
    assert_eq!(TxnError::Backoff.message(), "Backoff");
    assert_eq!(TxnError::WriteConflict.message(), "write conflict");
    assert_eq!(TxnError::LockConflict.message(), "key has already locked");
    assert_eq!(TxnError::LockNotFound.message(), "lock is not found");
}
