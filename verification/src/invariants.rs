//! What holds of the table whatever requests it has served, and what a single
//! request guarantees beyond its own contract.
use crate::cell::ValueView;
use crate::lex::KeyView;
use crate::model::{
    first_commit, has_version_in, is_first_commit, is_latest_in, latest_in,
    lemma_first_commit_exists, lemma_first_commit_is, lemma_latest_none, records_commit,
    TableView,
};
use crate::msg::TxnError;
use crate::protocol::{
    blocker, cleaned_up, commit_reply, commit_table, expired, get_reply, holders,
    prewrite_reply, prewrite_table, primary_decides, resolved, rolled_forward, versions_upto,
    well_typed,
};
use vstd::prelude::*;

verus! {

/// Every write points to data that exists: where `Write` holds the timestamp `s` at
/// `(key, c)`, `Data` holds a cell at `(key, s)`.
pub open spec fn writes_have_data(t: TableView) -> bool {
    forall|k: KeyView| #[trigger]
        t.write.contains_key(k) ==> t.data.contains_key((k.0, t.write[k]->Timestamp_0))
}

/// No key holds two locks.
pub open spec fn lock_exclusive(t: TableView) -> bool {
    forall|key: Seq<u8>, a: u64, b: u64|
        #[trigger] t.lock.contains_key((key, a)) && #[trigger] t.lock.contains_key((key, b)) ==> a
            == b
}

/// Every lock stands beside the data it guards: where `Lock` holds a cell, `Data`
/// holds one at the same key and timestamp.
pub open spec fn locks_have_data(t: TableView) -> bool {
    forall|k: KeyView| #[trigger] t.lock.contains_key(k) ==> t.data.contains_key(k)
}

/// What holds of the table of every engine: each column holds its kind of value, no
/// key holds two locks, and every lock stands beside its data.
pub open spec fn sound(t: TableView) -> bool {
    &&& well_typed(t)
    &&& lock_exclusive(t)
    &&& locks_have_data(t)
}

/// No write points forward in time: the timestamp it holds is at most its own.
pub open spec fn writes_point_back(t: TableView) -> bool {
    forall|k: KeyView| #[trigger] t.write.contains_key(k) ==> t.write[k]->Timestamp_0 <= k.1
}

/// A roll-back of the transaction at `lock_ts` with the primary key `primary` takes no
/// data that a write points to: on the transaction's keys every write points beyond
/// `lock_ts`.
pub open spec fn roll_back_spares_writes(t: TableView, lock_ts: u64, primary: Seq<u8>) -> bool {
    forall|k: KeyView| #[trigger]
        t.write.contains_key(k) && holders(t.lock, lock_ts, primary).contains(k.0)
            ==> t.write[k]->Timestamp_0 > lock_ts
}

/// The clean-up that a read of `key` as of `start_ts` does at time `now` takes no data
/// that a write points to.
pub open spec fn clean_up_spares_writes(t: TableView, now: u64, key: Seq<u8>, start_ts: u64) -> bool {
    blocker(t, key, start_ts) matches Some((lock_ts, primary)) ==> (expired(now, lock_ts)
        && t.lock.contains_key((primary, lock_ts)) ==> roll_back_spares_writes(
        t,
        lock_ts,
        primary,
    ))
}

/// The empty table holds its columns to their kinds of value, has no write without
/// data, no key with two locks, no lock without data and no write that points forward.
pub proof fn lemma_empty_table_is_sound()
    ensures
        sound(TableView::empty()),
        writes_have_data(TableView::empty()),
        writes_point_back(TableView::empty()),
{
}

/// A prewrite keeps every column to its kind of value.
pub proof fn lemma_prewrite_keeps_types(
    t: TableView,
    key: Seq<u8>,
    value: Seq<u8>,
    primary: Seq<u8>,
    start_ts: u64,
)
    requires
        well_typed(t),
    ensures
        well_typed(prewrite_table(t, key, value, primary, start_ts)),
{
}

/// A commit keeps every column to its kind of value.
pub proof fn lemma_commit_keeps_types(
    t: TableView,
    key: Seq<u8>,
    start_ts: u64,
    commit_ts: u64,
    is_primary: bool,
)
    requires
        well_typed(t),
    ensures
        well_typed(commit_table(t, key, start_ts, commit_ts, is_primary)),
{
}

/// Lock clean-up keeps every column to its kind of value.
pub proof fn lemma_resolved_keeps_types(t: TableView, now: u64, lock_ts: u64, primary: Seq<u8>)
    requires
        well_typed(t),
    ensures
        well_typed(resolved(t, now, lock_ts, primary)),
{
}

/// A prewrite leaves no key with two locks: it places a lock only on a key that holds none.
pub proof fn lemma_prewrite_keeps_lock_exclusive(
    t: TableView,
    key: Seq<u8>,
    value: Seq<u8>,
    primary: Seq<u8>,
    start_ts: u64,
)
    requires
        lock_exclusive(t),
    ensures
        lock_exclusive(prewrite_table(t, key, value, primary, start_ts)),
{
    let after = prewrite_table(t, key, value, primary, start_ts);
    if prewrite_reply(t, key, start_ts) is Ok {
        assert forall|k: Seq<u8>, a: u64, b: u64| #[trigger]
            after.lock.contains_key((k, a)) && #[trigger] after.lock.contains_key((k, b)) implies a
            == b by {
            if k == key {
                if t.lock.contains_key((k, a)) {
                    assert(has_version_in(t.lock, key, 0, u64::MAX));
                }
                if t.lock.contains_key((k, b)) {
                    assert(has_version_in(t.lock, key, 0, u64::MAX));
                }
            } else {
                assert(t.lock.contains_key((k, a)));
                assert(t.lock.contains_key((k, b)));
            }
        }
    }
}

/// A commit leaves no key with two locks.
pub proof fn lemma_commit_keeps_lock_exclusive(
    t: TableView,
    key: Seq<u8>,
    start_ts: u64,
    commit_ts: u64,
    is_primary: bool,
)
    requires
        lock_exclusive(t),
    ensures
        lock_exclusive(commit_table(t, key, start_ts, commit_ts, is_primary)),
{
    let after = commit_table(t, key, start_ts, commit_ts, is_primary);
    assert forall|k: Seq<u8>, a: u64, b: u64| #[trigger]
        after.lock.contains_key((k, a)) && #[trigger] after.lock.contains_key((k, b)) implies a
        == b by {
        assert(t.lock.contains_key((k, a)));
        assert(t.lock.contains_key((k, b)));
    }
}

/// Lock clean-up leaves no key with two locks.
pub proof fn lemma_resolved_keeps_lock_exclusive(
    t: TableView,
    now: u64,
    lock_ts: u64,
    primary: Seq<u8>,
)
    requires
        lock_exclusive(t),
    ensures
        lock_exclusive(resolved(t, now, lock_ts, primary)),
{
    let after = resolved(t, now, lock_ts, primary);
    assert forall|k: Seq<u8>, a: u64, b: u64| #[trigger]
        after.lock.contains_key((k, a)) && #[trigger] after.lock.contains_key((k, b)) implies a
        == b by {
        assert(t.lock.contains_key((k, a)));
        assert(t.lock.contains_key((k, b)));
    }
}

/// A prewrite keeps every lock beside its data.
pub proof fn lemma_prewrite_keeps_locks_with_data(
    t: TableView,
    key: Seq<u8>,
    value: Seq<u8>,
    primary: Seq<u8>,
    start_ts: u64,
)
    requires
        locks_have_data(t),
    ensures
        locks_have_data(prewrite_table(t, key, value, primary, start_ts)),
{
    let after = prewrite_table(t, key, value, primary, start_ts);
    assert forall|k: KeyView| #[trigger] after.lock.contains_key(k) implies after.data.contains_key(
        k,
    ) by {
        if k != (key, start_ts) {
            assert(t.lock.contains_key(k));
        }
    }
}

/// A commit keeps every lock beside its data.
pub proof fn lemma_commit_keeps_locks_with_data(
    t: TableView,
    key: Seq<u8>,
    start_ts: u64,
    commit_ts: u64,
    is_primary: bool,
)
    requires
        locks_have_data(t),
    ensures
        locks_have_data(commit_table(t, key, start_ts, commit_ts, is_primary)),
{
    let after = commit_table(t, key, start_ts, commit_ts, is_primary);
    assert forall|k: KeyView| #[trigger] after.lock.contains_key(k) implies after.data.contains_key(
        k,
    ) by {
        assert(t.lock.contains_key(k));
    }
}

/// Lock clean-up keeps every lock beside its data: a roll-back takes the locks along
/// with the data.
pub proof fn lemma_resolved_keeps_locks_with_data(
    t: TableView,
    now: u64,
    lock_ts: u64,
    primary: Seq<u8>,
)
    requires
        locks_have_data(t),
    ensures
        locks_have_data(resolved(t, now, lock_ts, primary)),
{
    let after = resolved(t, now, lock_ts, primary);
    assert forall|k: KeyView| #[trigger] after.lock.contains_key(k) implies after.data.contains_key(
        k,
    ) by {
        assert(t.lock.contains_key(k));
    }
}

/// A prewrite leaves every write pointing to data.
pub proof fn lemma_prewrite_keeps_writes_with_data(
    t: TableView,
    key: Seq<u8>,
    value: Seq<u8>,
    primary: Seq<u8>,
    start_ts: u64,
)
    requires
        writes_have_data(t),
    ensures
        writes_have_data(prewrite_table(t, key, value, primary, start_ts)),
{
    let after = prewrite_table(t, key, value, primary, start_ts);
    assert forall|k: KeyView| #[trigger] after.write.contains_key(k) implies after.data.contains_key(
        (k.0, after.write[k]->Timestamp_0),
    ) by {
        assert(t.write.contains_key(k));
    }
}

/// A commit leaves every write pointing to data, provided that the data it points to
/// is there: for the primary key the lock vouches for it, for another key the caller
/// has to.
pub proof fn lemma_commit_keeps_writes_with_data(
    t: TableView,
    key: Seq<u8>,
    start_ts: u64,
    commit_ts: u64,
    is_primary: bool,
)
    requires
        writes_have_data(t),
        locks_have_data(t),
        !is_primary ==> t.data.contains_key((key, start_ts)),
    ensures
        writes_have_data(commit_table(t, key, start_ts, commit_ts, is_primary)),
{
    let after = commit_table(t, key, start_ts, commit_ts, is_primary);
    if commit_reply(t, key, start_ts, is_primary) is Ok {
        if is_primary {
            assert(t.lock.contains_key((key, start_ts)));
        }
        assert forall|k: KeyView| #[trigger]
            after.write.contains_key(k) implies after.data.contains_key(
            (k.0, after.write[k]->Timestamp_0),
        ) by {
            if k != (key, commit_ts) {
                assert(t.write.contains_key(k));
            }
        }
    }
}

/// Lock clean-up leaves every write pointing to data, provided that a roll-back takes
/// no data that a write points to.
pub proof fn lemma_resolved_keeps_writes_with_data(
    t: TableView,
    now: u64,
    lock_ts: u64,
    primary: Seq<u8>,
)
    requires
        writes_have_data(t),
        locks_have_data(t),
        expired(now, lock_ts) && t.lock.contains_key((primary, lock_ts))
            ==> roll_back_spares_writes(t, lock_ts, primary),
    ensures
        writes_have_data(resolved(t, now, lock_ts, primary)),
{
    let after = resolved(t, now, lock_ts, primary);
    let keys = holders(t.lock, lock_ts, primary);
    assert forall|k: KeyView| #[trigger] after.write.contains_key(k) implies after.data.contains_key(
        (k.0, after.write[k]->Timestamp_0),
    ) by {
        if !expired(now, lock_ts) {
        } else if t.lock.contains_key((primary, lock_ts)) {
            assert(t.write.contains_key(k));
        } else if first_commit(t.write, lock_ts, primary) is Some {
            let c = first_commit(t.write, lock_ts, primary)->Some_0;
            if keys.contains(k.0) && k.1 == c {
                assert(t.lock.contains_key((k.0, lock_ts)));
            } else {
                assert(t.write.contains_key(k));
            }
        }
    }
}

/// A roll-back that takes data which a write points to leaves that write without data.
pub proof fn lemma_roll_back_can_orphan_a_write(
    t: TableView,
    now: u64,
    lock_ts: u64,
    primary: Seq<u8>,
)
    requires
        expired(now, lock_ts),
        t.lock.contains_key((primary, lock_ts)),
        !roll_back_spares_writes(t, lock_ts, primary),
    ensures
        !writes_have_data(resolved(t, now, lock_ts, primary)),
{
    let after = resolved(t, now, lock_ts, primary);
    let k = choose|k: KeyView| #[trigger]
        t.write.contains_key(k) && holders(t.lock, lock_ts, primary).contains(k.0) && !(
        t.write[k]->Timestamp_0 > lock_ts);
    assert(after.write.contains_key(k));
    assert(versions_upto(holders(t.lock, lock_ts, primary), lock_ts).contains(
        (k.0, t.write[k]->Timestamp_0),
    ));
}

/// A prewrite leaves every write pointing back in time.
pub proof fn lemma_prewrite_keeps_writes_pointing_back(
    t: TableView,
    key: Seq<u8>,
    value: Seq<u8>,
    primary: Seq<u8>,
    start_ts: u64,
)
    requires
        writes_point_back(t),
    ensures
        writes_point_back(prewrite_table(t, key, value, primary, start_ts)),
{
}

/// A commit at or after the transaction's start leaves every write pointing back in time.
pub proof fn lemma_commit_keeps_writes_pointing_back(
    t: TableView,
    key: Seq<u8>,
    start_ts: u64,
    commit_ts: u64,
    is_primary: bool,
)
    requires
        writes_point_back(t),
        start_ts <= commit_ts,
    ensures
        writes_point_back(commit_table(t, key, start_ts, commit_ts, is_primary)),
{
    let after = commit_table(t, key, start_ts, commit_ts, is_primary);
    assert forall|k: KeyView| #[trigger] after.write.contains_key(k) implies after.write[k]->Timestamp_0
        <= k.1 by {
        if k != (key, commit_ts) {
            assert(t.write.contains_key(k));
        }
    }
}

/// Lock clean-up leaves every write pointing back in time: a roll-forward copies the
/// primary key's write.
pub proof fn lemma_resolved_keeps_writes_pointing_back(
    t: TableView,
    now: u64,
    lock_ts: u64,
    primary: Seq<u8>,
)
    requires
        writes_point_back(t),
    ensures
        writes_point_back(resolved(t, now, lock_ts, primary)),
{
    let after = resolved(t, now, lock_ts, primary);
    let keys = holders(t.lock, lock_ts, primary);
    assert forall|k: KeyView| #[trigger] after.write.contains_key(k) implies after.write[k]->Timestamp_0
        <= k.1 by {
        if expired(now, lock_ts) && !t.lock.contains_key((primary, lock_ts)) && first_commit(
            t.write,
            lock_ts,
            primary,
        ) is Some {
            let c = first_commit(t.write, lock_ts, primary)->Some_0;
            assert(is_first_commit(t.write, lock_ts, primary, c));
            assert(t.write.contains_key((primary, c)));
            if !(keys.contains(k.0) && k.1 == c) {
                assert(t.write.contains_key(k));
            }
        } else {
            assert(t.write.contains_key(k));
        }
    }
}

/// The transaction at `lock_ts` is rolled forward with the commit timestamp that its
/// primary key records: after an expired lock whose primary key holds no lock any
/// more is cleaned up, every key that the transaction held has a write at the primary
/// key's commit timestamp (the smallest, where the primary key records several) that
/// points to `lock_ts`, and its lock at `lock_ts` is gone unless the commit lies
/// before the start.
pub proof fn lemma_roll_forward_copies_primary_commit(
    t: TableView,
    now: u64,
    lock_ts: u64,
    primary: Seq<u8>,
    commit_ts: u64,
    key: Seq<u8>,
)
    requires
        expired(now, lock_ts),
        !t.lock.contains_key((primary, lock_ts)),
        is_first_commit(t.write, lock_ts, primary, commit_ts),
        holders(t.lock, lock_ts, primary).contains(key),
    ensures
        records_commit(t.write, lock_ts, primary, commit_ts),
        records_commit(resolved(t, now, lock_ts, primary).write, lock_ts, key, commit_ts),
        records_commit(resolved(t, now, lock_ts, primary).write, lock_ts, primary, commit_ts),
        lock_ts <= commit_ts ==> !resolved(t, now, lock_ts, primary).lock.contains_key(
            (key, lock_ts),
        ),
{
    lemma_first_commit_is(t.write, lock_ts, primary, commit_ts);
    let keys = holders(t.lock, lock_ts, primary);
    let after = rolled_forward(t, keys, lock_ts, commit_ts);
    assert(after.write.contains_key((key, commit_ts)));
    assert(after.write.contains_key((primary, commit_ts)));
    if lock_ts <= commit_ts {
        assert(versions_upto(keys, commit_ts).contains((key, lock_ts)));
    }
}

/// A write that records the commit of the transaction at `lock_ts` on its primary key
/// settles what became of the transaction.
pub proof fn lemma_commit_record_decides(t: TableView, lock_ts: u64, primary: Seq<u8>, c: u64)
    requires
        records_commit(t.write, lock_ts, primary, c),
    ensures
        primary_decides(t, lock_ts, primary),
{
    lemma_first_commit_exists(t.write, lock_ts, primary, c);
}

/// A roll-back removes the transaction from each of its keys: after an expired lock
/// whose primary key still holds its lock is cleaned up, no key that the transaction
/// held has a lock or data at `lock_ts`, and the `Write` column is as it was.
pub proof fn lemma_roll_back_removes_transaction(
    t: TableView,
    now: u64,
    lock_ts: u64,
    primary: Seq<u8>,
    key: Seq<u8>,
)
    requires
        expired(now, lock_ts),
        t.lock.contains_key((primary, lock_ts)),
        holders(t.lock, lock_ts, primary).contains(key),
    ensures
        !resolved(t, now, lock_ts, primary).lock.contains_key((key, lock_ts)),
        !resolved(t, now, lock_ts, primary).data.contains_key((key, lock_ts)),
        resolved(t, now, lock_ts, primary).write == t.write,
{
    assert(versions_upto(holders(t.lock, lock_ts, primary), lock_ts).contains((key, lock_ts)));
}

/// `bytes` is the version of `key` that a reader at `start_ts` sees: the write with the
/// largest timestamp at or below `start_ts` stands at `commit_ts` and points to
/// `data_ts`, where the data is `bytes`.
pub open spec fn sees_version(
    t: TableView,
    key: Seq<u8>,
    start_ts: u64,
    bytes: Seq<u8>,
    data_ts: u64,
    commit_ts: u64,
) -> bool {
    &&& commit_ts <= start_ts
    &&& is_latest_in(t.write, key, 0, start_ts, commit_ts)
    &&& t.write[(key, commit_ts)] == ValueView::Timestamp(data_ts)
    &&& t.data.contains_key((key, data_ts))
    &&& t.data[(key, data_ts)] == ValueView::Vector(bytes)
    &&& writes_point_back(t) ==> data_ts <= commit_ts
}

/// A read that answers with bytes answers with committed data: the key holds no lock
/// at or below `start_ts`, and the bytes are the data that the key's latest write at
/// or below `start_ts` points to; where no write of the table points forward in time,
/// that data was written no later than it was committed.
pub proof fn lemma_read_returns_committed_data(
    t: TableView,
    key: Seq<u8>,
    start_ts: u64,
    bytes: Seq<u8>,
)
    requires
        well_typed(t),
        get_reply(t, key, start_ts) == Ok::<Seq<u8>, TxnError>(bytes),
        bytes.len() > 0,
    ensures
        forall|lock_ts: u64| lock_ts <= start_ts ==> !t.lock.contains_key((key, lock_ts)),
        exists|data_ts: u64, commit_ts: u64|
            sees_version(t, key, start_ts, bytes, data_ts, commit_ts),
{
    lemma_latest_none(t.write, key, 0, start_ts);
    let commit_ts = latest_in(t.write, key, 0, start_ts)->Some_0;
    let data_ts = t.write[(key, commit_ts)]->Timestamp_0;
    assert(t.write.contains_key((key, commit_ts)));
    assert(t.data.contains_key((key, data_ts)));
    assert(sees_version(t, key, start_ts, bytes, data_ts, commit_ts));
}

/// A read answers `Backoff` exactly where the key holds a lock at or below `start_ts`,
/// fails in no other way, and answers no bytes where the key has no write at or below
/// `start_ts`.
pub proof fn lemma_read_without_version(t: TableView, key: Seq<u8>, start_ts: u64)
    ensures
        get_reply(t, key, start_ts) == Err::<Seq<u8>, TxnError>(TxnError::Backoff)
            <==> has_version_in(t.lock, key, 0, start_ts),
        get_reply(t, key, start_ts) is Err ==> get_reply(t, key, start_ts) == Err::<
            Seq<u8>,
            TxnError,
        >(TxnError::Backoff),
        !has_version_in(t.lock, key, 0, start_ts) && !has_version_in(t.write, key, 0, start_ts)
            ==> get_reply(t, key, start_ts) == Ok::<Seq<u8>, TxnError>(Seq::empty()),
{
    lemma_latest_none(t.write, key, 0, start_ts);
}

/// Of two prewrites of one key with nothing in between, at most one succeeds: after a
/// successful prewrite of `key`, a prewrite of `key` at any timestamp fails with a
/// lock conflict or a write conflict, and changes nothing.
pub proof fn lemma_second_prewrite_fails(
    t: TableView,
    key: Seq<u8>,
    value: Seq<u8>,
    primary: Seq<u8>,
    start_ts: u64,
    other_start_ts: u64,
)
    requires
        prewrite_reply(t, key, start_ts) is Ok,
    ensures
        ({
            let after = prewrite_table(t, key, value, primary, start_ts);
            let r = prewrite_reply(after, key, other_start_ts);
            &&& r == Err::<(), TxnError>(TxnError::LockConflict) || r == Err::<(), TxnError>(
                TxnError::WriteConflict,
            )
            &&& forall|v: Seq<u8>, p: Seq<u8>| prewrite_table(after, key, v, p, other_start_ts) == after
        }),
{
    let after = prewrite_table(t, key, value, primary, start_ts);
    assert(after.lock.contains_key((key, start_ts)));
    assert(has_version_in(after.lock, key, 0, u64::MAX));
}

/// A transaction that started no later than another one committed cannot prewrite the
/// key that the other wrote: after a successful commit of `key` at `commit_ts`, a
/// prewrite of `key` at a timestamp of at most `commit_ts` fails with a write conflict.
pub proof fn lemma_prewrite_below_commit_fails(
    t: TableView,
    key: Seq<u8>,
    start_ts: u64,
    commit_ts: u64,
    is_primary: bool,
    other_start_ts: u64,
)
    requires
        commit_reply(t, key, start_ts, is_primary) is Ok,
        other_start_ts <= commit_ts,
    ensures
        prewrite_reply(
            commit_table(t, key, start_ts, commit_ts, is_primary),
            key,
            other_start_ts,
        ) == Err::<(), TxnError>(TxnError::WriteConflict),
{
    let after = commit_table(t, key, start_ts, commit_ts, is_primary);
    assert(after.write.contains_key((key, commit_ts)));
    assert(has_version_in(after.write, key, other_start_ts, u64::MAX));
}

/// A successful commit records the write and releases the lock in one step: the write
/// at `(key, commit_ts)` points to `start_ts`, and no lock on `key` at or below
/// `commit_ts` is left.
pub proof fn lemma_commit_records_and_releases(
    t: TableView,
    key: Seq<u8>,
    start_ts: u64,
    commit_ts: u64,
    is_primary: bool,
)
    requires
        commit_reply(t, key, start_ts, is_primary) is Ok,
    ensures
        records_commit(
            commit_table(t, key, start_ts, commit_ts, is_primary).write,
            start_ts,
            key,
            commit_ts,
        ),
        !has_version_in(
            commit_table(t, key, start_ts, commit_ts, is_primary).lock,
            key,
            0,
            commit_ts,
        ),
{
}

/// Of two writes of one key, a reader whose snapshot takes in both sees the later:
/// the write that a read goes by has the largest timestamp at or below `start_ts`.
pub proof fn lemma_reader_sees_latest_write(
    t: TableView,
    key: Seq<u8>,
    start_ts: u64,
    earlier: u64,
    later: u64,
)
    requires
        t.write.contains_key((key, earlier)),
        t.write.contains_key((key, later)),
        earlier < later <= start_ts,
    ensures
        latest_in(t.write, key, 0, start_ts) matches Some(seen) && later <= seen <= start_ts,
{
    assert(has_version_in(t.write, key, 0, start_ts));
    lemma_latest_none(t.write, key, 0, start_ts);
}

/// Lock clean-up keeps the table sound.
pub proof fn lemma_resolved_keeps_table_sound(
    t: TableView,
    now: u64,
    lock_ts: u64,
    primary: Seq<u8>,
)
    requires
        sound(t),
    ensures
        sound(resolved(t, now, lock_ts, primary)),
{
    lemma_resolved_keeps_types(t, now, lock_ts, primary);
    lemma_resolved_keeps_lock_exclusive(t, now, lock_ts, primary);
    lemma_resolved_keeps_locks_with_data(t, now, lock_ts, primary);
}

/// Lock clean-up places no lock: every lock it leaves stood there before, with the
/// same value.
pub proof fn lemma_clean_up_adds_no_lock(t: TableView, now: u64, key: Seq<u8>, start_ts: u64)
    ensures
        cleaned_up(t, now, key, start_ts).lock.submap_of(t.lock),
{
}

/// A transaction that is committed on its primary key and then on another of its keys
/// records one commit timestamp on both, and that is the one found at the primary key.
///
/// The four requests come in a row: the prewrite of `primary` and of `key` at
/// `start_ts`, both naming `primary`, the commit of `primary` at `commit_ts`, and the
/// commit of `key` at `commit_ts`. Both commits succeed, both keys have a write at
/// `commit_ts` that points to `start_ts`, the commit timestamp found for the primary
/// key is `commit_ts`, and neither key keeps a lock at `start_ts`. The commit must not
/// lie before the start, and no older write of the primary key may record `start_ts`.
pub proof fn lemma_commits_record_one_timestamp(
    t: TableView,
    primary: Seq<u8>,
    primary_value: Seq<u8>,
    key: Seq<u8>,
    value: Seq<u8>,
    start_ts: u64,
    commit_ts: u64,
)
    requires
        prewrite_reply(t, primary, start_ts) is Ok,
        prewrite_reply(prewrite_table(t, primary, primary_value, primary, start_ts), key, start_ts)
            is Ok,
        start_ts <= commit_ts,
        forall|d: u64| d < commit_ts ==> !#[trigger] records_commit(t.write, start_ts, primary, d),
    ensures
        ({
            let locked = prewrite_table(
                prewrite_table(t, primary, primary_value, primary, start_ts),
                key,
                value,
                primary,
                start_ts,
            );
            let half = commit_table(locked, primary, start_ts, commit_ts, true);
            let done = commit_table(half, key, start_ts, commit_ts, false);
            &&& commit_reply(locked, primary, start_ts, true) is Ok
            &&& commit_reply(half, key, start_ts, false) is Ok
            &&& records_commit(done.write, start_ts, primary, commit_ts)
            &&& records_commit(done.write, start_ts, key, commit_ts)
            &&& first_commit(done.write, start_ts, primary) == Some(commit_ts)
            &&& !done.lock.contains_key((primary, start_ts))
            &&& !done.lock.contains_key((key, start_ts))
        }),
{
    let first = prewrite_table(t, primary, primary_value, primary, start_ts);
    let locked = prewrite_table(first, key, value, primary, start_ts);
    let half = commit_table(locked, primary, start_ts, commit_ts, true);
    let done = commit_table(half, key, start_ts, commit_ts, false);
    assert(first.lock.contains_key((primary, start_ts)));
    if key == primary {
        assert(has_version_in(first.lock, key, 0, u64::MAX));
    }
    assert(locked.lock.contains_key((primary, start_ts)));
    assert(locked.lock.contains_key((key, start_ts)));
    assert(half.write.contains_key((primary, commit_ts)));
    assert(done.write.contains_key((primary, commit_ts)));
    assert(done.write.contains_key((key, commit_ts)));
    assert forall|d: u64| #[trigger]
        records_commit(done.write, start_ts, primary, d) implies commit_ts <= d by {
        if d < commit_ts {
            assert(t.write.contains_key((primary, d)));
            assert(records_commit(t.write, start_ts, primary, d));
        }
    }
    assert(is_first_commit(done.write, start_ts, primary, commit_ts));
    lemma_first_commit_is(done.write, start_ts, primary, commit_ts);
}

/// A request as the engine meets it; a read carries the time at which it looks at a
/// lock in its way.
pub enum Request {
    Get { key: Seq<u8>, start_ts: u64, now: u64 },
    Prewrite { key: Seq<u8>, value: Seq<u8>, primary: Seq<u8>, start_ts: u64 },
    Commit { key: Seq<u8>, start_ts: u64, commit_ts: u64, is_primary: bool },
}

/// The table after one request.
pub open spec fn served(t: TableView, r: Request) -> TableView {
    match r {
        Request::Get { key, start_ts, now } => cleaned_up(t, now, key, start_ts),
        Request::Prewrite { key, value, primary, start_ts } => prewrite_table(
            t,
            key,
            value,
            primary,
            start_ts,
        ),
        Request::Commit { key, start_ts, commit_ts, is_primary } => commit_table(
            t,
            key,
            start_ts,
            commit_ts,
            is_primary,
        ),
    }
}

/// The table after a run of requests, one after the other.
pub open spec fn served_all(t: TableView, rs: Seq<Request>) -> TableView
    decreases rs.len(),
{
    if rs.len() == 0 {
        t
    } else {
        served(served_all(t, rs.drop_last()), rs.last())
    }
}

/// The request takes no data that a write points to, and adds no write without data:
/// a commit of a key other than the primary finds the data it commits, and the
/// clean-up of a read rolls back no key that has a write at or below the lock.
pub open spec fn keeps_data(t: TableView, r: Request) -> bool {
    match r {
        Request::Get { key, start_ts, now } => clean_up_spares_writes(t, now, key, start_ts),
        Request::Prewrite { .. } => true,
        Request::Commit { key, start_ts, is_primary, .. } => !is_primary ==> t.data.contains_key(
            (key, start_ts),
        ),
    }
}

/// The request commits no earlier than its transaction started.
pub open spec fn commits_after_start(r: Request) -> bool {
    r matches Request::Commit { start_ts, commit_ts, .. } ==> start_ts <= commit_ts
}

/// One request keeps the columns to their kinds of value, the locks exclusive and
/// every lock beside its data.
pub proof fn lemma_request_keeps_table_sound(t: TableView, r: Request)
    requires
        sound(t),
    ensures
        sound(served(t, r)),
{
    match r {
        Request::Get { key, start_ts, now } => {
            match blocker(t, key, start_ts) {
                Some((lock_ts, primary)) => {
                    lemma_resolved_keeps_table_sound(t, now, lock_ts, primary);
                },
                None => {},
            }
        },
        Request::Prewrite { key, value, primary, start_ts } => {
            lemma_prewrite_keeps_types(t, key, value, primary, start_ts);
            lemma_prewrite_keeps_lock_exclusive(t, key, value, primary, start_ts);
            lemma_prewrite_keeps_locks_with_data(t, key, value, primary, start_ts);
        },
        Request::Commit { key, start_ts, commit_ts, is_primary } => {
            lemma_commit_keeps_types(t, key, start_ts, commit_ts, is_primary);
            lemma_commit_keeps_lock_exclusive(t, key, start_ts, commit_ts, is_primary);
            lemma_commit_keeps_locks_with_data(t, key, start_ts, commit_ts, is_primary);
        },
    }
}

/// Whatever requests an empty table has served, each column holds its kind of value,
/// no key holds two locks, and every lock stands beside its data.
pub proof fn lemma_locks_stay_exclusive(rs: Seq<Request>)
    ensures
        sound(served_all(TableView::empty(), rs)),
        lock_exclusive(served_all(TableView::empty(), rs)),
    decreases rs.len(),
{
    if rs.len() > 0 {
        lemma_locks_stay_exclusive(rs.drop_last());
        lemma_request_keeps_table_sound(served_all(TableView::empty(), rs.drop_last()), rs.last());
    }
}

/// Whatever requests an empty table has served, every write points to data that
/// exists, provided that each request, on the table it met, kept the data.
pub proof fn lemma_writes_keep_their_data(rs: Seq<Request>)
    requires
        forall|i: int|
            0 <= i < rs.len() ==> keeps_data(
                served_all(TableView::empty(), #[trigger] rs.take(i)),
                rs[i],
            ),
    ensures
        writes_have_data(served_all(TableView::empty(), rs)),
    decreases rs.len(),
{
    if rs.len() > 0 {
        let head = rs.drop_last();
        let r = rs.last();
        let t = served_all(TableView::empty(), head);
        assert forall|i: int| 0 <= i < head.len() implies keeps_data(
            served_all(TableView::empty(), #[trigger] head.take(i)),
            head[i],
        ) by {
            assert(head.take(i) =~= rs.take(i));
        }
        lemma_writes_keep_their_data(head);
        lemma_locks_stay_exclusive(head);
        assert(rs.take(rs.len() - 1) =~= head);
        assert(keeps_data(t, r));
        match r {
            Request::Get { key, start_ts, now } => {
                match blocker(t, key, start_ts) {
                    Some((lock_ts, primary)) => {
                        lemma_resolved_keeps_writes_with_data(t, now, lock_ts, primary);
                    },
                    None => {},
                }
            },
            Request::Prewrite { key, value, primary, start_ts } => {
                lemma_prewrite_keeps_writes_with_data(t, key, value, primary, start_ts);
            },
            Request::Commit { key, start_ts, commit_ts, is_primary } => {
                lemma_commit_keeps_writes_with_data(t, key, start_ts, commit_ts, is_primary);
            },
        }
    }
}

/// Whatever requests an empty table has served, no write points forward in time,
/// provided that no request committed before its transaction started.
pub proof fn lemma_writes_keep_pointing_back(rs: Seq<Request>)
    requires
        forall|i: int| 0 <= i < rs.len() ==> commits_after_start(#[trigger] rs[i]),
    ensures
        writes_point_back(served_all(TableView::empty(), rs)),
    decreases rs.len(),
{
    if rs.len() > 0 {
        let head = rs.drop_last();
        let r = rs.last();
        let t = served_all(TableView::empty(), head);
        assert forall|i: int| 0 <= i < head.len() implies commits_after_start(
            #[trigger] head[i],
        ) by {
            assert(head[i] == rs[i]);
        }
        lemma_writes_keep_pointing_back(head);
        assert(commits_after_start(rs[rs.len() - 1]));
        match r {
            Request::Get { key, start_ts, now } => {
                match blocker(t, key, start_ts) {
                    Some((lock_ts, primary)) => {
                        lemma_resolved_keeps_writes_pointing_back(t, now, lock_ts, primary);
                    },
                    None => {},
                }
            },
            Request::Prewrite { key, value, primary, start_ts } => {
                lemma_prewrite_keeps_writes_pointing_back(t, key, value, primary, start_ts);
            },
            Request::Commit { key, start_ts, commit_ts, is_primary } => {
                lemma_commit_keeps_writes_pointing_back(t, key, start_ts, commit_ts, is_primary);
            },
        }
    }
}

} // verus!
