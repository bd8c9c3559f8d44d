//! The transaction protocol as functions on the mathematical table: what each
//! request answers, what it leaves in the table, and what lock clean-up does.
use crate::cell::{Column, ValueView};
use crate::lex::KeyView;
use crate::model::{first_commit, has_version_in, keys_held, latest_in, ColumnView, TableView};
use crate::msg::TxnError;
use vstd::prelude::*;

verus! {

/// How long a lock may stand before a reader may clean it up: 100 ms, in nanoseconds.
pub const MAX_TIME_TO_ALIVE: u64 = 100_000_000;

/// Each column holds the kind of value meant for it: `Write` timestamps, `Data` and
/// `Lock` byte payloads.
pub open spec fn well_typed(t: TableView) -> bool {
    &&& forall|k: KeyView| #[trigger] t.write.contains_key(k) ==> t.write[k] is Timestamp
    &&& forall|k: KeyView| #[trigger] t.data.contains_key(k) ==> t.data[k] is Vector
    &&& forall|k: KeyView| #[trigger] t.lock.contains_key(k) ==> t.lock[k] is Vector
}

/// What a read of `key` as of `start_ts` answers: to back off where a lock stands at or
/// below `start_ts`; else the data that the latest write at or below `start_ts`
/// points to, or no bytes where there is no such write or no such data.
pub open spec fn get_reply(t: TableView, key: Seq<u8>, start_ts: u64) -> Result<Seq<u8>, TxnError> {
    if has_version_in(t.lock, key, 0, start_ts) {
        Err(TxnError::Backoff)
    } else {
        match latest_in(t.write, key, 0, start_ts) {
            None => Ok(Seq::empty()),
            Some(commit_ts) => {
                let data_ts = t.write[(key, commit_ts)]->Timestamp_0;
                if t.data.contains_key((key, data_ts)) {
                    Ok(t.data[(key, data_ts)]->Vector_0)
                } else {
                    Ok(Seq::empty())
                }
            },
        }
    }
}

/// What a prewrite of `key` at `start_ts` answers: a write conflict where a version
/// was committed at or after `start_ts`, else a lock conflict where any lock stands on
/// `key`, else success.
pub open spec fn prewrite_reply(t: TableView, key: Seq<u8>, start_ts: u64) -> Result<(), TxnError> {
    if has_version_in(t.write, key, start_ts, u64::MAX) {
        Err(TxnError::WriteConflict)
    } else if has_version_in(t.lock, key, 0, u64::MAX) {
        Err(TxnError::LockConflict)
    } else {
        Ok(())
    }
}

/// The table after a prewrite: on success the data and the lock stand at
/// `(key, start_ts)`; on a conflict nothing has changed.
pub open spec fn prewrite_table(
    t: TableView,
    key: Seq<u8>,
    value: Seq<u8>,
    primary: Seq<u8>,
    start_ts: u64,
) -> TableView {
    if prewrite_reply(t, key, start_ts) is Ok {
        t.put(Column::Data, key, start_ts, ValueView::Vector(value)).put(
            Column::Lock,
            key,
            start_ts,
            ValueView::Vector(primary),
        )
    } else {
        t
    }
}

/// What a commit answers: that the lock is not found where the key is the primary and
/// holds no lock at `start_ts`, else success.
pub open spec fn commit_reply(t: TableView, key: Seq<u8>, start_ts: u64, is_primary: bool) -> Result<
    (),
    TxnError,
> {
    if is_primary && !t.lock.contains_key((key, start_ts)) {
        Err(TxnError::LockNotFound)
    } else {
        Ok(())
    }
}

/// The table after a commit: on success the write at `(key, commit_ts)` points to
/// `start_ts` and the locks on `key` up to `commit_ts` are gone; else nothing has changed.
pub open spec fn commit_table(
    t: TableView,
    key: Seq<u8>,
    start_ts: u64,
    commit_ts: u64,
    is_primary: bool,
) -> TableView {
    if commit_reply(t, key, start_ts, is_primary) is Ok {
        t.put(Column::Write, key, commit_ts, ValueView::Timestamp(start_ts)).erase(
            Column::Lock,
            key,
            commit_ts,
        )
    } else {
        t
    }
}

/// The lock that stands in the way of a read of `key` as of `start_ts`: its timestamp
/// and the primary key it names.
pub open spec fn blocker(t: TableView, key: Seq<u8>, start_ts: u64) -> Option<(u64, Seq<u8>)> {
    match latest_in(t.lock, key, 0, start_ts) {
        Some(lock_ts) => Some((lock_ts, t.lock[(key, lock_ts)]->Vector_0)),
        None => None,
    }
}

/// At time `now` a lock placed at `lock_ts` has outlived its time to live.
pub open spec fn expired(now: u64, lock_ts: u64) -> bool {
    now - lock_ts > MAX_TIME_TO_ALIVE
}

/// The keys locked at `lock_ts` by the transaction whose primary key is `primary`.
pub open spec fn holders(lock: ColumnView, lock_ts: u64, primary: Seq<u8>) -> Set<Seq<u8>> {
    Set::new(|key: Seq<u8>| keys_held(lock, lock_ts, primary).contains((key, lock_ts)))
}

/// The versions of the keys in `keys` with a timestamp of at most `upper`.
pub open spec fn versions_upto(keys: Set<Seq<u8>>, upper: u64) -> Set<KeyView> {
    Set::new(|k: KeyView| keys.contains(k.0) && k.1 <= upper)
}

/// The table after the transaction at `lock_ts` is rolled back on `keys`: their data
/// and locks up to `lock_ts` are gone.
pub open spec fn rolled_back(t: TableView, keys: Set<Seq<u8>>, lock_ts: u64) -> TableView {
    TableView {
        write: t.write,
        data: t.data.remove_keys(versions_upto(keys, lock_ts)),
        lock: t.lock.remove_keys(versions_upto(keys, lock_ts)),
    }
}

/// The table after the transaction at `lock_ts` is rolled forward on `keys`: each has
/// a write at `commit_ts` that points to `lock_ts`, and its locks up to `commit_ts` are gone.
pub open spec fn rolled_forward(
    t: TableView,
    keys: Set<Seq<u8>>,
    lock_ts: u64,
    commit_ts: u64,
) -> TableView {
    TableView {
        write: Map::new(
            |k: KeyView| t.write.contains_key(k) || (keys.contains(k.0) && k.1 == commit_ts),
            |k: KeyView|
                if keys.contains(k.0) && k.1 == commit_ts {
                    ValueView::Timestamp(lock_ts)
                } else {
                    t.write[k]
                },
        ),
        data: t.data,
        lock: t.lock.remove_keys(versions_upto(keys, commit_ts)),
    }
}

/// The primary key tells what became of the transaction at `lock_ts`: it still holds
/// its lock, or a write records its commit.
pub open spec fn primary_decides(t: TableView, lock_ts: u64, primary: Seq<u8>) -> bool {
    t.lock.contains_key((primary, lock_ts)) || first_commit(t.write, lock_ts, primary) is Some
}

/// The table after a reader at time `now` has dealt with the lock at `lock_ts` that names
/// `primary`: untouched while the lock has not expired; else rolled back on every key
/// of the transaction where the primary still holds its lock, and rolled forward to
/// the primary's commit timestamp where it does not. Where the primary neither holds
/// its lock nor records a commit (see [`primary_decides`]) there is nothing to go by,
/// and the table is as it was.
pub open spec fn resolved(t: TableView, now: u64, lock_ts: u64, primary: Seq<u8>) -> TableView {
    if !expired(now, lock_ts) {
        t
    } else if t.lock.contains_key((primary, lock_ts)) {
        rolled_back(t, holders(t.lock, lock_ts, primary), lock_ts)
    } else {
        match first_commit(t.write, lock_ts, primary) {
            Some(commit_ts) => rolled_forward(
                t,
                holders(t.lock, lock_ts, primary),
                lock_ts,
                commit_ts,
            ),
            None => t,
        }
    }
}

/// The table after a reader of `key` as of `start_ts` has, at time `now`, dealt with
/// the lock in its way, if there is one.
pub open spec fn cleaned_up(t: TableView, now: u64, key: Seq<u8>, start_ts: u64) -> TableView {
    match blocker(t, key, start_ts) {
        Some((lock_ts, primary)) => resolved(t, now, lock_ts, primary),
        None => t,
    }
}

} // verus!
