//! The transaction engine: reads, prewrites and commits on one table, and the
//! clean-up of locks that a dead transaction left behind.
use crate::cell::{copy_bytes, keys_view, Column, Key, Value};
use crate::clock::now_nanos;
use crate::invariants::{
    lemma_commit_keeps_writes_with_data, lemma_empty_table_is_sound,
    lemma_prewrite_keeps_writes_with_data, lemma_request_keeps_table_sound,
    lemma_resolved_keeps_table_sound, lemma_resolved_keeps_writes_with_data,
    roll_back_spares_writes, sound, writes_have_data, Request,
};
use crate::model::{keys_held, lemma_latest_none, lists_in_order, ColumnView, TableView};
use crate::msg::{
    CommitRequest, CommitResponse, GetRequest, GetResponse, PrewriteRequest, PrewriteResponse,
    TxnError,
};
use crate::protocol::{
    blocker, cleaned_up, commit_reply, commit_table, expired, get_reply, holders,
    prewrite_reply, prewrite_table, primary_decides, resolved, rolled_back, rolled_forward,
    MAX_TIME_TO_ALIVE,
};
use crate::table::KvTable;
use vstd::pervasive::unreached;
use vstd::prelude::*;

verus! {

/// The keys among the first `n` of `keys`, without their timestamps.
pub open spec fn first_keys(keys: Seq<Key>, n: int) -> Set<Seq<u8>> {
    Set::new(|key: Seq<u8>| exists|j: int| 0 <= j < n && #[trigger] keys[j].0@ == key)
}

/// A list of the locks of one transaction names, key by key, the transaction's keys.
proof fn lemma_listed_keys(keys: Seq<Key>, lock: ColumnView, ts: u64, primary: Seq<u8>)
    requires
        lists_in_order(keys_view(keys), keys_held(lock, ts, primary)),
    ensures
        first_keys(keys, keys.len() as int) == holders(lock, ts, primary),
{
    let listed = first_keys(keys, keys.len() as int);
    let held = keys_held(lock, ts, primary);
    let kv = keys_view(keys);
    assert forall|key: Seq<u8>| listed.contains(key) <==> holders(lock, ts, primary).contains(
        key,
    ) by {
        if listed.contains(key) {
            let j = choose|j: int| 0 <= j < keys.len() && #[trigger] keys[j].0@ == key;
            assert(kv[j] == (keys[j].0@, keys[j].1));
            assert(kv.contains(kv[j]));
            assert(held.contains(kv[j]));
        }
        if holders(lock, ts, primary).contains(key) {
            assert(kv.contains((key, ts)));
            let j = choose|j: int| 0 <= j < kv.len() && kv[j] == (key, ts);
            assert(keys[j].0@ == key);
        }
    }
    assert(listed =~= holders(lock, ts, primary));
}

/// Whether, at time `now`, a lock placed at `lock_ts` has outlived its time to live. A
/// lock placed ahead of the clock has not.
pub fn lock_expired(now: u64, lock_ts: u64) -> (b: bool)
    ensures
        b == expired(now, lock_ts),
{
    now > lock_ts && now - lock_ts > MAX_TIME_TO_ALIVE
}

/// The transaction engine over one table.
///
/// Every request works on the table from start to end with nothing in between, so
/// the table that the next request meets is the one that the last request left. At
/// all times the table is sound: each column holds its kind of value, no key holds
/// two locks, and every lock stands beside its data.
pub struct MemoryStorage {
    data: KvTable,
}

impl View for MemoryStorage {
    type V = TableView;

    closed spec fn view(&self) -> TableView {
        self.data@
    }
}

impl MemoryStorage {
    #[verifier::type_invariant]
    spec fn table_is_sound(&self) -> bool {
        sound(self.data@)
    }

    /// An engine over an empty table.
    pub fn new() -> (r: Self)
        ensures
            r@ == TableView::empty(),
            sound(r@),
    {
        proof {
            lemma_empty_table_is_sound();
        }
        MemoryStorage { data: KvTable::new() }
    }

    /// Moves the table out and leaves an empty one, for an update that puts it back.
    fn take_table(&mut self) -> (table: KvTable)
        ensures
            table@ == old(self)@,
            sound(table@),
            final(self)@ == TableView::empty(),
    {
        proof {
            use_type_invariant(&*self);
            lemma_empty_table_is_sound();
        }
        let mut table = KvTable::new();
        core::mem::swap(&mut self.data, &mut table);
        table
    }

    /// A copy of the table as it stands; it is sound, as the engine's table always is.
    pub fn get_snapshot(&self) -> (table: KvTable)
        ensures
            table@ == self@,
            sound(table@),
    {
        proof {
            use_type_invariant(self);
        }
        self.data.clone()
    }

    /// Reads `req.key` as of `req.start_ts`.
    ///
    /// Where a lock stands on the key at or below `req.start_ts`, the read deals with
    /// that lock as [`MemoryStorage::back_off_maybe_clean_up_lock`] says and answers
    /// `Backoff`. Else it answers the data that the latest write at or below
    /// `req.start_ts` points to, and no bytes where there is none.
    pub fn get(&mut self, req: GetRequest) -> (r: Result<GetResponse, TxnError>)
        ensures
            match r {
                Ok(reply) => get_reply(old(self)@, req.key@, req.start_ts) == Ok::<
                    Seq<u8>,
                    TxnError,
                >(reply.value@),
                Err(e) => get_reply(old(self)@, req.key@, req.start_ts) == Err::<
                    Seq<u8>,
                    TxnError,
                >(e),
            },
            exists|now: u64| final(self)@ == cleaned_up(old(self)@, now, req.key@, req.start_ts),
            sound(final(self)@),
    {
        let key = req.key;
        let start_ts = req.start_ts;
        proof {
            use_type_invariant(&*self);
            lemma_latest_none(self@.lock, key@, 0, start_ts);
            lemma_latest_none(self@.write, key@, 0, start_ts);
        }
        if self.data.read(copy_bytes(&key), Column::Lock, None, Some(start_ts)).is_some() {
            self.back_off_maybe_clean_up_lock(start_ts, key);
            return Err(TxnError::Backoff);
        }
        assert(self@ == cleaned_up(self@, 0, key@, start_ts));
        let data_ts: u64 = match self.data.read(
            copy_bytes(&key),
            Column::Write,
            None,
            Some(start_ts),
        ) {
            Some(res) => match res.1.as_ts() {
                Some(ts) => ts,
                None => unreached(),
            },
            None => {
                return Ok(GetResponse { value: Vec::new() });
            },
        };
        proof {
            lemma_latest_none(self@.data, key@, data_ts, data_ts);
        }
        match self.data.read(copy_bytes(&key), Column::Data, Some(data_ts), Some(data_ts)) {
            Some(res) => match res.1.as_bytes() {
                Some(bytes) => Ok(GetResponse { value: copy_bytes(bytes) }),
                None => unreached(),
            },
            None => Ok(GetResponse { value: Vec::new() }),
        }
    }

    /// Reserves `req.write.key` for the transaction that started at `req.start_ts`:
    /// unless a version was committed at or after `req.start_ts`, or a lock stands on
    /// the key, the value and a lock that names `req.primary.key` are placed at
    /// `req.start_ts`.
    pub fn prewrite(&mut self, req: PrewriteRequest) -> (r: Result<PrewriteResponse, TxnError>)
        ensures
            match r {
                Ok(_) => prewrite_reply(old(self)@, req.write.key@, req.start_ts) is Ok,
                Err(e) => prewrite_reply(old(self)@, req.write.key@, req.start_ts) == Err::<
                    (),
                    TxnError,
                >(e),
            },
            final(self)@ == prewrite_table(
                old(self)@,
                req.write.key@,
                req.write.value@,
                req.primary.key@,
                req.start_ts,
            ),
            sound(final(self)@),
            writes_have_data(old(self)@) ==> writes_have_data(final(self)@),
    {
        let key = req.write.key;
        let start_ts = req.start_ts;
        proof {
            use_type_invariant(&*self);
            if writes_have_data(self@) {
                lemma_prewrite_keeps_writes_with_data(
                    self@,
                    key@,
                    req.write.value@,
                    req.primary.key@,
                    start_ts,
                );
            }
            lemma_latest_none(self@.write, key@, start_ts, u64::MAX);
            lemma_latest_none(self@.lock, key@, 0, u64::MAX);
        }
        if self.data.read(copy_bytes(&key), Column::Write, Some(start_ts), None).is_some() {
            return Err(TxnError::WriteConflict);
        }
        if self.data.read(copy_bytes(&key), Column::Lock, None, None).is_some() {
            return Err(TxnError::LockConflict);
        }
        let mut table = self.take_table();
        proof {
            lemma_request_keeps_table_sound(
                table@,
                Request::Prewrite {
                    key: key@,
                    value: req.write.value@,
                    primary: req.primary.key@,
                    start_ts,
                },
            );
        }
        table.write(copy_bytes(&key), Column::Data, start_ts, Value::Vector(req.write.value));
        table.write(key, Column::Lock, start_ts, Value::Vector(req.primary.key));
        self.data = table;
        Ok(PrewriteResponse {})
    }

    /// Makes the prewritten version of `req.write.key` visible as of `req.commit_ts`:
    /// unless the key is the primary and its lock at `req.start_ts` is gone, a write
    /// at `req.commit_ts` points to `req.start_ts` and the locks on the key up to
    /// `req.commit_ts` are removed.
    pub fn commit(&mut self, req: CommitRequest) -> (r: Result<CommitResponse, TxnError>)
        ensures
            match r {
                Ok(_) => commit_reply(old(self)@, req.write.key@, req.start_ts, req.is_primary)
                    is Ok,
                Err(e) => commit_reply(old(self)@, req.write.key@, req.start_ts, req.is_primary)
                    == Err::<(), TxnError>(e),
            },
            final(self)@ == commit_table(
                old(self)@,
                req.write.key@,
                req.start_ts,
                req.commit_ts,
                req.is_primary,
            ),
            sound(final(self)@),
            writes_have_data(old(self)@) && (req.is_primary || old(self)@.data.contains_key(
                (req.write.key@, req.start_ts),
            )) ==> writes_have_data(final(self)@),
    {
        let key = req.write.key;
        let start_ts = req.start_ts;
        proof {
            use_type_invariant(&*self);
            if writes_have_data(self@) && (req.is_primary || self@.data.contains_key(
                (key@, start_ts),
            )) {
                lemma_commit_keeps_writes_with_data(
                    self@,
                    key@,
                    start_ts,
                    req.commit_ts,
                    req.is_primary,
                );
            }
            lemma_latest_none(self@.lock, key@, start_ts, start_ts);
        }
        if req.is_primary && self.data.read(
            copy_bytes(&key),
            Column::Lock,
            Some(start_ts),
            Some(start_ts),
        ).is_none() {
            return Err(TxnError::LockNotFound);
        }
        let mut table = self.take_table();
        proof {
            lemma_request_keeps_table_sound(
                table@,
                Request::Commit {
                    key: key@,
                    start_ts,
                    commit_ts: req.commit_ts,
                    is_primary: req.is_primary,
                },
            );
        }
        table.write(copy_bytes(&key), Column::Write, req.commit_ts, Value::Timestamp(start_ts));
        table.erase(key, Column::Lock, req.commit_ts);
        self.data = table;
        Ok(CommitResponse {})
    }

    /// Whether the primary key tells what became of the transaction that started at
    /// `lock_ts`: it still holds its lock, or a write records its commit.
    pub fn primary_decides(&self, lock_ts: u64, primary: &Vec<u8>) -> (b: bool)
        ensures
            b == primary_decides(self@, lock_ts, primary@),
    {
        proof {
            lemma_latest_none(self@.lock, primary@, lock_ts, lock_ts);
        }
        self.data.read(copy_bytes(primary), Column::Lock, Some(lock_ts), Some(lock_ts)).is_some()
            || self.data.get_commit_ts(lock_ts, copy_bytes(primary)).is_some()
    }

    /// Deals with the lock that stands in the way of a read of `key` as of `start_ts`,
    /// if there is one, by the wall clock: see [`MemoryStorage::clean_up_lock`]. The
    /// lock is left alone where the clock stands before the epoch, and where it has
    /// expired while its primary key neither holds its lock nor records a commit.
    pub fn back_off_maybe_clean_up_lock(&mut self, start_ts: u64, key: Vec<u8>)
        ensures
            exists|now: u64| final(self)@ == cleaned_up(old(self)@, now, key@, start_ts),
            sound(final(self)@),
    {
        proof {
            use_type_invariant(&*self);
            lemma_latest_none(self@.lock, key@, 0, start_ts);
        }
        let found: Option<(u64, Vec<u8>)> = match self.data.read(
            key,
            Column::Lock,
            None,
            Some(start_ts),
        ) {
            Some(r) => match r.1.as_bytes() {
                Some(primary) => Some((r.0.1, copy_bytes(primary))),
                None => unreached(),
            },
            None => None,
        };
        match found {
            None => {
                assert(self@ == cleaned_up(self@, 0, key@, start_ts));
            },
            Some((lock_ts, primary)) => {
                assert(blocker(self@, key@, start_ts) == Some((lock_ts, primary@)));
                match now_nanos() {
                    Some(now) => {
                        if !lock_expired(now, lock_ts) || self.primary_decides(lock_ts, &primary) {
                            self.clean_up_lock(now, lock_ts, primary);
                        }
                        assert(self@ == cleaned_up(old(self)@, now, key@, start_ts));
                    },
                    None => {
                        assert(self@ == cleaned_up(self@, 0, key@, start_ts));
                    },
                }
            },
        }
    }

    /// Deals, at time `now`, with the locks of the transaction that started at
    /// `lock_ts` with the primary key `primary`.
    ///
    /// Within the time to live the locks stay. After it, the primary key decides: where
    /// it still holds its lock, the transaction is rolled back on each of its keys;
    /// where a write records its commit, the transaction is rolled forward on each of
    /// its keys to that commit timestamp.
    pub fn clean_up_lock(&mut self, now: u64, lock_ts: u64, primary: Vec<u8>)
        requires
            expired(now, lock_ts) ==> primary_decides(old(self)@, lock_ts, primary@),
        ensures
            final(self)@ == resolved(old(self)@, now, lock_ts, primary@),
            sound(final(self)@),
            writes_have_data(old(self)@) && (expired(now, lock_ts) && old(self)@.lock.contains_key(
                (primary@, lock_ts),
            ) ==> roll_back_spares_writes(old(self)@, lock_ts, primary@)) ==> writes_have_data(
                final(self)@,
            ),
    {
        proof {
            use_type_invariant(&*self);
            if writes_have_data(self@) && (expired(now, lock_ts) && self@.lock.contains_key(
                (primary@, lock_ts),
            ) ==> roll_back_spares_writes(self@, lock_ts, primary@)) {
                lemma_resolved_keeps_writes_with_data(self@, now, lock_ts, primary@);
            }
        }
        if !lock_expired(now, lock_ts) {
            return;
        }
        let mut table = self.take_table();
        let ghost before = table@;
        proof {
            lemma_latest_none(before.lock, primary@, lock_ts, lock_ts);
            lemma_resolved_keeps_table_sound(before, now, lock_ts, primary@);
        }
        if table.read(copy_bytes(&primary), Column::Lock, Some(lock_ts), Some(lock_ts)).is_some() {
            let keys = table.get_uncommitted_keys(lock_ts, primary);
            let mut i: usize = 0;
            proof {
                let start = rolled_back(before, first_keys(keys@, 0), lock_ts);
                assert(before.data =~= start.data);
                assert(before.lock =~= start.lock);
            }
            while i < keys.len()
                invariant
                    i <= keys.len(),
                    table@ == rolled_back(before, first_keys(keys@, i as int), lock_ts),
                decreases keys.len() - i,
            {
                table.erase(copy_bytes(&keys[i].0), Column::Data, lock_ts);
                table.erase(copy_bytes(&keys[i].0), Column::Lock, lock_ts);
                proof {
                    let grown = rolled_back(before, first_keys(keys@, i + 1), lock_ts);
                    assert(table@.data =~= grown.data);
                    assert(table@.lock =~= grown.lock);
                }
                i += 1;
            }
            proof {
                lemma_listed_keys(keys@, before.lock, lock_ts, primary@);
            }
        } else {
            let keys = table.get_uncommitted_keys(lock_ts, copy_bytes(&primary));
            let commit_ts: u64 = match table.get_commit_ts(lock_ts, primary) {
                Some(c) => c,
                None => unreached(),
            };
            let mut i: usize = 0;
            proof {
                let start = rolled_forward(before, first_keys(keys@, 0), lock_ts, commit_ts);
                assert(before.write =~= start.write);
                assert(before.lock =~= start.lock);
            }
            while i < keys.len()
                invariant
                    i <= keys.len(),
                    table@ == rolled_forward(
                        before,
                        first_keys(keys@, i as int),
                        lock_ts,
                        commit_ts,
                    ),
                decreases keys.len() - i,
            {
                table.write(
                    copy_bytes(&keys[i].0),
                    Column::Write,
                    commit_ts,
                    Value::Timestamp(lock_ts),
                );
                table.erase(copy_bytes(&keys[i].0), Column::Lock, commit_ts);
                proof {
                    let grown = rolled_forward(
                        before,
                        first_keys(keys@, i + 1),
                        lock_ts,
                        commit_ts,
                    );
                    assert(table@.write =~= grown.write);
                    assert(table@.lock =~= grown.lock);
                }
                i += 1;
            }
            proof {
                lemma_listed_keys(keys@, before.lock, lock_ts, primary@);
            }
        }
        self.data = table;
    }
}

impl Default for MemoryStorage {
    /// An engine over an empty table.
    fn default() -> (r: Self)
        ensures
            r@ == TableView::empty(),
    {
        MemoryStorage::new()
    }
}

} // verus!
