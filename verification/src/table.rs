//! The table: three ordered columns, read and written one cell at a time.
use crate::cell::{keys_view, Column, Key, Value};
use crate::column::OrderedColumn;
use crate::model::{
    first_commit, from_ts, keys_held, latest_in, lemma_first_commit_is, lists_in_order,
    records_commit, to_ts, TableView,
};
use vstd::prelude::*;

verus! {

/// The multi-version table: a `Write`, a `Data` and a `Lock` column, each an ordered
/// map from `(key, timestamp)` to a value.
pub struct KvTable {
    write: OrderedColumn,
    data: OrderedColumn,
    lock: OrderedColumn,
}

impl View for KvTable {
    type V = TableView;

    closed spec fn view(&self) -> TableView {
        TableView { write: self.write@, data: self.data@, lock: self.lock@ }
    }
}

impl KvTable {
    /// A table without cells.
    pub fn new() -> (r: Self)
        ensures
            r@ == TableView::empty(),
    {
        KvTable { write: OrderedColumn::new(), data: OrderedColumn::new(), lock: OrderedColumn::new() }
    }

    /// The cell of `key` in `column` with the largest timestamp in the given range,
    /// both ends included; a missing start is `0`, a missing end the largest timestamp.
    pub fn read(
        &self,
        key: Vec<u8>,
        column: Column,
        ts_start_inclusive: Option<u64>,
        ts_end_inclusive: Option<u64>,
    ) -> (r: Option<(&Key, &Value)>)
        ensures
            match r {
                Some((k, v)) => {
                    &&& k.0@ == key@
                    &&& latest_in(
                        self@.column(column),
                        key@,
                        from_ts(ts_start_inclusive),
                        to_ts(ts_end_inclusive),
                    ) == Some(k.1)
                    &&& self@.column(column)[(key@, k.1)] == v@
                },
                None => latest_in(
                    self@.column(column),
                    key@,
                    from_ts(ts_start_inclusive),
                    to_ts(ts_end_inclusive),
                ) is None,
            },
    {
        let lo: u64 = match ts_start_inclusive {
            None => 0,
            Some(ts) => ts,
        };
        let hi: u64 = match ts_end_inclusive {
            None => u64::MAX,
            Some(ts) => ts,
        };
        match column {
            Column::Write => self.write.read(&key, lo, hi),
            Column::Data => self.data.read(&key, lo, hi),
            Column::Lock => self.lock.read(&key, lo, hi),
        }
    }

    /// Puts `value` at `(key, ts)` of `column`, in place of what stood there.
    pub fn write(&mut self, key: Vec<u8>, column: Column, ts: u64, value: Value)
        ensures
            final(self)@ == old(self)@.put(column, key@, ts, value@),
    {
        match column {
            Column::Write => {
                self.write.insert(key, ts, value);
            },
            Column::Data => {
                self.data.insert(key, ts, value);
            },
            Column::Lock => {
                self.lock.insert(key, ts, value);
            },
        }
    }

    /// Removes from `Data` or `Lock` every version of `key` whose timestamp is at most
    /// `commit_ts`; the `Write` column keeps all its cells.
    pub fn erase(&mut self, key: Vec<u8>, column: Column, commit_ts: u64)
        ensures
            final(self)@ == old(self)@.erase(column, key@, commit_ts),
    {
        match column {
            Column::Data => {
                self.data.erase(&key, commit_ts);
            },
            Column::Lock => {
                self.lock.erase(&key, commit_ts);
            },
            Column::Write => {},
        }
    }

    /// The locks at timestamp `ts` that name `primary`, in ascending key order.
    pub fn get_uncommitted_keys(&self, ts: u64, primary: Vec<u8>) -> (r: Vec<Key>)
        ensures
            lists_in_order(keys_view(r@), keys_held(self@.lock, ts, primary@)),
    {
        self.lock.keys_held(ts, &primary)
    }

    /// The smallest timestamp at which the `Write` column records `ts` for `primary`.
    pub fn get_commit_ts(&self, ts: u64, primary: Vec<u8>) -> (r: Option<u64>)
        ensures
            r == first_commit(self@.write, ts, primary@),
            r is None <==> forall|c: u64| !records_commit(self@.write, ts, primary@, c),
    {
        let r = self.write.first_commit(ts, &primary);
        proof {
            match r {
                Some(c) => {
                    lemma_first_commit_is(self@.write, ts, primary@, c);
                },
                None => {},
            }
        }
        r
    }
}

impl Clone for KvTable {
    /// A table of its own that holds the same cells.
    fn clone(&self) -> (r: Self)
        ensures
            r@ == self@,
    {
        KvTable { write: self.write.clone(), data: self.data.clone(), lock: self.lock.clone() }
    }
}

impl Default for KvTable {
    /// A table without cells.
    fn default() -> (r: Self)
        ensures
            r@ == TableView::empty(),
    {
        KvTable::new()
    }
}

} // verus!
