//! The table as mathematics: each column a map from versioned keys to values, and
//! the lookups and updates that the table's contracts are stated with.
use crate::cell::{Column, ValueView};
use crate::lex::{key_lt, KeyView};
use vstd::prelude::*;

verus! {

/// One column: a map from versioned keys to values.
pub type ColumnView = Map<KeyView, ValueView>;

/// `col` holds a version of `key` with a timestamp in `lo..=hi`.
pub open spec fn has_version_in(col: ColumnView, key: Seq<u8>, lo: u64, hi: u64) -> bool {
    exists|t: u64| lo <= t <= hi && #[trigger] col.contains_key((key, t))
}

/// `t` is the largest timestamp in `lo..=hi` at which `col` holds a version of `key`.
pub open spec fn is_latest_in(col: ColumnView, key: Seq<u8>, lo: u64, hi: u64, t: u64) -> bool {
    &&& lo <= t <= hi
    &&& col.contains_key((key, t))
    &&& forall|u: u64| lo <= u <= hi && #[trigger] col.contains_key((key, u)) ==> u <= t
}

/// The largest timestamp in `lo..=hi` at which `col` holds a version of `key`, if there is one.
pub open spec fn latest_in(col: ColumnView, key: Seq<u8>, lo: u64, hi: u64) -> Option<u64> {
    if exists|t: u64| is_latest_in(col, key, lo, hi, t) {
        Some(choose|t: u64| is_latest_in(col, key, lo, hi, t))
    } else {
        None
    }
}

/// The largest timestamp in a range is the one and only answer of [`latest_in`].
pub proof fn lemma_latest_is(col: ColumnView, key: Seq<u8>, lo: u64, hi: u64, t: u64)
    requires
        is_latest_in(col, key, lo, hi, t),
    ensures
        latest_in(col, key, lo, hi) == Some(t),
{
    let c = choose|c: u64| is_latest_in(col, key, lo, hi, c);
    assert(c <= t && t <= c);
}

/// A range that holds a version holds a latest one.
pub proof fn lemma_latest_exists(col: ColumnView, key: Seq<u8>, lo: u64, hi: u64)
    requires
        has_version_in(col, key, lo, hi),
    ensures
        latest_in(col, key, lo, hi) is Some,
    decreases hi - lo,
{
    let w = choose|t: u64| lo <= t <= hi && #[trigger] col.contains_key((key, t));
    if col.contains_key((key, hi)) {
        assert(is_latest_in(col, key, lo, hi, hi));
    } else {
        assert(w < hi);
        let below = (hi - 1) as u64;
        assert(col.contains_key((key, w)));
        lemma_latest_exists(col, key, lo, below);
        let t = choose|t: u64| is_latest_in(col, key, lo, below, t);
        assert(is_latest_in(col, key, lo, hi, t));
    }
}

/// [`latest_in`] finds nothing exactly where the range holds no version.
pub proof fn lemma_latest_none(col: ColumnView, key: Seq<u8>, lo: u64, hi: u64)
    ensures
        latest_in(col, key, lo, hi) is None <==> !has_version_in(col, key, lo, hi),
        latest_in(col, key, lo, hi) matches Some(t) ==> is_latest_in(col, key, lo, hi, t),
{
    if has_version_in(col, key, lo, hi) {
        lemma_latest_exists(col, key, lo, hi);
    }
    if latest_in(col, key, lo, hi) is Some {
        let t = choose|t: u64| is_latest_in(col, key, lo, hi, t);
        assert(col.contains_key((key, t)));
    }
}

/// The lower end of a range of timestamps: `0` where none is given.
pub open spec fn from_ts(bound: Option<u64>) -> u64 {
    match bound {
        Some(ts) => ts,
        None => 0,
    }
}

/// The upper end of a range of timestamps: the largest timestamp where none is given.
pub open spec fn to_ts(bound: Option<u64>) -> u64 {
    match bound {
        Some(ts) => ts,
        None => u64::MAX,
    }
}

/// `col` without the versions of `key` whose timestamp is at most `upper`.
pub open spec fn erase_upto(col: ColumnView, key: Seq<u8>, upper: u64) -> ColumnView {
    col.remove_keys(Set::new(|k: KeyView| k.0 == key && k.1 <= upper))
}

/// The versioned keys of `col` at timestamp `ts` whose value is the payload `primary`.
pub open spec fn keys_held(col: ColumnView, ts: u64, primary: Seq<u8>) -> Set<KeyView> {
    Set::new(|k: KeyView| col.contains_key(k) && k.1 == ts && col[k] == ValueView::Vector(primary))
}

/// Each key of the list precedes all keys behind it.
pub open spec fn ascending_keys(keys: Seq<KeyView>) -> bool {
    forall|i: int, j: int| 0 <= i < j < keys.len() ==> key_lt(#[trigger] keys[i], #[trigger] keys[j])
}

/// `keys` lists the members of `set`, each once, in ascending order.
pub open spec fn lists_in_order(keys: Seq<KeyView>, set: Set<KeyView>) -> bool {
    &&& ascending_keys(keys)
    &&& forall|k: KeyView| set.contains(k) <==> keys.contains(k)
}

/// `col` records at `(primary, c)` the timestamp `ts`.
pub open spec fn records_commit(col: ColumnView, ts: u64, primary: Seq<u8>, c: u64) -> bool {
    col.contains_key((primary, c)) && col[(primary, c)] == ValueView::Timestamp(ts)
}

/// `c` is the smallest timestamp at which `col` records `ts` for `primary`.
pub open spec fn is_first_commit(col: ColumnView, ts: u64, primary: Seq<u8>, c: u64) -> bool {
    &&& records_commit(col, ts, primary, c)
    &&& forall|d: u64| #[trigger] records_commit(col, ts, primary, d) ==> c <= d
}

/// The smallest timestamp at which `col` records `ts` for `primary`, if there is one.
pub open spec fn first_commit(col: ColumnView, ts: u64, primary: Seq<u8>) -> Option<u64> {
    if exists|c: u64| is_first_commit(col, ts, primary, c) {
        Some(choose|c: u64| is_first_commit(col, ts, primary, c))
    } else {
        None
    }
}

/// The smallest recording timestamp is the one and only answer of [`first_commit`].
pub proof fn lemma_first_commit_is(col: ColumnView, ts: u64, primary: Seq<u8>, c: u64)
    requires
        is_first_commit(col, ts, primary, c),
    ensures
        first_commit(col, ts, primary) == Some(c),
{
    let d = choose|d: u64| is_first_commit(col, ts, primary, d);
    assert(records_commit(col, ts, primary, c));
    assert(records_commit(col, ts, primary, d));
    assert(c <= d && d <= c);
}

/// A column that records `ts` for `primary` at some timestamp does so at a smallest one.
pub proof fn lemma_first_commit_exists(col: ColumnView, ts: u64, primary: Seq<u8>, c: u64)
    requires
        records_commit(col, ts, primary, c),
    ensures
        first_commit(col, ts, primary) matches Some(d) && is_first_commit(col, ts, primary, d)
            && d <= c,
    decreases c,
{
    if exists|d: u64| d < c && records_commit(col, ts, primary, d) {
        let d = choose|d: u64| d < c && records_commit(col, ts, primary, d);
        lemma_first_commit_exists(col, ts, primary, d);
    } else {
        assert(is_first_commit(col, ts, primary, c));
        lemma_first_commit_is(col, ts, primary, c);
    }
}

/// The three columns together.
pub struct TableView {
    pub write: ColumnView,
    pub data: ColumnView,
    pub lock: ColumnView,
}

impl TableView {
    /// The table with no cell in any column.
    pub open spec fn empty() -> TableView {
        TableView { write: Map::empty(), data: Map::empty(), lock: Map::empty() }
    }

    /// The column that `column` names.
    pub open spec fn column(self, column: Column) -> ColumnView {
        match column {
            Column::Write => self.write,
            Column::Data => self.data,
            Column::Lock => self.lock,
        }
    }

    /// The table with `col` in the place that `column` names.
    pub open spec fn with_column(self, column: Column, col: ColumnView) -> TableView {
        match column {
            Column::Write => TableView { write: col, ..self },
            Column::Data => TableView { data: col, ..self },
            Column::Lock => TableView { lock: col, ..self },
        }
    }

    /// The table after a cell is written: the cell at `(key, ts)` of `column` holds `value`.
    pub open spec fn put(self, column: Column, key: Seq<u8>, ts: u64, value: ValueView) -> TableView {
        self.with_column(column, self.column(column).insert((key, ts), value))
    }

    /// The table after an erase: `Data` and `Lock` lose the versions of `key` up to
    /// `upper`; `Write` loses nothing.
    pub open spec fn erase(self, column: Column, key: Seq<u8>, upper: u64) -> TableView {
        match column {
            Column::Write => self,
            Column::Data => TableView { data: erase_upto(self.data, key, upper), ..self },
            Column::Lock => TableView { lock: erase_upto(self.lock, key, upper), ..self },
        }
    }
}

} // verus!
