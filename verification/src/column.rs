//! One column of the table: its cells in a vector, kept in ascending key order.
use crate::cell::{key_view, keys_view, Key, Value, ValueView};
use crate::lex::{
    compare_bytes, compare_keys, key_lt, lemma_key_asymmetric, lemma_key_total,
    lemma_key_transitive, lemma_lex_asymmetric, lemma_lex_irreflexive, lex_lt, KeyView, Rank,
};
use crate::model::{
    erase_upto, is_first_commit, is_latest_in, keys_held, latest_in, lemma_latest_is,
    lists_in_order, records_commit, ColumnView,
};
use vstd::prelude::*;

verus! {

/// An ordered map from versioned keys to values.
///
/// The cells stand in strictly ascending order of their keys, so no key occurs twice
/// and a walk through the vector is a walk through the map in key order.
pub struct OrderedColumn {
    cells: Vec<(Key, Value)>,
}

/// The key of a stored cell as contracts see it.
pub open spec fn cell_key(c: (Key, Value)) -> KeyView {
    (c.0.0@, c.0.1)
}

/// Each cell's key precedes the keys of all cells behind it.
spec fn ascending(s: Seq<(Key, Value)>) -> bool {
    forall|i: int, j: int|
        0 <= i < j < s.len() ==> key_lt(cell_key(#[trigger] s[i]), cell_key(#[trigger] s[j]))
}

/// The cell at index `i` has the key `k`.
spec fn at(s: Seq<(Key, Value)>, k: KeyView, i: int) -> bool {
    0 <= i < s.len() && cell_key(s[i]) == k
}

/// The map that a sequence of cells stands for.
spec fn cells_map(s: Seq<(Key, Value)>) -> ColumnView {
    Map::new(
        |k: KeyView| exists|i: int| at(s, k, i),
        |k: KeyView| s[choose|i: int| at(s, k, i)].1@,
    )
}

/// In an ascending sequence a key stands at one index only.
proof fn lemma_one_index(s: Seq<(Key, Value)>, i: int, j: int)
    requires
        ascending(s),
        0 <= i < s.len(),
        0 <= j < s.len(),
        cell_key(s[i]) == cell_key(s[j]),
    ensures
        i == j,
{
    if i < j {
        lemma_key_asymmetric(cell_key(s[i]), cell_key(s[j]));
    } else if j < i {
        lemma_key_asymmetric(cell_key(s[j]), cell_key(s[i]));
    }
}

/// The map holds each cell of an ascending sequence under its key.
proof fn lemma_cell_in_map(s: Seq<(Key, Value)>, i: int)
    requires
        ascending(s),
        0 <= i < s.len(),
    ensures
        cells_map(s).contains_key(cell_key(s[i])),
        cells_map(s)[cell_key(s[i])] == s[i].1@,
{
    let k = cell_key(s[i]);
    assert(at(s, k, i));
    let j = choose|j: int| at(s, k, j);
    lemma_one_index(s, i, j);
}

/// A map that holds every cell under its key, and holds nothing else, is the map
/// that the cells stand for.
proof fn lemma_map_is(s: Seq<(Key, Value)>, m: ColumnView)
    requires
        forall|i: int|
            0 <= i < s.len() ==> m.contains_key(cell_key(#[trigger] s[i])) && m[cell_key(s[i])]
                == s[i].1@,
        forall|k: KeyView| #[trigger] m.contains_key(k) ==> exists|i: int| at(s, k, i),
    ensures
        cells_map(s) == m,
{
    assert forall|k: KeyView| cells_map(s).contains_key(k) implies m.contains_key(k)
        && cells_map(s)[k] == m[k] by {
        let i = choose|i: int| at(s, k, i);
        assert(cell_key(s[i]) == k);
    }
    assert(cells_map(s) =~= m);
}

/// A new cell put between the cells that precede it and those that follow it keeps
/// the order and adds its key to the map.
proof fn lemma_insert_cell(s: Seq<(Key, Value)>, p: int, c: (Key, Value))
    requires
        ascending(s),
        0 <= p <= s.len(),
        forall|i: int| 0 <= i < p ==> key_lt(cell_key(#[trigger] s[i]), cell_key(c)),
        forall|i: int| p <= i < s.len() ==> key_lt(cell_key(c), cell_key(#[trigger] s[i])),
    ensures
        ascending(s.insert(p, c)),
        cells_map(s.insert(p, c)) == cells_map(s).insert(cell_key(c), c.1@),
{
    let grown = s.insert(p, c);
    let m = cells_map(s).insert(cell_key(c), c.1@);
    assert forall|i: int, j: int| 0 <= i < j < grown.len() implies key_lt(
        cell_key(#[trigger] grown[i]),
        cell_key(#[trigger] grown[j]),
    ) by {
        let i0 = if i < p { i } else { i - 1 };
        let j0 = if j < p { j } else { j - 1 };
        if i != p && j != p {
            assert(grown[i] == s[i0] && grown[j] == s[j0]);
        } else if i == p {
            assert(grown[j] == s[j0]);
        } else {
            assert(grown[i] == s[i0]);
        }
    }
    assert forall|i: int| 0 <= i < grown.len() implies m.contains_key(cell_key(#[trigger] grown[i]))
        && m[cell_key(grown[i])] == grown[i].1@ by {
        if i != p {
            let i0 = if i < p { i } else { i - 1 };
            assert(grown[i] == s[i0]);
            lemma_cell_in_map(s, i0);
            lemma_key_asymmetric_either(cell_key(s[i0]), cell_key(c));
        }
    }
    assert forall|k: KeyView| #[trigger] m.contains_key(k) implies exists|i: int| at(grown, k, i) by {
        if k == cell_key(c) {
            assert(at(grown, k, p));
        } else {
            let i0 = choose|i: int| at(s, k, i);
            let i = if i0 < p { i0 } else { i0 + 1 };
            assert(grown[i] == s[i0]);
            assert(at(grown, k, i));
        }
    }
    lemma_map_is(grown, m);
}

/// Keys of which one precedes the other differ.
proof fn lemma_key_asymmetric_either(a: KeyView, b: KeyView)
    requires
        key_lt(a, b) || key_lt(b, a),
    ensures
        a != b,
{
    if key_lt(a, b) {
        lemma_key_asymmetric(a, b);
    } else {
        lemma_key_asymmetric(b, a);
    }
}

/// A cell put in the place of one with the same key keeps the order and replaces
/// the value in the map.
proof fn lemma_replace_cell(s: Seq<(Key, Value)>, p: int, c: (Key, Value))
    requires
        ascending(s),
        0 <= p < s.len(),
        cell_key(s[p]) == cell_key(c),
    ensures
        ascending(s.update(p, c)),
        cells_map(s.update(p, c)) == cells_map(s).insert(cell_key(c), c.1@),
{
    let grown = s.update(p, c);
    let m = cells_map(s).insert(cell_key(c), c.1@);
    assert forall|i: int, j: int| 0 <= i < j < grown.len() implies key_lt(
        cell_key(#[trigger] grown[i]),
        cell_key(#[trigger] grown[j]),
    ) by {
        assert(cell_key(grown[i]) == cell_key(s[i]));
        assert(cell_key(grown[j]) == cell_key(s[j]));
    }
    assert forall|i: int| 0 <= i < grown.len() implies m.contains_key(cell_key(#[trigger] grown[i]))
        && m[cell_key(grown[i])] == grown[i].1@ by {
        if i != p {
            lemma_cell_in_map(s, i);
            if cell_key(s[i]) == cell_key(c) {
                lemma_one_index(s, i, p);
            }
        }
    }
    assert forall|k: KeyView| #[trigger] m.contains_key(k) implies exists|i: int| at(grown, k, i) by {
        if k == cell_key(c) {
            assert(at(grown, k, p));
        } else {
            let i = choose|i: int| at(s, k, i);
            assert(at(grown, k, i));
        }
    }
    lemma_map_is(grown, m);
}

/// Cutting out the stretch `a..b` keeps the order and removes from the map the keys
/// that stood there.
proof fn lemma_cut_cells(s: Seq<(Key, Value)>, a: int, b: int)
    requires
        ascending(s),
        0 <= a <= b <= s.len(),
    ensures
        ascending(s.subrange(0, a) + s.subrange(b, s.len() as int)),
        cells_map(s.subrange(0, a) + s.subrange(b, s.len() as int)) == cells_map(s).remove_keys(
            Set::new(|k: KeyView| exists|i: int| a <= i < b && at(s, k, i)),
        ),
{
    let grown = s.subrange(0, a) + s.subrange(b, s.len() as int);
    let gone = Set::new(|k: KeyView| exists|i: int| a <= i < b && at(s, k, i));
    let m = cells_map(s).remove_keys(gone);
    assert forall|i: int, j: int| 0 <= i < j < grown.len() implies key_lt(
        cell_key(#[trigger] grown[i]),
        cell_key(#[trigger] grown[j]),
    ) by {
        let i0 = if i < a { i } else { i + (b - a) };
        let j0 = if j < a { j } else { j + (b - a) };
        assert(grown[i] == s[i0] && grown[j] == s[j0]);
    }
    assert forall|i: int| 0 <= i < grown.len() implies m.contains_key(cell_key(#[trigger] grown[i]))
        && m[cell_key(grown[i])] == grown[i].1@ by {
        let i0 = if i < a { i } else { i + (b - a) };
        assert(grown[i] == s[i0]);
        lemma_cell_in_map(s, i0);
        if gone.contains(cell_key(s[i0])) {
            let g = choose|g: int| a <= g < b && at(s, cell_key(s[i0]), g);
            lemma_one_index(s, i0, g);
        }
    }
    assert forall|k: KeyView| #[trigger] m.contains_key(k) implies exists|i: int| at(grown, k, i) by {
        let i0 = choose|i: int| at(s, k, i);
        assert(!(a <= i0 < b));
        let i = if i0 < a { i0 } else { i0 - (b - a) };
        assert(grown[i] == s[i0]);
        assert(at(grown, k, i));
    }
    lemma_map_is(grown, m);
}

impl View for OrderedColumn {
    type V = ColumnView;

    closed spec fn view(&self) -> ColumnView {
        cells_map(self.cells@)
    }
}

impl OrderedColumn {
    #[verifier::type_invariant]
    spec fn well_formed(&self) -> bool {
        ascending(self.cells@)
    }

    /// A column without cells.
    pub fn new() -> (r: Self)
        ensures
            r@ == Map::<KeyView, ValueView>::empty(),
    {
        let r = OrderedColumn { cells: Vec::new() };
        assert(r@ =~= Map::<KeyView, ValueView>::empty());
        r
    }

    /// Moves the cells out and leaves the column empty, for an update that puts them back.
    fn take_cells(&mut self) -> (cells: Vec<(Key, Value)>)
        ensures
            cells@ == old(self).cells@,
            final(self).cells@ == Seq::<(Key, Value)>::empty(),
    {
        let mut cells: Vec<(Key, Value)> = Vec::new();
        core::mem::swap(&mut self.cells, &mut cells);
        cells
    }

    /// The index of the first cell whose key does not precede `(key, ts)`.
    fn lower_bound(&self, key: &Vec<u8>, ts: u64) -> (p: usize)
        ensures
            p <= self.cells@.len(),
            forall|i: int| 0 <= i < p ==> key_lt(cell_key(#[trigger] self.cells@[i]), (key@, ts)),
            forall|i: int|
                p <= i < self.cells@.len() ==> !key_lt(
                    cell_key(#[trigger] self.cells@[i]),
                    (key@, ts),
                ),
    {
        proof {
            use_type_invariant(self);
        }
        let ghost target = (key@, ts);
        let mut lo: usize = 0;
        let mut hi: usize = self.cells.len();
        while lo < hi
            invariant
                lo <= hi <= self.cells@.len(),
                target == (key@, ts),
                ascending(self.cells@),
                forall|i: int| 0 <= i < lo ==> key_lt(cell_key(#[trigger] self.cells@[i]), target),
                forall|i: int|
                    hi <= i < self.cells@.len() ==> !key_lt(
                        cell_key(#[trigger] self.cells@[i]),
                        target,
                    ),
            decreases hi - lo,
        {
            let mid: usize = lo + (hi - lo) / 2;
            let c = &self.cells[mid];
            let ghost mk = cell_key(self.cells@[mid as int]);
            match compare_keys(&c.0.0, c.0.1, key, ts) {
                Rank::Before => {
                    assert forall|i: int| 0 <= i < mid + 1 implies key_lt(
                        cell_key(#[trigger] self.cells@[i]),
                        target,
                    ) by {
                        if i < mid {
                            lemma_key_transitive(cell_key(self.cells@[i]), mk, target);
                        }
                    }
                    lo = mid + 1;
                },
                _ => {
                    assert forall|i: int| mid <= i < self.cells@.len() implies !key_lt(
                        cell_key(#[trigger] self.cells@[i]),
                        target,
                    ) by {
                        if mid < i && key_lt(cell_key(self.cells@[i]), target) {
                            lemma_key_transitive(mk, cell_key(self.cells@[i]), target);
                        }
                    }
                    hi = mid;
                },
            }
        }
        lo
    }

    /// Whether the cell at index `i` belongs to `key`.
    fn cell_is_of(&self, i: usize, key: &Vec<u8>) -> (b: bool)
        requires
            i < self.cells@.len(),
        ensures
            b == (self.cells@[i as int].0.0@ == key@),
    {
        match compare_bytes(&self.cells[i].0.0, key) {
            Rank::Same => true,
            _ => false,
        }
    }

    /// The cell of `key` with the largest timestamp in `lo..=hi`, if the column holds one.
    pub fn read(&self, key: &Vec<u8>, lo: u64, hi: u64) -> (r: Option<(&Key, &Value)>)
        ensures
            match r {
                Some((k, v)) => {
                    &&& k.0@ == key@
                    &&& latest_in(self@, key@, lo, hi) == Some(k.1)
                    &&& self@[(key@, k.1)] == v@
                },
                None => latest_in(self@, key@, lo, hi) is None,
            },
    {
        proof {
            use_type_invariant(self);
        }
        if lo > hi {
            return None;
        }
        let ghost s = self.cells@;
        let p = self.lower_bound(key, hi);
        if p < self.cells.len() && self.cells[p].0.1 == hi && self.cell_is_of(p, key) {
            let c = &self.cells[p];
            proof {
                lemma_cell_in_map(s, p as int);
                assert(is_latest_in(self@, key@, lo, hi, hi));
                lemma_latest_is(self@, key@, lo, hi, hi);
            }
            return Some((&c.0, &c.1));
        }
        // Every cell of `key` up to `hi` now stands below `p`.
        assert forall|u: u64| u <= hi && #[trigger] self@.contains_key((key@, u)) implies exists|
            i: int,
        |
            0 <= i < p && at(s, (key@, u), i) by {
            let i = choose|i: int| at(s, (key@, u), i);
            if p <= i {
                lemma_key_total(cell_key(s[i]), (key@, hi));
                if p < i {
                    lemma_key_asymmetric(cell_key(s[p as int]), cell_key(s[i]));
                }
            }
        }
        if p > 0 && self.cells[p - 1].0.1 >= lo && self.cell_is_of(p - 1, key) {
            let c = &self.cells[p - 1];
            proof {
                let t = c.0.1;
                lemma_cell_in_map(s, p - 1);
                assert forall|u: u64| lo <= u <= hi && #[trigger] self@.contains_key(
                    (key@, u),
                ) implies u <= t by {
                    let i = choose|i: int| 0 <= i < p && at(s, (key@, u), i);
                    if i < p - 1 {
                        lemma_key_asymmetric(cell_key(s[i]), cell_key(s[p - 1]));
                        lemma_lex_irreflexive(key@);
                    }
                }
                assert(is_latest_in(self@, key@, lo, hi, t));
                lemma_latest_is(self@, key@, lo, hi, t);
            }
            return Some((&c.0, &c.1));
        }
        assert forall|u: u64| lo <= u <= hi implies !#[trigger] self@.contains_key((key@, u)) by {
            if self@.contains_key((key@, u)) {
                // (key, u) <= last < (key, hi) puts the last cell below `p` on `key` itself.
                let i = choose|i: int| 0 <= i < p && at(s, (key@, u), i);
                let last = cell_key(s[p - 1]);
                if i < p - 1 && lex_lt(key@, last.0) {
                    lemma_lex_asymmetric(key@, last.0);
                }
            }
        }
        None
    }

    /// Puts `value` at `(key, ts)`, in place of what the column held there.
    pub fn insert(&mut self, key: Vec<u8>, ts: u64, value: Value)
        ensures
            final(self)@ == old(self)@.insert((key@, ts), value@),
    {
        proof {
            use_type_invariant(&*self);
        }
        let ghost s = self.cells@;
        let ghost target = (key@, ts);
        let p = self.lower_bound(&key, ts);
        if p < self.cells.len() && self.cells[p].0.1 == ts && self.cell_is_of(p, &key) {
            let cell = ((key, ts), value);
            proof {
                lemma_replace_cell(s, p as int, cell);
            }
            let mut cells = self.take_cells();
            cells.set(p, cell);
            self.cells = cells;
        } else {
            let cell = ((key, ts), value);
            proof {
                assert forall|i: int| p <= i < s.len() implies key_lt(
                    target,
                    cell_key(#[trigger] s[i]),
                ) by {
                    lemma_key_total(cell_key(s[i]), target);
                    if cell_key(s[i]) == target && p < i {
                        lemma_key_asymmetric(cell_key(s[p as int]), cell_key(s[i]));
                    }
                }
                lemma_insert_cell(s, p as int, cell);
            }
            let mut cells = self.take_cells();
            cells.insert(p, cell);
            self.cells = cells;
        }
    }

    /// Removes the versions of `key` whose timestamp is at most `upper`.
    pub fn erase(&mut self, key: &Vec<u8>, upper: u64)
        ensures
            final(self)@ == erase_upto(old(self)@, key@, upper),
    {
        proof {
            use_type_invariant(&*self);
        }
        let ghost s = self.cells@;
        let a = self.lower_bound(key, 0);
        let q = self.lower_bound(key, upper);
        let hit = q < self.cells.len() && self.cells[q].0.1 == upper && self.cell_is_of(q, key);
        let b: usize = if hit { q + 1 } else { q };
        proof {
            lemma_lex_irreflexive(key@);
            if q < a {
                if 0 < upper {
                    lemma_key_transitive(cell_key(s[q as int]), (key@, 0), (key@, upper));
                }
            }
            // The stretch `a..b` holds the versions of `key` up to `upper`, and no other cell does.
            assert forall|i: int| 0 <= i < s.len() implies ((a <= i < b) <==> (cell_key(
                #[trigger] s[i],
            ).0 == key@ && cell_key(s[i]).1 <= upper)) by {
                let k = cell_key(s[i]);
                lemma_key_total(k, (key@, 0));
                lemma_key_total(k, (key@, upper));
                if lex_lt(k.0, key@) {
                    lemma_lex_asymmetric(k.0, key@);
                }
                if lex_lt(key@, k.0) {
                    lemma_lex_asymmetric(key@, k.0);
                }
                if k == (key@, upper) && i != q {
                    if i < q {
                        lemma_key_asymmetric(k, (key@, upper));
                    } else {
                        lemma_key_asymmetric(cell_key(s[q as int]), k);
                    }
                }
            }
            lemma_cut_cells(s, a as int, b as int);
            let gone = Set::new(|k: KeyView| exists|i: int| a <= i < b && at(s, k, i));
            let swept = Set::new(|k: KeyView| k.0 == key@ && k.1 <= upper);
            assert forall|k: KeyView| cells_map(s).contains_key(k) implies (gone.contains(k)
                <==> swept.contains(k)) by {
                let i = choose|i: int| at(s, k, i);
                if gone.contains(k) {
                    let g = choose|g: int| a <= g < b && at(s, k, g);
                    lemma_one_index(s, i, g);
                }
            }
            assert(cells_map(s).remove_keys(gone) =~= cells_map(s).remove_keys(swept));
        }
        let mut cells = self.take_cells();
        let mut tail = cells.split_off(b);
        cells.truncate(a);
        cells.append(&mut tail);
        assert(cells@ =~= s.subrange(0, a as int) + s.subrange(b as int, s.len() as int));
        self.cells = cells;
    }

    /// The keys at timestamp `ts` whose value is the payload `primary`, in ascending order.
    pub fn keys_held(&self, ts: u64, primary: &Vec<u8>) -> (r: Vec<Key>)
        ensures
            lists_in_order(keys_view(r@), keys_held(self@, ts, primary@)),
    {
        proof {
            use_type_invariant(self);
        }
        let ghost s = self.cells@;
        let ghost held = keys_held(self@, ts, primary@);
        let mut keys: Vec<Key> = Vec::new();
        let ghost mut from: Seq<int> = Seq::empty();
        let mut i: usize = 0;
        while i < self.cells.len()
            invariant
                i <= s.len(),
                s == self.cells@,
                ascending(s),
                held == keys_held(cells_map(s), ts, primary@),
                from.len() == keys.len(),
                forall|j: int|
                    0 <= j < from.len() ==> 0 <= #[trigger] from[j] < i && key_view(keys@[j])
                        == cell_key(s[from[j]]) && held.contains(key_view(keys@[j])),
                forall|j: int, l: int|
                    0 <= j < l < from.len() ==> #[trigger] from[j] < #[trigger] from[l],
                forall|m: int|
                    0 <= m < i && held.contains(cell_key(#[trigger] s[m])) ==> exists|j: int|
                        0 <= j < from.len() && from[j] == m,
            decreases s.len() - i,
        {
            let c = &self.cells[i];
            let holds = c.0.1 == ts && match &c.1 {
                Value::Vector(b) => match compare_bytes(b, primary) {
                    Rank::Same => true,
                    _ => false,
                },
                Value::Timestamp(_) => false,
            };
            proof {
                lemma_cell_in_map(s, i as int);
                assert(holds == held.contains(cell_key(s[i as int])));
            }
            if holds {
                let bytes = c.0.0.clone();
                assert(bytes@ =~= c.0.0@);
                keys.push((bytes, c.0.1));
                proof {
                    let before = from;
                    from = from.push(i as int);
                    assert forall|m: int|
                        0 <= m < i + 1 && held.contains(cell_key(#[trigger] s[m])) implies exists|
                        j: int,
                    |
                        0 <= j < from.len() && from[j] == m by {
                        if m < i {
                            let j = choose|j: int| 0 <= j < before.len() && before[j] == m;
                            assert(from[j] == m);
                        } else {
                            assert(from[before.len() as int] == m);
                        }
                    }
                }
            }
            i += 1;
        }
        proof {
            let kv = keys_view(keys@);
            assert forall|j: int, l: int| 0 <= j < l < kv.len() implies key_lt(
                #[trigger] kv[j],
                #[trigger] kv[l],
            ) by {
                assert(from[j] < from[l]);
            }
            assert forall|k: KeyView| held.contains(k) <==> kv.contains(k) by {
                if held.contains(k) {
                    let m = choose|m: int| at(s, k, m);
                    let j = choose|j: int| 0 <= j < from.len() && from[j] == m;
                    assert(kv[j] == k);
                }
                if kv.contains(k) {
                    let j = choose|j: int| 0 <= j < kv.len() && kv[j] == k;
                    assert(0 <= from[j]);
                    assert(held.contains(key_view(keys@[j])));
                }
            }
        }
        keys
    }

    /// The smallest timestamp at which the column records `ts` for `primary`, if there is one.
    pub fn first_commit(&self, ts: u64, primary: &Vec<u8>) -> (r: Option<u64>)
        ensures
            match r {
                Some(c) => is_first_commit(self@, ts, primary@, c),
                None => forall|c: u64| !records_commit(self@, ts, primary@, c),
            },
    {
        proof {
            use_type_invariant(self);
        }
        let ghost s = self.cells@;
        let mut i: usize = 0;
        while i < self.cells.len()
            invariant
                i <= s.len(),
                s == self.cells@,
                ascending(s),
                forall|m: int|
                    0 <= m < i ==> !records_commit(
                        cells_map(s),
                        ts,
                        primary@,
                        cell_key(#[trigger] s[m]).1,
                    ) || cell_key(s[m]).0 != primary@,
            decreases s.len() - i,
        {
            let c = &self.cells[i];
            let found = match &c.1 {
                Value::Timestamp(t) => *t == ts,
                Value::Vector(_) => false,
            } && self.cell_is_of(i, primary);
            proof {
                lemma_cell_in_map(s, i as int);
            }
            if found {
                proof {
                    let at_ts = c.0.1;
                    assert forall|d: u64| #[trigger]
                        records_commit(self@, ts, primary@, d) implies at_ts <= d by {
                        let m = choose|m: int| at(s, (primary@, d), m);
                        if m > i {
                            lemma_lex_irreflexive(primary@);
                        }
                    }
                }
                return Some(c.0.1);
            }
            i += 1;
        }
        proof {
            assert forall|c: u64| !records_commit(self@, ts, primary@, c) by {
                if records_commit(self@, ts, primary@, c) {
                    let m = choose|m: int| at(s, (primary@, c), m);
                    assert(cell_key(s[m]) == (primary@, c));
                }
            }
        }
        None
    }
}

impl Clone for OrderedColumn {
    /// A column of its own that holds the same cells.
    fn clone(&self) -> (r: Self)
        ensures
            r@ == self@,
    {
        proof {
            use_type_invariant(self);
        }
        let ghost s = self.cells@;
        let mut cells: Vec<(Key, Value)> = Vec::new();
        let mut i: usize = 0;
        while i < self.cells.len()
            invariant
                i <= s.len(),
                s == self.cells@,
                cells@.len() == i,
                forall|j: int|
                    0 <= j < i ==> cell_key(#[trigger] cells@[j]) == cell_key(s[j]) && cells@[j].1@
                        == s[j].1@,
            decreases s.len() - i,
        {
            let c = &self.cells[i];
            let bytes = c.0.0.clone();
            assert(bytes@ =~= c.0.0@);
            cells.push(((bytes, c.0.1), c.1.clone()));
            i += 1;
        }
        proof {
            let grown = cells@;
            assert forall|a: int, b: int| 0 <= a < b < grown.len() implies key_lt(
                cell_key(#[trigger] grown[a]),
                cell_key(#[trigger] grown[b]),
            ) by {
                assert(cell_key(grown[a]) == cell_key(s[a]));
                assert(cell_key(grown[b]) == cell_key(s[b]));
            }
            assert forall|j: int| 0 <= j < grown.len() implies cells_map(s).contains_key(
                cell_key(#[trigger] grown[j]),
            ) && cells_map(s)[cell_key(grown[j])] == grown[j].1@ by {
                lemma_cell_in_map(s, j);
            }
            assert forall|k: KeyView| #[trigger] cells_map(s).contains_key(k) implies exists|
                j: int,
            |
                at(grown, k, j) by {
                let j = choose|j: int| at(s, k, j);
                assert(cell_key(grown[j]) == cell_key(s[j]));
                assert(at(grown, k, j));
            }
            lemma_map_is(grown, cells_map(s));
        }
        OrderedColumn { cells }
    }
}

} // verus!
