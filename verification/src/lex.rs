//! The order in which a column keeps its cells: byte strings lexicographically,
//! and versioned keys by byte string first, timestamp second.
use vstd::prelude::*;

verus! {

/// A versioned key as contracts see it: the key's bytes and the version's timestamp.
pub type KeyView = (Seq<u8>, u64);

/// `a` and `b` hold the same bytes at every position below `n`.
pub open spec fn agree_below(a: Seq<u8>, b: Seq<u8>, n: int) -> bool {
    &&& 0 <= n <= a.len()
    &&& n <= b.len()
    &&& forall|j: int| 0 <= j < n ==> a[j] == b[j]
}

/// `i` is the position that puts `a` before `b`: the two agree below `i`, and there
/// `a` has ended while `b` goes on, or `a` holds the smaller byte.
pub open spec fn precedes_at(a: Seq<u8>, b: Seq<u8>, i: int) -> bool {
    &&& agree_below(a, b, i)
    &&& i < b.len()
    &&& (i == a.len() || a[i] < b[i])
}

/// Strict lexicographic order on byte strings.
pub open spec fn lex_lt(a: Seq<u8>, b: Seq<u8>) -> bool {
    exists|i: int| precedes_at(a, b, i)
}

/// Strict order on versioned keys: by bytes, then by timestamp.
pub open spec fn key_lt(a: KeyView, b: KeyView) -> bool {
    lex_lt(a.0, b.0) || (a.0 == b.0 && a.1 < b.1)
}

/// How one value stands to another in a strict total order.
#[derive(Clone, Copy, Debug, PartialEq, Eq)]
pub enum Rank {
    Before,
    Same,
    After,
}

/// No byte string precedes itself.
pub proof fn lemma_lex_irreflexive(a: Seq<u8>)
    ensures
        !lex_lt(a, a),
{
}

/// Two byte strings never precede each other.
pub proof fn lemma_lex_asymmetric(a: Seq<u8>, b: Seq<u8>)
    requires
        lex_lt(a, b),
    ensures
        !lex_lt(b, a),
        a != b,
{
    let i = choose|i: int| precedes_at(a, b, i);
    if lex_lt(b, a) {
        let j = choose|j: int| precedes_at(b, a, j);
        if i < j {
            assert(b[i] == a[i]);
        } else if j < i {
            assert(a[j] == b[j]);
        }
    }
}

/// The lexicographic order is transitive.
pub proof fn lemma_lex_transitive(a: Seq<u8>, b: Seq<u8>, c: Seq<u8>)
    requires
        lex_lt(a, b),
        lex_lt(b, c),
    ensures
        lex_lt(a, c),
{
    let i = choose|i: int| precedes_at(a, b, i);
    let j = choose|j: int| precedes_at(b, c, j);
    let m = if i <= j { i } else { j };
    assert forall|k: int| 0 <= k < m implies a[k] == c[k] by {
        assert(a[k] == b[k]);
        assert(b[k] == c[k]);
    }
    assert(precedes_at(a, c, m));
}

/// Of two distinct byte strings one precedes the other.
pub proof fn lemma_lex_total(a: Seq<u8>, b: Seq<u8>)
    ensures
        lex_lt(a, b) || a == b || lex_lt(b, a),
{
    lemma_lex_total_from(a, b, 0);
}

proof fn lemma_lex_total_from(a: Seq<u8>, b: Seq<u8>, n: int)
    requires
        agree_below(a, b, n),
    ensures
        lex_lt(a, b) || a == b || lex_lt(b, a),
    decreases a.len() - n,
{
    if n == a.len() {
        if n == b.len() {
            assert(a =~= b);
        } else {
            assert(precedes_at(a, b, n));
        }
    } else if n == b.len() {
        assert(agree_below(b, a, n));
        assert(precedes_at(b, a, n));
    } else if a[n] < b[n] {
        assert(precedes_at(a, b, n));
    } else if b[n] < a[n] {
        assert(agree_below(b, a, n));
        assert(precedes_at(b, a, n));
    } else {
        lemma_lex_total_from(a, b, n + 1);
    }
}

/// No versioned key precedes itself, and two never precede each other.
pub proof fn lemma_key_asymmetric(a: KeyView, b: KeyView)
    requires
        key_lt(a, b),
    ensures
        !key_lt(b, a),
        a != b,
{
    if lex_lt(a.0, b.0) {
        lemma_lex_asymmetric(a.0, b.0);
    }
    if lex_lt(b.0, a.0) {
        lemma_lex_asymmetric(b.0, a.0);
    }
}

/// The order on versioned keys is transitive.
pub proof fn lemma_key_transitive(a: KeyView, b: KeyView, c: KeyView)
    requires
        key_lt(a, b),
        key_lt(b, c),
    ensures
        key_lt(a, c),
{
    if lex_lt(a.0, b.0) && lex_lt(b.0, c.0) {
        lemma_lex_transitive(a.0, b.0, c.0);
    }
}

/// Of two distinct versioned keys one precedes the other.
pub proof fn lemma_key_total(a: KeyView, b: KeyView)
    ensures
        key_lt(a, b) || a == b || key_lt(b, a),
{
    lemma_lex_total(a.0, b.0);
}

/// Compares two byte strings lexicographically.
pub fn compare_bytes(a: &Vec<u8>, b: &Vec<u8>) -> (r: Rank)
    ensures
        r is Before <==> lex_lt(a@, b@),
        r is Same <==> a@ == b@,
        r is After <==> lex_lt(b@, a@),
{
    let mut i: usize = 0;
    while i < a.len() && i < b.len()
        invariant
            agree_below(a@, b@, i as int),
        decreases a.len() - i,
    {
        if a[i] < b[i] {
            proof {
                assert(precedes_at(a@, b@, i as int));
                lemma_lex_asymmetric(a@, b@);
            }
            return Rank::Before;
        }
        if b[i] < a[i] {
            proof {
                assert(agree_below(b@, a@, i as int));
                assert(precedes_at(b@, a@, i as int));
                lemma_lex_asymmetric(b@, a@);
            }
            return Rank::After;
        }
        i += 1;
    }
    if i < b.len() {
        proof {
            assert(precedes_at(a@, b@, i as int));
            lemma_lex_asymmetric(a@, b@);
        }
        Rank::Before
    } else if i < a.len() {
        proof {
            assert(agree_below(b@, a@, i as int));
            assert(precedes_at(b@, a@, i as int));
            lemma_lex_asymmetric(b@, a@);
        }
        Rank::After
    } else {
        proof {
            assert(a@ =~= b@);
            lemma_lex_irreflexive(a@);
        }
        Rank::Same
    }
}

/// Compares two versioned keys: by bytes first, by timestamp where the bytes are equal.
pub fn compare_keys(a: &Vec<u8>, a_ts: u64, b: &Vec<u8>, b_ts: u64) -> (r: Rank)
    ensures
        r is Before <==> key_lt((a@, a_ts), (b@, b_ts)),
        r is Same <==> (a@, a_ts) == (b@, b_ts),
        r is After <==> key_lt((b@, b_ts), (a@, a_ts)),
{
    proof {
        lemma_lex_irreflexive(a@);
    }
    match compare_bytes(a, b) {
        Rank::Before => Rank::Before,
        Rank::After => Rank::After,
        Rank::Same => {
            if a_ts < b_ts {
                Rank::Before
            } else if b_ts < a_ts {
                Rank::After
            } else {
                Rank::Same
            }
        },
    }
}

} // verus!
