//! What a column holds: versioned keys and tagged values.
use crate::lex::KeyView;
use vstd::prelude::*;

verus! {

/// A versioned key: the key's bytes and the timestamp of the version.
pub type Key = (Vec<u8>, u64);

/// A versioned key as contracts see it.
pub open spec fn key_view(k: Key) -> KeyView {
    (k.0@, k.1)
}

/// A list of versioned keys as contracts see it.
pub open spec fn keys_view(keys: Seq<Key>) -> Seq<KeyView> {
    keys.map_values(|k: Key| key_view(k))
}

/// A cell's content: a timestamp or a byte payload.
#[derive(Debug)]
pub enum Value {
    Timestamp(u64),
    Vector(Vec<u8>),
}

/// A [`Value`] as contracts see it.
pub enum ValueView {
    Timestamp(u64),
    Vector(Seq<u8>),
}

/// A copy of `bytes`.
pub fn copy_bytes(bytes: &Vec<u8>) -> (r: Vec<u8>)
    ensures
        r@ == bytes@,
{
    let r = bytes.clone();
    assert(r@ =~= bytes@);
    r
}

impl View for Value {
    type V = ValueView;

    open spec fn view(&self) -> ValueView {
        match self {
            Value::Timestamp(t) => ValueView::Timestamp(*t),
            Value::Vector(b) => ValueView::Vector(b@),
        }
    }
}

impl Clone for Value {
    fn clone(&self) -> (r: Self)
        ensures
            r@ == self@,
    {
        match self {
            Value::Timestamp(t) => Value::Timestamp(*t),
            Value::Vector(b) => {
                let c = b.clone();
                assert(c@ =~= b@);
                Value::Vector(c)
            },
        }
    }
}

impl Value {
    /// The timestamp, where the value is one.
    pub fn as_ts(&self) -> (r: Option<u64>)
        ensures
            r == match self@ {
                ValueView::Timestamp(t) => Some(t),
                ValueView::Vector(_) => None,
            },
    {
        match self {
            Value::Timestamp(t) => Some(*t),
            Value::Vector(_) => None,
        }
    }

    /// The bytes, where the value is a payload.
    pub fn as_bytes(&self) -> (r: Option<&Vec<u8>>)
        ensures
            match self@ {
                ValueView::Timestamp(_) => r is None,
                ValueView::Vector(b) => r matches Some(v) && v@ == b,
            },
    {
        match self {
            Value::Timestamp(_) => None,
            Value::Vector(b) => Some(b),
        }
    }
}

/// The three columns of the table.
#[derive(Clone, Copy, Debug, PartialEq, Eq)]
pub enum Column {
    Write,
    Data,
    Lock,
}

} // verus!
