//! A key-value store of typed values.
use vstd::prelude::*;
use crate::numerals::{i64_text, signed_decimal};
use crate::strmap::{StrMap, lemma_len};

verus! {

/// A stored value. A floating-point number is held as the text that
/// displaying it gives (the shortest text that reads back as the same
/// number).
#[derive(Debug, Clone, PartialEq)]
pub enum Value {
    Null,
    Bool(bool),
    Int(i64),
    Float(String),
    String(String),
}

/// The text a value displays as.
pub open spec fn shown(v: Value) -> Seq<char> {
    match v {
        Value::Null => "NULL"@,
        Value::Bool(b) => if b {
            "true"@
        } else {
            "false"@
        },
        Value::Int(i) => signed_decimal(i as int),
        Value::Float(s) => s@,
        Value::String(s) => s@,
    }
}

impl Value {
    /// The value's display text.
    pub fn to_string(&self) -> (s: String)
        ensures
            s@ == shown(*self),
    {
        match self {
            Value::Null => String::from_str("NULL"),
            Value::Bool(b) => if *b {
                String::from_str("true")
            } else {
                String::from_str("false")
            },
            Value::Int(i) => i64_text(*i),
            Value::Float(s) => s.clone(),
            Value::String(s) => s.clone(),
        }
    }
}

/// A map from string keys to values.
pub struct KvStore {
    data: StrMap<Value>,
}

impl View for KvStore {
    type V = Map<Seq<char>, Value>;

    closed spec fn view(&self) -> Map<Seq<char>, Value> {
        self.data@
    }
}

impl KvStore {
    pub closed spec fn wf(&self) -> bool {
        self.data.wf()
    }

    /// An empty store.
    pub fn new() -> (s: KvStore)
        ensures
            s.wf(),
            s@ == Map::<Seq<char>, Value>::empty(),
    {
        KvStore { data: StrMap::new() }
    }

    /// Stores `value` under `key`, replacing any earlier value.
    pub fn set(&mut self, key: &str, value: Value)
        requires
            old(self).wf(),
        ensures
            final(self).wf(),
            final(self)@ == old(self)@.insert(key@, value),
    {
        self.data.insert(String::from_str(key), value);
    }

    /// The value under `key`.
    pub fn get(&self, key: &str) -> (r: Option<&Value>)
        requires
            self.wf(),
        ensures
            r == (if self@.contains_key(key@) {
                Some(&self@[key@])
            } else {
                None::<&Value>
            }),
    {
        self.data.get(key)
    }

    /// Removes `key` and returns its value.
    pub fn delete(&mut self, key: &str) -> (r: Option<Value>)
        requires
            old(self).wf(),
        ensures
            final(self).wf(),
            final(self)@ == old(self)@.remove(key@),
            r == (if old(self)@.contains_key(key@) {
                Some(old(self)@[key@])
            } else {
                None::<Value>
            }),
    {
        self.data.remove(key)
    }

    /// The number of keys.
    pub fn len(&self) -> (n: usize)
        requires
            self.wf(),
        ensures
            self@.dom().finite(),
            n == self@.dom().len(),
    {
        proof {
            lemma_len(self.data.table());
        }
        self.data.len()
    }
}

} // verus!
