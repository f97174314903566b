//! The YAML values configuration files are read into, and the lookups the
//! readers make on them.
use crate::chars::{chars_of, string_of};
use crate::slugs::{decimal, decimal_u64_v};
use vstd::prelude::*;

verus! {

/// A YAML value: scalars, sequences, and mappings (entries in file order).
#[derive(Debug)]
pub enum Value {
    /// `~`, `null`, or nothing at all.
    Null,
    /// `true` / `false`.
    Bool(bool),
    /// An integer scalar.
    Int(i64),
    /// Any other scalar, and every quoted one.
    String(String),
    /// A block or flow sequence.
    Sequence(Vec<Value>),
    /// A block or flow mapping.
    Mapping(Vec<(Value, Value)>),
}

/// The text of a string value.
pub open spec fn str_of(v: Value) -> Option<Seq<char>> {
    match v {
        Value::String(s) => Some(s@),
        _ => None,
    }
}

/// The value of the first entry of `m` whose key is the string `key`, from
/// entry `i` on.
pub open spec fn lookup_from(m: Seq<(Value, Value)>, key: Seq<char>, i: int) -> Option<Value>
    decreases m.len() - i,
{
    if i < 0 || i >= m.len() {
        None
    } else if str_of(m[i].0) == Some(key) {
        Some(m[i].1)
    } else {
        lookup_from(m, key, i + 1)
    }
}

pub open spec fn lookup(m: Seq<(Value, Value)>, key: Seq<char>) -> Option<Value> {
    lookup_from(m, key, 0)
}

impl Value {
    /// The text of a string value.
    pub fn as_str(&self) -> (r: Option<&str>)
        ensures
            match r {
                Some(s) => str_of(*self) == Some(s@),
                None => str_of(*self) is None,
            },
    {
        match self {
            Value::String(s) => Some(s.as_str()),
            _ => None,
        }
    }

    /// Whether the value is `Null`.
    pub fn is_null(&self) -> (r: bool)
        ensures
            r == (*self is Null),
    {
        match self {
            Value::Null => true,
            _ => false,
        }
    }
}

/// The value of the first entry whose key is the string `key`.
pub fn get<'a>(m: &'a Vec<(Value, Value)>, key: &str) -> (r: Option<&'a Value>)
    ensures
        match r {
            Some(v) => lookup(m@, key@) == Some(*v),
            None => lookup(m@, key@) is None,
        },
{
    let mut i: usize = 0;
    while i < m.len()
        invariant
            i <= m@.len(),
            lookup(m@, key@) == lookup_from(m@, key@, i as int),
        decreases m.len() - i,
    {
        match m[i].0.as_str() {
            Some(k) => {
                let kv = chars_of(k);
                let want = chars_of(key);
                if crate::markdown::eq_chars(kv.as_slice(), want.as_slice()) {
                    return Some(&m[i].1);
                }
            },
            None => {},
        }
        i += 1;
    }
    None
}


/// The decimal text of an integer, with a leading `-` when negative.
pub open spec fn int_text(n: int) -> Seq<char> {
    if n < 0 {
        seq!['-'] + decimal((-n) as nat)
    } else {
        decimal(n as nat)
    }
}

/// The decimal text of an integer (see [`int_text`]).
pub fn int_text_v(n: i64) -> (r: Vec<char>)
    ensures
        r@ == int_text(n as int),
{
    let mut v: Vec<char> = Vec::new();
    let m: u64 = if n < 0 {
        v.push('-');
        (0i128 - (n as i128)) as u64
    } else {
        n as u64
    };
    let d = decimal_u64_v(m);
    let mut i: usize = 0;
    let ghost v0 = v@;
    while i < d.len()
        invariant
            i <= d@.len(),
            v@ == v0 + d@.subrange(0, i as int),
        decreases d.len() - i,
    {
        v.push(d[i]);
        i += 1;
    }
    assert(v@ =~= int_text(n as int));
    v
}

/// The text a scalar displays as: a string's own text, an integer's
/// decimal form, `true` / `false`; nothing for null and collections.
pub open spec fn display_of(v: Value) -> Option<Seq<char>> {
    match v {
        Value::String(s) => Some(s@),
        Value::Int(n) => Some(int_text(n as int)),
        Value::Bool(b) => Some(if b { "true"@ } else { "false"@ }),
        _ => None,
    }
}

impl Value {
    /// The text of a scalar (see [`display_of`]).
    pub fn as_display_str(&self) -> (r: Option<String>)
        ensures
            match r {
                Some(s) => display_of(*self) == Some(s@),
                None => display_of(*self) is None,
            },
    {
        match self {
            Value::String(s) => Some(s.as_str().to_owned()),
            Value::Int(n) => {
                let v = int_text_v(*n);
                Some(string_of(v.as_slice()))
            },
            Value::Bool(b) => {
                if *b {
                    Some("true".to_owned())
                } else {
                    Some("false".to_owned())
                }
            },
            _ => None,
        }
    }
}

} // verus!
