//! Parameter types, decoded tokens and the mathematical values they stand for.

use vstd::prelude::*;

verus! {

broadcast use {
    vstd::seq::axiom_seq_index_decreases,
    vstd::seq::axiom_seq_subrange_decreases,
    vstd::std_specs::vec::axiom_vec_decreases_to_view,
    vstd::std_specs::vec::axiom_vec_index_decreases,
};

/// A 32-byte slot of the encoding.
pub type Word = [u8; 32];

/// The declared type of one parameter.
#[derive(Debug, PartialEq, Eq)]
pub enum ParamType {
    Address,
    Bytes,
    Int(usize),
    Uint(usize),
    Bool,
    String,
    Array(Box<ParamType>),
    FixedBytes(usize),
    FixedArray(Box<ParamType>, usize),
    Tuple(Vec<ParamType>),
}

/// One decoded value. Integers carry their 32-byte big-endian word.
#[derive(Debug, PartialEq, Eq)]
pub enum Token {
    Address([u8; 20]),
    FixedBytes(Vec<u8>),
    Bytes(Vec<u8>),
    Int(Word),
    Uint(Word),
    Bool(bool),
    String(String),
    FixedArray(Vec<Token>),
    Array(Vec<Token>),
    Tuple(Vec<Token>),
}

/// The mathematical content of a token.
pub enum Value {
    Address(Seq<u8>),
    FixedBytes(Seq<u8>),
    Bytes(Seq<u8>),
    Int(Seq<u8>),
    Uint(Seq<u8>),
    Bool(bool),
    String(Seq<char>),
    FixedArray(Seq<Value>),
    Array(Seq<Value>),
    Tuple(Seq<Value>),
}

/// Failure of a decode.
#[derive(Debug, PartialEq, Eq)]
pub enum Error {
    /// The buffer does not hold a valid encoding of the declared types.
    InvalidData,
    /// The buffer is empty while the declared types need input.
    InvalidName(String),
}

impl Token {
    /// The value the token carries, with vectors and text as sequences.
    pub open spec fn view(self) -> Value
        decreases self, 0nat,
    {
        match self {
            Token::Address(a) => Value::Address(a@),
            Token::FixedBytes(b) => Value::FixedBytes(b@),
            Token::Bytes(b) => Value::Bytes(b@),
            Token::Int(w) => Value::Int(w@),
            Token::Uint(w) => Value::Uint(w@),
            Token::Bool(b) => Value::Bool(b),
            Token::String(s) => Value::String(s@),
            Token::FixedArray(v) => Value::FixedArray(views(v@)),
            Token::Array(v) => Value::Array(views(v@)),
            Token::Tuple(v) => Value::Tuple(views(v@)),
        }
    }
}

/// The values of a sequence of tokens, in order.
pub open spec fn views(s: Seq<Token>) -> Seq<Value>
    decreases s, 0nat,
{
    if s.len() == 0 {
        Seq::empty()
    } else {
        views(s.subrange(0, s.len() - 1)).push(s[s.len() - 1].view())
    }
}

/// True iff the type, or a type it contains, has no fixed encoded size.
pub open spec fn dynamic(p: ParamType) -> bool
    decreases p, 0nat,
{
    match p {
        ParamType::Bytes | ParamType::String | ParamType::Array(_) => true,
        ParamType::FixedArray(e, _) => dynamic(*e),
        ParamType::Tuple(ts) => any_dynamic(ts@),
        _ => false,
    }
}

/// True iff some type of the list is dynamic.
pub open spec fn any_dynamic(ts: Seq<ParamType>) -> bool
    decreases ts, 0nat,
{
    if ts.len() == 0 {
        false
    } else {
        any_dynamic(ts.subrange(0, ts.len() - 1)) || dynamic(ts[ts.len() - 1])
    }
}

/// True iff the type may be decoded from an empty buffer.
pub open spec fn empty_valid(p: ParamType) -> bool
    decreases p, 0nat,
{
    match p {
        ParamType::FixedBytes(n) => n == 0,
        ParamType::FixedArray(_, n) => n == 0,
        ParamType::Tuple(ts) => all_empty_valid(ts@),
        _ => false,
    }
}

/// True iff every type of the list may be decoded from an empty buffer.
pub open spec fn all_empty_valid(ts: Seq<ParamType>) -> bool
    decreases ts, 0nat,
{
    if ts.len() == 0 {
        true
    } else {
        all_empty_valid(ts.subrange(0, ts.len() - 1)) && empty_valid(ts[ts.len() - 1])
    }
}

impl ParamType {
    /// Whether the type is dynamic: `Bytes`, `String`, `Array`, or a
    /// composite with a dynamic member.
    pub fn is_dynamic(&self) -> (r: bool)
        ensures
            r == dynamic(*self),
        decreases self,
    {
        match self {
            ParamType::Bytes | ParamType::String | ParamType::Array(_) => true,
            ParamType::FixedArray(e, _) => e.is_dynamic(),
            ParamType::Tuple(ts) => {
                let mut i: usize = 0;
                let mut found = false;
                while i < ts.len()
                    invariant
                        i <= ts@.len(),
                        *self == ParamType::Tuple(*ts),
                        found == any_dynamic(ts@.subrange(0, i as int)),
                    decreases ts@.len() - i,
                {
                    assert(ts@.subrange(0, i as int + 1).subrange(0, i as int) == ts@.subrange(0, i as int));
                    proof {
                        assert(decreases_to!(*self => (*self)->Tuple_0));
                        assert(decreases_to!(*ts => ts[i as int]));
                        assert(decreases_to!(*self => ts[i as int]));
                    }
                    let d = ts[i].is_dynamic();
                    found = found || d;
                    i = i + 1;
                }
                assert(ts@.subrange(0, ts@.len() as int) == ts@);
                found
            },
            _ => false,
        }
    }

    /// Whether an empty buffer is an acceptable encoding of the type:
    /// `FixedBytes(0)`, `FixedArray(_, 0)`, and tuples of such types.
    pub fn is_empty_bytes_valid_encoding(&self) -> (r: bool)
        ensures
            r == empty_valid(*self),
        decreases self,
    {
        match self {
            ParamType::FixedBytes(n) => *n == 0,
            ParamType::FixedArray(_, n) => *n == 0,
            ParamType::Tuple(ts) => {
                let mut i: usize = 0;
                let mut all = true;
                while i < ts.len()
                    invariant
                        i <= ts@.len(),
                        *self == ParamType::Tuple(*ts),
                        all == all_empty_valid(ts@.subrange(0, i as int)),
                    decreases ts@.len() - i,
                {
                    assert(ts@.subrange(0, i as int + 1).subrange(0, i as int) == ts@.subrange(0, i as int));
                    proof {
                        assert(decreases_to!(*self => (*self)->Tuple_0));
                        assert(decreases_to!(*ts => ts[i as int]));
                        assert(decreases_to!(*self => ts[i as int]));
                    }
                    let e = ts[i].is_empty_bytes_valid_encoding();
                    all = all && e;
                    i = i + 1;
                }
                assert(ts@.subrange(0, ts@.len() as int) == ts@);
                all
            },
            _ => false,
        }
    }
}

} // verus!
