use vstd::prelude::*;

verus! {

/// The declared ABI type of a parameter.
#[derive(Debug, PartialEq, Eq)]
pub enum ParamType {
    Address,
    Bool,
    String,
    Bytes,
    FixedBytes(usize),
    Uint(usize),
    Int(usize),
    Array(Box<ParamType>),
    FixedArray(Box<ParamType>, usize),
    Tuple(Vec<ParamType>),
}

/// A typed argument value, parallel in shape to `ParamType`.
/// `Address` holds 20 bytes; `Uint` and `Int` hold a 32-byte big-endian word.
#[derive(Debug, PartialEq, Eq)]
pub enum Token {
    Address(Vec<u8>),
    Bool(bool),
    String(String),
    Bytes(Vec<u8>),
    FixedBytes(Vec<u8>),
    Uint(Vec<u8>),
    Int(Vec<u8>),
    Array(Vec<Token>),
    FixedArray(Vec<Token>),
    Tuple(Vec<Token>),
}

/// The mathematical value of a token.
pub enum Value {
    Address(Seq<u8>),
    Bool(bool),
    Text(Seq<char>),
    Bytes(Seq<u8>),
    FixedBytes(Seq<u8>),
    Uint(Seq<u8>),
    Int(Seq<u8>),
    Array(Seq<Value>),
    FixedArray(Seq<Value>),
    Tuple(Seq<Value>),
}

pub open spec fn token_value(t: &Token) -> Value
    decreases t,
{
    match t {
        Token::Address(a) => Value::Address(a@),
        Token::Bool(b) => Value::Bool(*b),
        Token::String(s) => Value::Text(s@),
        Token::Bytes(b) => Value::Bytes(b@),
        Token::FixedBytes(b) => Value::FixedBytes(b@),
        Token::Uint(w) => Value::Uint(w@),
        Token::Int(w) => Value::Int(w@),
        Token::Array(ts) => Value::Array(token_values(ts@)),
        Token::FixedArray(ts) => Value::FixedArray(token_values(ts@)),
        Token::Tuple(ts) => Value::Tuple(token_values(ts@)),
    }
}

pub open spec fn token_values(ts: Seq<Token>) -> Seq<Value>
    decreases ts,
{
    if ts.len() == 0 {
        Seq::empty()
    } else {
        token_values(ts.drop_last()).push(token_value(&ts.last()))
    }
}

impl View for Token {
    type V = Value;

    open spec fn view(&self) -> Value {
        token_value(self)
    }
}

/// A type is dynamic when its encoding has variable length: it is then
/// reached through an offset. A fixed array of no elements is static.
pub open spec fn type_dynamic(t: ParamType) -> bool
    decreases t,
{
    match t {
        ParamType::String | ParamType::Bytes | ParamType::Array(_) => true,
        ParamType::FixedArray(e, n) => n > 0 && type_dynamic(*e),
        ParamType::Tuple(cs) => types_dynamic(cs@),
        _ => false,
    }
}

pub open spec fn types_dynamic(ts: Seq<ParamType>) -> bool
    decreases ts,
{
    if ts.len() == 0 {
        false
    } else {
        types_dynamic(ts.drop_last()) || type_dynamic(ts.last())
    }
}

/// Well-formed types: byte widths 1..=32, integer widths 8..=256 in steps of 8.
pub open spec fn type_wf(t: ParamType) -> bool
    decreases t,
{
    match t {
        ParamType::FixedBytes(n) => 1 <= n <= 32,
        ParamType::Uint(bits) | ParamType::Int(bits) => 8 <= bits <= 256 && bits % 8 == 0,
        ParamType::Array(e) => type_wf(*e),
        ParamType::FixedArray(e, _) => type_wf(*e),
        ParamType::Tuple(cs) => types_wf(cs@),
        _ => true,
    }
}

pub open spec fn types_wf(ts: Seq<ParamType>) -> bool
    decreases ts,
{
    if ts.len() == 0 {
        true
    } else {
        types_wf(ts.drop_last()) && type_wf(ts.last())
    }
}

/// A value has the shape that a type declares.
pub open spec fn value_matches(v: Value, t: ParamType) -> bool
    decreases t, 0nat,
{
    match t {
        ParamType::Address => v is Address && v->Address_0.len() == 20,
        ParamType::Bool => v is Bool,
        ParamType::String => v is Text,
        ParamType::Bytes => v is Bytes,
        ParamType::FixedBytes(n) => v is FixedBytes && v->FixedBytes_0.len() == n,
        ParamType::Uint(_) => v is Uint && v->Uint_0.len() == 32,
        ParamType::Int(_) => v is Int && v->Int_0.len() == 32,
        ParamType::Array(e) => v is Array && all_match(v->Array_0, *e),
        ParamType::FixedArray(e, n) => v is FixedArray && v->FixedArray_0.len() == n
            && all_match(v->FixedArray_0, *e),
        ParamType::Tuple(cs) => v is Tuple && values_match(v->Tuple_0, cs@),
    }
}

/// Every value of `vs` matches the element type `e`.
pub open spec fn all_match(vs: Seq<Value>, e: ParamType) -> bool
    decreases e, vs.len(),
{
    if vs.len() == 0 {
        true
    } else {
        all_match(vs.drop_last(), e) && value_matches(vs.last(), e)
    }
}

/// Values and types pair up one for one.
pub open spec fn values_match(vs: Seq<Value>, ts: Seq<ParamType>) -> bool
    decreases ts, 0nat,
{
    if ts.len() == 0 {
        vs.len() == 0
    } else {
        vs.len() == ts.len() && values_match(vs.drop_last(), ts.drop_last())
            && value_matches(vs.last(), ts.last())
    }
}

} // verus!
