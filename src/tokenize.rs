use vstd::prelude::*;
use vstd::utf8::encode_utf8;
use ethabi::token::{LenientTokenizer, Tokenizer};
use crate::types::{all_match, token_values, value_matches, values_match, ParamType, Token, Value};
use crate::encode::lemma_token_values;
use crate::hex_text::{decode_hex, hex_decoded, is_hex, strip_hex_prefix, strip_prefix};

verus! {

/// A loosely typed value handed in by a host. A number is held as the
/// text that its host prints for it.
#[derive(Debug, PartialEq, Eq)]
pub enum HostValue {
    Null,
    Bool(bool),
    Number(String),
    Text(String),
    Sequence(Vec<HostValue>),
    Keyed(Vec<(String, HostValue)>),
}

/// The mathematical value of a host value.
pub enum HostModel {
    Null,
    Bool(bool),
    Number(Seq<char>),
    Text(Seq<char>),
    Sequence(Seq<HostModel>),
    Keyed(Seq<(Seq<char>, HostModel)>),
}

pub open spec fn host_model(v: &HostValue) -> HostModel
    decreases v, 0nat,
{
    match v {
        HostValue::Null => HostModel::Null,
        HostValue::Bool(b) => HostModel::Bool(*b),
        HostValue::Number(s) => HostModel::Number(s@),
        HostValue::Text(s) => HostModel::Text(s@),
        HostValue::Sequence(vs) => HostModel::Sequence(host_models(vs@)),
        HostValue::Keyed(kvs) => HostModel::Keyed(keyed_models(kvs@)),
    }
}

pub open spec fn host_models(vs: Seq<HostValue>) -> Seq<HostModel>
    decreases vs, 0nat,
{
    if vs.len() == 0 {
        Seq::empty()
    } else {
        host_models(vs.drop_last()).push(host_model(&vs.last()))
    }
}

pub open spec fn keyed_models(kvs: Seq<(String, HostValue)>) -> Seq<(Seq<char>, HostModel)>
    decreases kvs, 0nat,
{
    if kvs.len() == 0 {
        Seq::empty()
    } else {
        keyed_models(kvs.drop_last()).push((kvs.last().0@, host_model(&kvs.last().1)))
    }
}

impl View for HostValue {
    type V = HostModel;

    open spec fn view(&self) -> HostModel {
        host_model(self)
    }
}

/// Why a host value could not be turned into a token.
#[derive(Debug, PartialEq, Eq, Structural)]
pub enum TokenizeError {
    /// The text is not 20 bytes in hexadecimal.
    MalformedAddress,
    /// A sequence or byte string has another length than the type declares.
    LengthMismatch,
    /// The text is not a number.
    InvalidNumber,
    /// The text is not hexadecimal.
    InvalidHex,
    /// The host value has a shape that the type does not take.
    UnsupportedStructure,
}

/// What ethabi's lenient tokenizer makes of a text as an unsigned integer.
pub uninterp spec fn lenient_uint(s: Seq<char>) -> Option<Seq<u8>>;

/// What ethabi's lenient tokenizer makes of a text as a signed integer.
pub uninterp spec fn lenient_int(s: Seq<char>) -> Option<Seq<u8>>;

/// Relies on ethabi's `LenientTokenizer::tokenize_uint`: a 32-byte
/// big-endian word, from decimal or 64-digit hexadecimal text, with an
/// optional ether unit; its result depends on the text alone.
#[verifier::external_body]
fn parse_uint(s: &str) -> (r: Option<Vec<u8>>)
    ensures
        r is Some <==> lenient_uint(s@) is Some,
        r is Some ==> r->0@ == lenient_uint(s@)->0 && r->0@.len() == 32,
{
    LenientTokenizer::tokenize_uint(s).ok().map(|w| w.to_vec())
}

/// Relies on ethabi's `LenientTokenizer::tokenize_int`: a 32-byte
/// two's-complement word, from decimal text with an optional minus sign or
/// from 64-digit hexadecimal text; its result depends on the text alone.
#[verifier::external_body]
fn parse_int(s: &str) -> (r: Option<Vec<u8>>)
    ensures
        r is Some <==> lenient_int(s@) is Some,
        r is Some ==> r->0@ == lenient_int(s@)->0 && r->0@.len() == 32,
{
    LenientTokenizer::tokenize_int(s).ok().map(|w| w.to_vec())
}

/// The hexadecimal digits of a text, after an optional `0x`.
pub open spec fn hex_body(s: Seq<char>) -> Seq<u8> {
    strip_hex_prefix(encode_utf8(s))
}

/// The text of a number given either as a number or as text.
pub open spec fn number_text(v: HostModel) -> Option<Seq<char>> {
    match v {
        HostModel::Number(s) | HostModel::Text(s) => Some(s),
        _ => None,
    }
}

/// The token value that a host value stands for under type `t`.
pub open spec fn tokenize_value(t: ParamType, v: HostModel) -> Result<Value, TokenizeError>
    decreases t, 0nat, 0nat,
{
    match t {
        ParamType::Address => match v {
            HostModel::Text(s) => if is_hex(hex_body(s)) && hex_decoded(hex_body(s)).len() == 20 {
                Ok(Value::Address(hex_decoded(hex_body(s))))
            } else {
                Err(TokenizeError::MalformedAddress)
            },
            _ => Err(TokenizeError::UnsupportedStructure),
        },
        ParamType::String => match v {
            HostModel::Text(s) => Ok(Value::Text(s)),
            _ => Err(TokenizeError::UnsupportedStructure),
        },
        ParamType::Bool => match v {
            HostModel::Bool(b) => Ok(Value::Bool(b)),
            _ => Err(TokenizeError::UnsupportedStructure),
        },
        ParamType::Bytes => match v {
            HostModel::Text(s) => if is_hex(hex_body(s)) {
                Ok(Value::Bytes(hex_decoded(hex_body(s))))
            } else {
                Err(TokenizeError::InvalidHex)
            },
            _ => Err(TokenizeError::UnsupportedStructure),
        },
        ParamType::FixedBytes(n) => match v {
            HostModel::Text(s) => if !is_hex(hex_body(s)) {
                Err(TokenizeError::InvalidHex)
            } else if hex_decoded(hex_body(s)).len() != n {
                Err(TokenizeError::LengthMismatch)
            } else {
                Ok(Value::FixedBytes(hex_decoded(hex_body(s))))
            },
            _ => Err(TokenizeError::UnsupportedStructure),
        },
        ParamType::Uint(_) => match number_text(v) {
            Some(s) => match lenient_uint(s) {
                Some(w) => Ok(Value::Uint(w)),
                None => Err(TokenizeError::InvalidNumber),
            },
            None => Err(TokenizeError::UnsupportedStructure),
        },
        ParamType::Int(_) => match number_text(v) {
            Some(s) => match lenient_int(s) {
                Some(w) => Ok(Value::Int(w)),
                None => Err(TokenizeError::InvalidNumber),
            },
            None => Err(TokenizeError::UnsupportedStructure),
        },
        ParamType::Array(e) => match v {
            HostModel::Sequence(vs) => match tokenize_each(*e, vs) {
                Ok(xs) => Ok(Value::Array(xs)),
                Err(err) => Err(err),
            },
            _ => Err(TokenizeError::UnsupportedStructure),
        },
        ParamType::FixedArray(e, n) => match v {
            HostModel::Sequence(vs) => if vs.len() != n {
                Err(TokenizeError::LengthMismatch)
            } else {
                match tokenize_each(*e, vs) {
                    Ok(xs) => Ok(Value::FixedArray(xs)),
                    Err(err) => Err(err),
                }
            },
            _ => Err(TokenizeError::UnsupportedStructure),
        },
        ParamType::Tuple(cs) => match v {
            HostModel::Sequence(vs) => if vs.len() != cs@.len() {
                Err(TokenizeError::LengthMismatch)
            } else {
                match tokenize_all(cs@, vs) {
                    Ok(xs) => Ok(Value::Tuple(xs)),
                    Err(err) => Err(err),
                }
            },
            _ => Err(TokenizeError::UnsupportedStructure),
        },
    }
}

/// Each host value under the one type `e`, in order; the first failure wins.
pub open spec fn tokenize_each(e: ParamType, vs: Seq<HostModel>) -> Result<Seq<Value>, TokenizeError>
    decreases e, 1nat, vs.len(),
{
    if vs.len() == 0 {
        Ok(Seq::empty())
    } else {
        match tokenize_each(e, vs.drop_last()) {
            Ok(xs) => match tokenize_value(e, vs.last()) {
                Ok(x) => Ok(xs.push(x)),
                Err(err) => Err(err),
            },
            Err(err) => Err(err),
        }
    }
}

/// Host values under the types `ts`, position by position, for as many
/// positions as `ts` has; the first failure wins.
pub open spec fn tokenize_all(ts: Seq<ParamType>, vs: Seq<HostModel>) -> Result<Seq<Value>, TokenizeError>
    decreases ts, 0nat, 0nat,
{
    if ts.len() == 0 {
        Ok(Seq::empty())
    } else {
        match tokenize_all(ts.drop_last(), vs) {
            Ok(xs) => match tokenize_value(ts.last(), vs[ts.len() - 1]) {
                Ok(x) => Ok(xs.push(x)),
                Err(err) => Err(err),
            },
            Err(err) => Err(err),
        }
    }
}

/// The exec result `r` is the tokenization `s`.
pub open spec fn tokenized_as(r: Result<Token, TokenizeError>, s: Result<Value, TokenizeError>) -> bool {
    match r {
        Ok(t) => s == Ok::<Value, TokenizeError>(t@),
        Err(e) => s == Err::<Value, TokenizeError>(e),
    }
}

/// The exec results `r` are the tokenizations `s`.
pub open spec fn all_tokenized_as(
    r: Result<Vec<Token>, TokenizeError>,
    s: Result<Seq<Value>, TokenizeError>,
) -> bool {
    match r {
        Ok(ts) => s == Ok::<Seq<Value>, TokenizeError>(token_values(ts@)),
        Err(e) => s == Err::<Seq<Value>, TokenizeError>(e),
    }
}

pub proof fn lemma_host_models(vs: Seq<HostValue>)
    ensures
        host_models(vs).len() == vs.len(),
        forall|i: int| 0 <= i < vs.len() ==> #[trigger] host_models(vs)[i] == vs[i]@,
    decreases vs.len(),
{
    if vs.len() > 0 {
        lemma_host_models(vs.drop_last());
    }
}

proof fn lemma_each_err(e: ParamType, ms: Seq<HostModel>, i: int)
    requires
        0 <= i <= ms.len(),
        tokenize_each(e, ms.take(i)) is Err,
    ensures
        tokenize_each(e, ms) == tokenize_each(e, ms.take(i)),
    decreases ms.len() - i,
{
    if i < ms.len() {
        assert(ms.take(i + 1).drop_last() =~= ms.take(i));
        lemma_each_err(e, ms, i + 1);
    } else {
        assert(ms.take(i) =~= ms);
    }
}

proof fn lemma_all_err(ts: Seq<ParamType>, ms: Seq<HostModel>, i: int)
    requires
        0 <= i <= ts.len(),
        tokenize_all(ts.take(i), ms) is Err,
    ensures
        tokenize_all(ts, ms) == tokenize_all(ts.take(i), ms),
    decreases ts.len() - i,
{
    if i < ts.len() {
        assert(ts.take(i + 1).drop_last() =~= ts.take(i));
        lemma_all_err(ts, ms, i + 1);
    } else {
        assert(ts.take(i) =~= ts);
    }
}

/// The bytes spelled by the hexadecimal digits of a text after an optional `0x`.
pub(crate) fn text_hex(s: &String) -> (r: Option<Vec<u8>>)
    ensures
        r is Some <==> is_hex(hex_body(s@)),
        r is Some ==> r->0@ == hex_decoded(hex_body(s@)),
{
    decode_hex(strip_prefix(s.as_str().as_bytes()))
}

/// Turns a host value into a token of type `t`. The declared width of
/// `Uint(bits)` and `Int(bits)` is not checked: any value that fits the
/// 256-bit word is accepted, as in the encoder and the decoder.
pub fn tokenize(t: &ParamType, v: &HostValue) -> (r: Result<Token, TokenizeError>)
    ensures
        tokenized_as(r, tokenize_value(*t, v@)),
        r is Ok ==> value_matches(r->Ok_0@, *t),
    decreases t, 0nat, 0nat,
{
    match t {
        ParamType::Address => match v {
            HostValue::Text(s) => match text_hex(s) {
                Some(b) => if b.len() == 20 {
                    Ok(Token::Address(b))
                } else {
                    Err(TokenizeError::MalformedAddress)
                },
                None => Err(TokenizeError::MalformedAddress),
            },
            _ => Err(TokenizeError::UnsupportedStructure),
        },
        ParamType::String => match v {
            HostValue::Text(s) => Ok(Token::String(s.clone())),
            _ => Err(TokenizeError::UnsupportedStructure),
        },
        ParamType::Bool => match v {
            HostValue::Bool(b) => Ok(Token::Bool(*b)),
            _ => Err(TokenizeError::UnsupportedStructure),
        },
        ParamType::Bytes => match v {
            HostValue::Text(s) => match text_hex(s) {
                Some(b) => Ok(Token::Bytes(b)),
                None => Err(TokenizeError::InvalidHex),
            },
            _ => Err(TokenizeError::UnsupportedStructure),
        },
        ParamType::FixedBytes(n) => match v {
            HostValue::Text(s) => match text_hex(s) {
                Some(b) => if b.len() == *n {
                    Ok(Token::FixedBytes(b))
                } else {
                    Err(TokenizeError::LengthMismatch)
                },
                None => Err(TokenizeError::InvalidHex),
            },
            _ => Err(TokenizeError::UnsupportedStructure),
        },
        ParamType::Uint(_) => match v {
            HostValue::Number(s) | HostValue::Text(s) => match parse_uint(s.as_str()) {
                Some(w) => Ok(Token::Uint(w)),
                None => Err(TokenizeError::InvalidNumber),
            },
            _ => Err(TokenizeError::UnsupportedStructure),
        },
        ParamType::Int(_) => match v {
            HostValue::Number(s) | HostValue::Text(s) => match parse_int(s.as_str()) {
                Some(w) => Ok(Token::Int(w)),
                None => Err(TokenizeError::InvalidNumber),
            },
            _ => Err(TokenizeError::UnsupportedStructure),
        },
        ParamType::Array(e) => match v {
            HostValue::Sequence(vs) => match tokenize_each_of(e, vs) {
                Ok(ts) => Ok(Token::Array(ts)),
                Err(err) => Err(err),
            },
            _ => Err(TokenizeError::UnsupportedStructure),
        },
        ParamType::FixedArray(e, n) => match v {
            HostValue::Sequence(vs) => {
                proof { lemma_host_models(vs@); }
                if vs.len() != *n {
                    Err(TokenizeError::LengthMismatch)
                } else {
                    match tokenize_each_of(e, vs) {
                        Ok(ts) => {
                            proof { lemma_token_values(ts@); }
                            Ok(Token::FixedArray(ts))
                        },
                        Err(err) => Err(err),
                    }
                }
            },
            _ => Err(TokenizeError::UnsupportedStructure),
        },
        ParamType::Tuple(cs) => match v {
            HostValue::Sequence(vs) => {
                proof { lemma_host_models(vs@); }
                if vs.len() != cs.len() {
                    Err(TokenizeError::LengthMismatch)
                } else {
                    match tokenize_args(cs, vs) {
                        Ok(ts) => Ok(Token::Tuple(ts)),
                        Err(err) => Err(err),
                    }
                }
            },
            _ => Err(TokenizeError::UnsupportedStructure),
        },
    }
}

/// Turns each host value into a token of the one type `e`.
fn tokenize_each_of(e: &ParamType, vs: &Vec<HostValue>) -> (r: Result<Vec<Token>, TokenizeError>)
    ensures
        all_tokenized_as(r, tokenize_each(*e, host_models(vs@))),
        r is Ok ==> all_match(token_values(r->Ok_0@), *e) && r->Ok_0@.len() == vs@.len(),
    decreases e, 1nat, vs@.len(),
{
    let ghost ms = host_models(vs@);
    proof { lemma_host_models(vs@); }
    let mut out: Vec<Token> = Vec::new();
    let mut i: usize = 0;
    while i < vs.len()
        invariant
            i <= vs@.len(),
            ms == host_models(vs@),
            ms.len() == vs@.len(),
            forall|j: int| 0 <= j < vs@.len() ==> #[trigger] ms[j] == vs@[j]@,
            tokenize_each(*e, ms.take(i as int)) == Ok::<Seq<Value>, TokenizeError>(token_values(out@)),
            all_match(token_values(out@), *e),
            out@.len() == i,
        decreases vs@.len() - i,
    {
        proof { assert(ms.take(i + 1).drop_last() =~= ms.take(i as int)); }
        match tokenize(e, &vs[i]) {
            Ok(t) => {
                proof {
                    lemma_token_values(out@);
                    assert(out@.push(t).drop_last() =~= out@);
                    lemma_token_values(out@.push(t));
                    assert(token_values(out@.push(t)).drop_last() =~= token_values(out@));
                }
                out.push(t);
            },
            Err(err) => {
                proof { lemma_each_err(*e, ms, i + 1); }
                return Err(err);
            },
        }
        i = i + 1;
    }
    assert(ms.take(ms.len() as int) =~= ms);
    Ok(out)
}

/// Turns the host values, position by position, into tokens of the types `ts`.
pub fn tokenize_args(ts: &Vec<ParamType>, vs: &Vec<HostValue>) -> (r: Result<Vec<Token>, TokenizeError>)
    requires
        vs@.len() == ts@.len(),
    ensures
        all_tokenized_as(r, tokenize_all(ts@, host_models(vs@))),
        r is Ok ==> values_match(token_values(r->Ok_0@), ts@),
    decreases ts, 0nat, 0nat,
{
    let ghost ms = host_models(vs@);
    proof { lemma_host_models(vs@); }
    let mut out: Vec<Token> = Vec::new();
    let mut i: usize = 0;
    while i < ts.len()
        invariant
            i <= ts@.len(),
            vs@.len() == ts@.len(),
            ms == host_models(vs@),
            ms.len() == vs@.len(),
            forall|j: int| 0 <= j < vs@.len() ==> #[trigger] ms[j] == vs@[j]@,
            tokenize_all(ts@.take(i as int), ms) == Ok::<Seq<Value>, TokenizeError>(token_values(out@)),
            values_match(token_values(out@), ts@.take(i as int)),
            out@.len() == i,
        decreases ts@.len() - i,
    {
        proof {
            assert(decreases_to!(*ts => ts@[i as int]));
            assert(ts@.take(i + 1).drop_last() =~= ts@.take(i as int));
        }
        match tokenize(&ts[i], &vs[i]) {
            Ok(t) => {
                proof {
                    lemma_token_values(out@);
                    assert(out@.push(t).drop_last() =~= out@);
                    lemma_token_values(out@.push(t));
                    assert(token_values(out@.push(t)).drop_last() =~= token_values(out@));
                    assert(ts@.take(i + 1).last() == ts@[i as int]);
                }
                out.push(t);
            },
            Err(err) => {
                proof { lemma_all_err(ts@, ms, i + 1); }
                return Err(err);
            },
        }
        i = i + 1;
    }
    assert(ts@.take(ts@.len() as int) =~= ts@);
    Ok(out)
}

} // verus!
