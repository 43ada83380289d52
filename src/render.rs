use vstd::prelude::*;
use vstd::string::StringExecFns;
use crate::types::{token_values, Token, Value};
use crate::encode::lemma_token_values;
use crate::hex_text::{encode_hex, hex_text};
use crate::tokenize::{host_models, HostModel, HostValue};

verus! {

/// The number that a big-endian byte string spells.
pub open spec fn be_value(b: Seq<u8>) -> nat
    decreases b.len(),
{
    if b.len() == 0 {
        0
    } else {
        (be_value(b.drop_last()) * 256 + b.last()) as nat
    }
}

/// Decimal digits of `n`, without leading zeros.
pub open spec fn decimal(n: nat) -> Seq<char>
    decreases n,
{
    if n < 10 {
        seq![(48 + n) as char]
    } else {
        decimal(n / 10).push((48 + n % 10) as char)
    }
}

/// 2^256, the modulus of a 32-byte word.
pub open spec fn word_modulus() -> nat {
    0x1_0000_0000_0000_0000_0000_0000_0000_0000_0000_0000_0000_0000_0000_0000_0000_0000_0000_0000_0000_0000nat
}

/// The two's-complement negation of a word, as a number modulo 2^256.
pub open spec fn negation(w: Seq<u8>) -> nat {
    ((word_modulus() - be_value(w)) % (word_modulus() as int)) as nat
}

/// A 32-byte word whose top bit is set holds a negative signed integer.
pub open spec fn is_negative(w: Seq<u8>) -> bool {
    w.len() == 32 && w[0] >= 128
}

/// Signed integers are shown in decimal: a word with its top bit set as `-`
/// followed by the decimal of its two's-complement negation.
pub open spec fn signed_decimal(w: Seq<u8>) -> Seq<char> {
    if is_negative(w) {
        seq!['-'] + decimal(negation(w))
    } else {
        decimal(be_value(w))
    }
}

/// Byte-like values are shown as `0x` followed by lowercase hexadecimal.
pub open spec fn hex_shown(b: Seq<u8>) -> Seq<char> {
    seq!['0', 'x'] + hex_text(b)
}

/// Integer words fit in 32 bytes, all through a value.
pub open spec fn words_fit(v: Value) -> bool
    decreases v, 0nat,
{
    match v {
        Value::Uint(w) | Value::Int(w) => w.len() <= 32,
        Value::Array(vs) | Value::FixedArray(vs) | Value::Tuple(vs) => all_words_fit(vs),
        _ => true,
    }
}

pub open spec fn all_words_fit(vs: Seq<Value>) -> bool
    decreases vs, 0nat,
{
    if vs.len() == 0 {
        true
    } else {
        all_words_fit(vs.drop_last()) && words_fit(vs.last())
    }
}

/// How a decoded value is handed back to a host: unsigned integers as the
/// decimal of the word, signed ones as signed decimal, byte-like values as
/// `0x` hexadecimal, composites as sequences.
pub open spec fn render_value(v: Value) -> HostModel
    decreases v, 0nat,
{
    match v {
        Value::Bool(b) => HostModel::Bool(b),
        Value::Text(s) => HostModel::Text(s),
        Value::Address(b) | Value::Bytes(b) | Value::FixedBytes(b) => HostModel::Text(hex_shown(b)),
        Value::Uint(w) => HostModel::Text(decimal(be_value(w))),
        Value::Int(w) => HostModel::Text(signed_decimal(w)),
        Value::Array(vs) | Value::FixedArray(vs) | Value::Tuple(vs) => HostModel::Sequence(
            render_values(vs),
        ),
    }
}

pub open spec fn render_values(vs: Seq<Value>) -> Seq<HostModel>
    decreases vs, 0nat,
{
    if vs.len() == 0 {
        Seq::empty()
    } else {
        render_values(vs.drop_last()).push(render_value(vs.last()))
    }
}

/// Relies on the `Display` of ethabi's `Uint` (a 256-bit unsigned integer)
/// built by `from_big_endian`: the decimal digits of the number, without
/// leading zeros. `from_big_endian` takes at most 32 bytes.
#[verifier::external_body]
fn decimal_text(w: &[u8]) -> (r: String)
    requires
        w@.len() <= 32,
    ensures
        r@ == decimal(be_value(w@)),
{
    ethabi::Uint::from_big_endian(w).to_string()
}

/// Relies on ethabi's `Uint` (a 256-bit unsigned integer): `from_big_endian`
/// takes at most 32 bytes, `overflowing_neg` gives the two's-complement
/// negation modulo 2^256 (zero stays zero), and `Display` gives its decimal
/// digits without leading zeros.
#[verifier::external_body]
fn negation_decimal_text(w: &[u8]) -> (r: String)
    requires
        w@.len() <= 32,
    ensures
        r@ == decimal(negation(w@)),
{
    ethabi::Uint::from_big_endian(w).overflowing_neg().0.to_string()
}

/// The signed decimal text of a word.
fn signed_decimal_text(w: &[u8]) -> (r: String)
    requires
        w@.len() <= 32,
    ensures
        r@ == signed_decimal(w@),
{
    if w.len() == 32 && w[0] >= 128u8 {
        let mut s = "-".to_owned();
        let d = negation_decimal_text(w);
        s.append(d.as_str());
        proof {
            reveal_strlit("-");
            assert(s@ =~= signed_decimal(w@));
        }
        s
    } else {
        decimal_text(w)
    }
}

fn shown_hex(b: &[u8]) -> (r: String)
    ensures
        r@ == hex_shown(b@),
{
    let mut s = "0x".to_owned();
    let h = encode_hex(b);
    s.append(h.as_str());
    proof {
        reveal_strlit("0x");
        assert(s@ =~= hex_shown(b@));
    }
    s
}

/// The host value that a decoded token is handed back as.
pub fn render(t: &Token) -> (r: HostValue)
    requires
        words_fit(t@),
    ensures
        r@ == render_value(t@),
    decreases t,
{
    match t {
        Token::Bool(b) => HostValue::Bool(*b),
        Token::String(s) => HostValue::Text(s.clone()),
        Token::Address(b) | Token::Bytes(b) | Token::FixedBytes(b) => HostValue::Text(
            shown_hex(b.as_slice()),
        ),
        Token::Uint(w) => HostValue::Text(decimal_text(w.as_slice())),
        Token::Int(w) => HostValue::Text(signed_decimal_text(w.as_slice())),
        Token::Array(ts) => HostValue::Sequence(render_all(ts)),
        Token::FixedArray(ts) => HostValue::Sequence(render_all(ts)),
        Token::Tuple(ts) => HostValue::Sequence(render_all(ts)),
    }
}

/// The host values that a sequence of decoded tokens is handed back as.
pub fn render_all(ts: &Vec<Token>) -> (r: Vec<HostValue>)
    requires
        all_words_fit(token_values(ts@)),
    ensures
        host_models(r@) == render_values(token_values(ts@)),
    decreases ts,
{
    let ghost vs = token_values(ts@);
    proof { lemma_token_values(ts@); }
    let mut out: Vec<HostValue> = Vec::new();
    let mut i: usize = 0;
    while i < ts.len()
        invariant
            i <= ts@.len(),
            vs == token_values(ts@),
            vs.len() == ts@.len(),
            forall|j: int| 0 <= j < ts@.len() ==> #[trigger] vs[j] == ts@[j]@,
            all_words_fit(vs),
            host_models(out@) == render_values(vs.take(i as int)),
        decreases ts@.len() - i,
    {
        proof {
            assert(decreases_to!(*ts => ts@[i as int]));
            assert(vs.take(i + 1).drop_last() =~= vs.take(i as int));
            lemma_all_words_fit(vs, i as int);
        }
        let h = render(&ts[i]);
        proof { assert(out@.push(h).drop_last() =~= out@); }
        out.push(h);
        i = i + 1;
    }
    assert(vs.take(vs.len() as int) =~= vs);
    out
}

proof fn lemma_all_words_fit(vs: Seq<Value>, i: int)
    requires
        all_words_fit(vs),
        0 <= i < vs.len(),
    ensures
        words_fit(vs[i]),
    decreases vs.len(),
{
    if i < vs.len() - 1 {
        lemma_all_words_fit(vs.drop_last(), i);
    }
}

} // verus!
