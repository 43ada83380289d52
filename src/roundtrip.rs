use vstd::prelude::*;
use vstd::utf8::{encode_utf8, encode_utf8_decode_utf8, encode_utf8_valid_utf8};
use crate::types::{
    all_match, type_dynamic, type_wf, types_dynamic, types_wf, value_matches, values_match, ParamType,
    Value,
};
use crate::encode::{
    encode_value, encode_values, head_len, heads_len, lemma_parts_heads, lemma_parts_step,
    inline_encoding, lemma_static_parts, padded, parts, value_dynamic, values_dynamic, word,
};
use crate::decode::{
    decode_item, decode_len_bytes, decode_repeat, decode_tuple, decode_value, fits_u64, low_u64,
    type_head_len, types_head_len, word_at, DecodeError,
};
use crate::hex_text::{hex_char, hex_decoded, hex_digit, hex_text, is_hex};
use crate::render::{hex_shown, render_value};
use crate::tokenize::{hex_body, tokenize_value, TokenizeError};

verus! {

proof fn lemma_u64_bytes(n: u64)
    ensures
        ((n >> 56u64) as u8 as u64) << 56u64 | ((n >> 48u64) as u8 as u64) << 48u64
            | ((n >> 40u64) as u8 as u64) << 40u64 | ((n >> 32u64) as u8 as u64) << 32u64
            | ((n >> 24u64) as u8 as u64) << 24u64 | ((n >> 16u64) as u8 as u64) << 16u64
            | ((n >> 8u64) as u8 as u64) << 8u64 | (n as u8 as u64) == n,
{
    assert(((n >> 56u64) as u8 as u64) << 56u64 | ((n >> 48u64) as u8 as u64) << 48u64
        | ((n >> 40u64) as u8 as u64) << 40u64 | ((n >> 32u64) as u8 as u64) << 32u64
        | ((n >> 24u64) as u8 as u64) << 24u64 | ((n >> 16u64) as u8 as u64) << 16u64
        | ((n >> 8u64) as u8 as u64) << 8u64 | (n as u8 as u64) == n) by (bit_vector);
}

/// A word written at the start of a buffer reads back as the same integer.
pub proof fn lemma_word_reads_back(n: u64, rest: Seq<u8>)
    ensures
        fits_u64(word(n) + rest, 0),
        low_u64(word_at(word(n) + rest, 0)) == n,
{
    let r = word(n) + rest;
    assert(word_at(r, 0) =~= word(n));
    lemma_u64_bytes(n);
}

/// An elementary value (not an array or tuple) whose encoding starts a
/// buffer decodes back to itself, whatever bytes follow.
#[verifier::spinoff_prover]
#[verifier::rlimit(40)]
pub proof fn lemma_elementary_round_trip(t: ParamType, v: Value, rest: Seq<u8>)
    requires
        type_wf(t),
        value_matches(v, t),
        !(t is Array || t is FixedArray || t is Tuple),
        encode_value(v).len() <= usize::MAX,
    ensures
        decode_value(t, encode_value(v) + rest) == Ok::<Value, DecodeError>(v),
{
    let r = encode_value(v) + rest;
    match t {
        ParamType::Address => {
            assert(r.subrange(12, 32) =~= v->Address_0);
        },
        ParamType::Bool => {
            assert(forall|i: int| 0 <= i < 31 ==> r[i] == 0);
        },
        ParamType::Uint(_) => {
            assert(r.subrange(0, 32) =~= v->Uint_0);
        },
        ParamType::Int(_) => {
            assert(r.subrange(0, 32) =~= v->Int_0);
        },
        ParamType::FixedBytes(n) => {
            let b = v->FixedBytes_0;
            assert(padded(b).len() == 32);
            assert(r.subrange(0, n as int) =~= b);
        },
        ParamType::Bytes => {
            let b = v->Bytes_0;
            lemma_len_bytes_round_trip(b, rest);
        },
        ParamType::String => {
            let s = v->Text_0;
            let b = encode_utf8(s);
            lemma_len_bytes_round_trip(b, rest);
            encode_utf8_valid_utf8(s);
            encode_utf8_decode_utf8(s);
        },
        _ => {},
    }
}

proof fn lemma_len_bytes_round_trip(b: Seq<u8>, rest: Seq<u8>)
    requires
        32 + b.len() <= usize::MAX,
    ensures
        decode_len_bytes(word(b.len() as u64) + padded(b) + rest) == Ok::<Seq<u8>, DecodeError>(b),
{
    let r = word(b.len() as u64) + padded(b) + rest;
    assert(r =~= word(b.len() as u64) + (padded(b) + rest));
    lemma_word_reads_back(b.len() as u64, padded(b) + rest);
    assert(r.subrange(32, 32 + b.len() as int) =~= b);
}

/// The bytes of characters below 128, one byte each.
pub open spec fn ascii_bytes(cs: Seq<char>) -> Seq<u8> {
    Seq::new(cs.len(), |i: int| cs[i] as u32 as u8)
}

proof fn lemma_ascii_utf8(cs: Seq<char>)
    requires
        forall|i: int| 0 <= i < cs.len() ==> (cs[i] as u32) < 128,
    ensures
        encode_utf8(cs) == ascii_bytes(cs),
    decreases cs.len(),
{
    if cs.len() > 0 {
        lemma_ascii_utf8(cs.drop_first());
        let v = cs[0] as u32;
        assert((v & 0x7F) as u8 == v as u8) by (bit_vector)
            requires v < 128;
        assert(encode_utf8(cs) =~= ascii_bytes(cs));
    }
}

proof fn lemma_hex_char(k: u8)
    requires
        k < 16,
    ensures
        (hex_char(k) as u32) < 128,
        hex_digit((hex_char(k) as u32) as u8) == Some(k),
{
}

proof fn lemma_nibbles(x: u8)
    ensures
        (x / 16) * 16 + x % 16 == x,
        x / 16 < 16,
        x % 16 < 16,
{
}

/// Bytes shown as `0x` hexadecimal text read back as the same bytes.
pub proof fn lemma_hex_shown_reads_back(b: Seq<u8>)
    ensures
        is_hex(hex_body(hex_shown(b))),
        hex_decoded(hex_body(hex_shown(b))) == b,
{
    let cs = hex_shown(b);
    let h = hex_text(b);
    assert forall|i: int| 0 <= i < h.len() implies (h[i] as u32) < 128
        && hex_digit((h[i] as u32) as u8) == Some(if i % 2 == 0 { b[i / 2] / 16 } else { b[i / 2] % 16 }) by {
        lemma_nibbles(b[i / 2]);
        if i % 2 == 0 {
            lemma_hex_char(b[i / 2] / 16);
        } else {
            lemma_hex_char(b[i / 2] % 16);
        }
    }
    assert forall|i: int| 0 <= i < cs.len() implies (cs[i] as u32) < 128 by {
        if i >= 2 {
            assert(cs[i] == h[i - 2]);
        }
    }
    lemma_ascii_utf8(cs);
    let bytes = ascii_bytes(cs);
    let body = bytes.subrange(2, bytes.len() as int);
    assert(hex_body(cs) == body);
    assert(body =~= ascii_bytes(h));
    assert forall|i: int| 0 <= i < body.len() implies (#[trigger] hex_digit(body[i])) is Some by {
        assert(body[i] == (h[i] as u32) as u8);
    }
    assert forall|i: int| 0 <= i < b.len() implies #[trigger] hex_decoded(body)[i] == b[i] by {
        assert(body[2 * i] == (h[2 * i] as u32) as u8);
        assert(body[2 * i + 1] == (h[2 * i + 1] as u32) as u8);
        assert((2 * i) / 2 == i && (2 * i + 1) / 2 == i && (2 * i) % 2 == 0 && (2 * i + 1) % 2 == 1);
        lemma_nibbles(b[i]);
    }
    assert(hex_decoded(body) =~= b);
}

/// A boolean, text or byte-like value handed back to a host and tokenized
/// again under its type is the same value, so it encodes to the same bytes.
pub proof fn lemma_rendered_retokenizes(t: ParamType, v: Value)
    requires
        value_matches(v, t),
        t is Address || t is Bool || t is String || t is Bytes || t is FixedBytes,
    ensures
        tokenize_value(t, render_value(v)) == Ok::<Value, TokenizeError>(v),
        encode_value(tokenize_value(t, render_value(v))->Ok_0) == encode_value(v),
{
    match v {
        Value::Address(b) | Value::Bytes(b) | Value::FixedBytes(b) => lemma_hex_shown_reads_back(b),
        _ => {},
    }
}

/// Every array in the value holds at most as many values as memory can
/// index, as an array held in a `Vec` does.
pub open spec fn counts_fit(v: Value) -> bool
    decreases v, 0nat,
{
    match v {
        Value::Array(vs) => vs.len() <= usize::MAX && all_counts_fit(vs),
        Value::FixedArray(vs) | Value::Tuple(vs) => all_counts_fit(vs),
        _ => true,
    }
}

pub open spec fn all_counts_fit(vs: Seq<Value>) -> bool
    decreases vs, 0nat,
{
    if vs.len() == 0 {
        true
    } else {
        all_counts_fit(vs.drop_last()) && counts_fit(vs.last())
    }
}

proof fn lemma_counts_item(vs: Seq<Value>, i: int)
    requires
        all_counts_fit(vs),
        0 <= i < vs.len(),
    ensures
        counts_fit(vs[i]),
    decreases vs.len(),
{
    if i < vs.len() - 1 {
        lemma_counts_item(vs.drop_last(), i);
    }
}

proof fn lemma_all_prefix(ts: Seq<ParamType>, vs: Seq<Value>, i: int)
    requires
        values_match(vs, ts),
        types_wf(ts),
        0 <= i < ts.len(),
    ensures
        values_match(vs.take(i), ts.take(i)),
        types_wf(ts.take(i)),
        value_matches(vs[i], ts[i]),
        type_wf(ts[i]),
    decreases ts.len(),
{
    if i == ts.len() - 1 {
        assert(ts.take(i) =~= ts.drop_last());
        assert(vs.take(i) =~= vs.drop_last());
    } else {
        lemma_all_prefix(ts.drop_last(), vs.drop_last(), i);
        assert(ts.drop_last().take(i) =~= ts.take(i));
        assert(vs.drop_last().take(i) =~= vs.take(i));
    }
}

proof fn lemma_each_prefix(e: ParamType, vs: Seq<Value>, i: int)
    requires
        all_match(vs, e),
        0 <= i < vs.len(),
    ensures
        all_match(vs.take(i), e),
        value_matches(vs[i], e),
    decreases vs.len(),
{
    if i == vs.len() - 1 {
        assert(vs.take(i) =~= vs.drop_last());
    } else {
        lemma_each_prefix(e, vs.drop_last(), i);
        assert(vs.drop_last().take(i) =~= vs.take(i));
    }
}

/// Matching values are dynamic exactly when their type is, and take the
/// head space that their type declares.
proof fn lemma_shape(t: ParamType, v: Value)
    requires
        type_wf(t),
        value_matches(v, t),
    ensures
        value_dynamic(v) == type_dynamic(t),
        head_len(v) == type_head_len(t),
    decreases t, 0nat, 0nat,
{
    match t {
        ParamType::FixedBytes(n) => {
            assert(padded(v->FixedBytes_0).len() == 32);
        },
        ParamType::FixedArray(e, n) => {
            let vs = v->FixedArray_0;
            lemma_shape_each(*e, vs);
            if !type_dynamic(t) {
                lemma_static_parts(vs, heads_len(vs));
                lemma_parts_heads(vs, heads_len(vs));
            }
        },
        ParamType::Tuple(cs) => {
            let vs = v->Tuple_0;
            lemma_shape_all(cs@, vs);
            if !type_dynamic(t) {
                lemma_static_parts(vs, heads_len(vs));
                lemma_parts_heads(vs, heads_len(vs));
            }
        },
        _ => {},
    }
}

proof fn lemma_shape_each(e: ParamType, vs: Seq<Value>)
    requires
        type_wf(e),
        all_match(vs, e),
    ensures
        values_dynamic(vs) == (vs.len() > 0 && type_dynamic(e)),
        heads_len(vs) == vs.len() * type_head_len(e),
    decreases e, 1nat, vs.len(),
{
    if vs.len() > 0 {
        lemma_shape_each(e, vs.drop_last());
        lemma_shape(e, vs.last());
        assert(heads_len(vs) == (vs.len() - 1) * type_head_len(e) + type_head_len(e));
        assert((vs.len() - 1) * type_head_len(e) + type_head_len(e) == vs.len() * type_head_len(e))
            by (nonlinear_arith);
    }
}

proof fn lemma_shape_all(ts: Seq<ParamType>, vs: Seq<Value>)
    requires
        types_wf(ts),
        values_match(vs, ts),
    ensures
        values_dynamic(vs) == types_dynamic(ts),
        heads_len(vs) == types_head_len(ts),
    decreases ts, 0nat, 0nat,
{
    if ts.len() > 0 {
        lemma_shape_all(ts.drop_last(), vs.drop_last());
        lemma_shape(ts.last(), vs.last());
    }
}

/// The regions of a prefix of values begin the regions of the whole.
proof fn lemma_parts_begin(vs: Seq<Value>, hl: nat, i: int)
    requires
        0 <= i <= vs.len(),
    ensures
        parts(vs.take(i), hl).0.len() <= parts(vs, hl).0.len(),
        parts(vs.take(i), hl).1.len() <= parts(vs, hl).1.len(),
        parts(vs, hl).0.take(parts(vs.take(i), hl).0.len() as int) == parts(vs.take(i), hl).0,
        parts(vs, hl).1.take(parts(vs.take(i), hl).1.len() as int) == parts(vs.take(i), hl).1,
    decreases vs.len() - i,
{
    if i == vs.len() {
        assert(vs.take(i) =~= vs);
        assert(parts(vs, hl).0.take(parts(vs, hl).0.len() as int) =~= parts(vs, hl).0);
        assert(parts(vs, hl).1.take(parts(vs, hl).1.len() as int) =~= parts(vs, hl).1);
    } else {
        lemma_parts_begin(vs, hl, i + 1);
        assert(vs.take(i + 1).drop_last() =~= vs.take(i));
        let a = parts(vs.take(i), hl);
        let b = parts(vs.take(i + 1), hl);
        let p = parts(vs, hl);
        assert(b.0.take(a.0.len() as int) =~= a.0);
        assert(b.1.take(a.1.len() as int) =~= a.1);
        assert(p.0.take(a.0.len() as int) =~= b.0.take(a.0.len() as int));
        assert(p.1.take(a.1.len() as int) =~= b.1.take(a.1.len() as int));
    }
}

proof fn lemma_slice_after(big: Seq<u8>, pre: Seq<u8>, x: Seq<u8>, tail: Seq<u8>)
    requires
        pre.len() + x.len() <= big.len(),
        big.take((pre.len() + x.len()) as int) == pre + x,
    ensures
        (big + tail).subrange(pre.len() as int, (big + tail).len() as int)
            == x + (big + tail).subrange((pre.len() + x.len()) as int, (big + tail).len() as int),
{
    let r = big + tail;
    let n = (pre.len() + x.len()) as int;
    assert forall|j: int| 0 <= j < x.len() implies r[pre.len() + j] == x[j] by {
        let k = pre.len() + j;
        assert(k < n);
        assert(r[k] == big[k]);
        assert(big.take(n)[k] == big[k]);
        assert((pre + x)[k] == x[j]);
    }
    assert(r.subrange(pre.len() as int, r.len() as int)
        =~= x + r.subrange((pre.len() + x.len()) as int, r.len() as int));
}

proof fn lemma_word_at_shift(r: Seq<u8>, h: int)
    requires
        0 <= h,
        h + 32 <= r.len(),
    ensures
        fits_u64(r, h) == fits_u64(r.subrange(h, r.len() as int), 0),
        word_at(r, h) == word_at(r.subrange(h, r.len() as int), 0),
{
    let s = r.subrange(h, r.len() as int);
    assert(word_at(r, h) =~= word_at(s, 0));
    assert(forall|i: int| h <= i < h + 24 ==> r[i] == s[i - h]);
}

proof fn lemma_skip_front(x: Seq<u8>, y: Seq<u8>, k: int)
    requires
        0 <= k <= y.len(),
    ensures
        (x + y).subrange(x.len() + k, (x + y).len() as int) == y.subrange(k, y.len() as int),
{
    assert((x + y).subrange(x.len() + k, (x + y).len() as int) =~= y.subrange(k, y.len() as int));
}

/// The value at position `i` of a sequence decodes from its head slot, at
/// the head space of the values before it, in the sequence's encoding.
#[verifier::spinoff_prover]
#[verifier::rlimit(60)]
proof fn lemma_item_round_trip(t: ParamType, vs: Seq<Value>, i: int, rest: Seq<u8>)
    requires
        0 <= i < vs.len(),
        type_wf(t),
        counts_fit(vs[i]),
        value_matches(vs[i], t),
        encode_values(vs).len() + rest.len() <= usize::MAX,
    ensures
        decode_item(t, encode_values(vs) + rest, heads_len(vs.take(i)))
            == Ok::<Value, DecodeError>(vs[i]),
    decreases t, 1nat, 0nat,
{
    let hl = heads_len(vs);
    let p = parts(vs, hl);
    let a = parts(vs.take(i), hl);
    let b = parts(vs.take(i + 1), hl);
    let v = vs[i];
    let r = encode_values(vs) + rest;
    lemma_parts_heads(vs, hl);
    lemma_parts_heads(vs.take(i), hl);
    lemma_parts_begin(vs, hl, i + 1);
    lemma_parts_step(vs, hl, i);
    lemma_shape(t, v);
    let h = a.0.len();
    assert(r =~= p.0 + (p.1 + rest));
    if value_dynamic(v) {
        let o = hl + a.1.len();
        lemma_slice_after(p.0, a.0, word(o as u64), p.1 + rest);
        let rest2 = r.subrange((h + 32) as int, r.len() as int);
        lemma_word_reads_back(o as u64, rest2);
        lemma_word_at_shift(r, h as int);
        lemma_slice_after(p.1, a.1, encode_value(v), rest);
        lemma_skip_front(p.0, p.1 + rest, a.1.len() as int);
        let q = p.1 + rest;
        lemma_value_round_trip(t, v, q.subrange((a.1.len() + encode_value(v).len()) as int, q.len() as int));
    } else {
        lemma_slice_after(p.0, a.0, encode_value(v), p.1 + rest);
        lemma_value_round_trip(t, v, r.subrange((h + encode_value(v).len()) as int, r.len() as int));
    }
}

/// Values of the types `ts`, encoded head/tail, decode back to themselves,
/// whatever bytes follow.
proof fn lemma_tuple_round_trip(ts: Seq<ParamType>, vs: Seq<Value>, rest: Seq<u8>, k: int)
    requires
        types_wf(ts),
        all_counts_fit(vs),
        values_match(vs, ts),
        0 <= k <= ts.len(),
        encode_values(vs).len() + rest.len() <= usize::MAX,
    ensures
        decode_tuple(ts.take(k), encode_values(vs) + rest) == Ok::<Seq<Value>, DecodeError>(vs.take(k)),
    decreases ts, 0nat, k,
{
    let r = encode_values(vs) + rest;
    if k == 0 {
        assert(ts.take(0) =~= Seq::<ParamType>::empty());
        assert(vs.take(0) =~= Seq::<Value>::empty());
    } else {
        let i = k - 1;
        lemma_tuple_round_trip(ts, vs, rest, i);
        lemma_all_prefix(ts, vs, i);
        assert(ts.take(k).drop_last() =~= ts.take(i));
        assert(ts.take(k).last() == ts[i]);
        assert(vs.take(i).push(vs[i]) =~= vs.take(k));
        lemma_shape_all(ts.take(i), vs.take(i));
        assert(decreases_to!(ts => ts[i]));
        lemma_counts_item(vs, i);
        lemma_item_round_trip(ts[i], vs, i, rest);
    }
}

/// `n` values of the type `e`, encoded head/tail, decode back to themselves.
proof fn lemma_repeat_round_trip(e: ParamType, vs: Seq<Value>, rest: Seq<u8>, k: nat)
    requires
        type_wf(e),
        all_counts_fit(vs),
        all_match(vs, e),
        k <= vs.len(),
        encode_values(vs).len() + rest.len() <= usize::MAX,
    ensures
        decode_repeat(e, k, encode_values(vs) + rest) == Ok::<Seq<Value>, DecodeError>(vs.take(k as int)),
    decreases e, 1nat, k,
{
    if k == 0 {
        assert(vs.take(0) =~= Seq::<Value>::empty());
    } else {
        let i = (k - 1) as int;
        lemma_repeat_round_trip(e, vs, rest, (k - 1) as nat);
        lemma_each_prefix(e, vs, i);
        lemma_shape_each(e, vs.take(i));
        assert(vs.take(i).push(vs[i]) =~= vs.take(k as int));
        lemma_counts_item(vs, i);
        lemma_item_round_trip(e, vs, i, rest);
    }
}

/// A value of a well-formed type whose encoding starts a buffer decodes
/// back to itself, whatever bytes follow.
#[verifier::spinoff_prover]
#[verifier::rlimit(60)]
pub proof fn lemma_value_round_trip(t: ParamType, v: Value, rest: Seq<u8>)
    requires
        type_wf(t),
        counts_fit(v),
        value_matches(v, t),
        encode_value(v).len() + rest.len() <= usize::MAX,
    ensures
        decode_value(t, encode_value(v) + rest) == Ok::<Value, DecodeError>(v),
    decreases t, 0nat, 0nat,
{
    match t {
        ParamType::Tuple(cs) => {
            let vs = v->Tuple_0;
            lemma_tuple_round_trip(cs@, vs, rest, cs@.len() as int);
            assert(cs@.take(cs@.len() as int) =~= cs@);
            assert(vs.take(vs.len() as int) =~= vs);
        },
        ParamType::FixedArray(e, n) => {
            let vs = v->FixedArray_0;
            lemma_repeat_round_trip(*e, vs, rest, n as nat);
            assert(vs.take(vs.len() as int) =~= vs);
        },
        ParamType::Array(e) => {
            let vs = v->Array_0;
            let body = encode_values(vs) + rest;
            let r = encode_value(v) + rest;
            assert(r =~= word(vs.len() as u64) + body);
            lemma_word_reads_back(vs.len() as u64, body);
            assert(r.subrange(32, r.len() as int) =~= body);
            lemma_repeat_round_trip(*e, vs, rest, vs.len());
            assert(vs.take(vs.len() as int) =~= vs);
        },
        _ => lemma_elementary_round_trip(t, v, rest),
    }
}

/// The value of a tuple or fixed-array type that is static at every depth
/// encodes inline, its elements' encodings side by side; that of one with a
/// dynamic member anywhere is reached, as an argument, through an offset.
pub proof fn lemma_composite_type_layout(t: ParamType, v: Value)
    requires
        type_wf(t),
        value_matches(v, t),
        t is Tuple || t is FixedArray,
    ensures
        !type_dynamic(t) ==> encode_value(v) == inline_encoding(
            if v is Tuple { v->Tuple_0 } else { v->FixedArray_0 },
        ),
        type_dynamic(t) ==> encode_values(seq![v]) == word(32) + encode_value(v),
{
    lemma_shape(t, v);
    let vs = if v is Tuple { v->Tuple_0 } else { v->FixedArray_0 };
    if !type_dynamic(t) {
        lemma_static_parts(vs, heads_len(vs));
        assert(encode_value(v) =~= inline_encoding(vs));
    } else {
        assert(seq![v].drop_last() =~= Seq::<Value>::empty());
        assert(seq![v].last() == v);
        assert(heads_len(Seq::<Value>::empty()) == 0);
        assert(heads_len(seq![v]) == 32);
        assert(encode_values(seq![v]) =~= word(32) + encode_value(v));
    }
}

/// Values of well-formed types, encoded as an argument list, decode back to
/// the same values.
pub proof fn lemma_round_trip(ts: Seq<ParamType>, vs: Seq<Value>)
    requires
        types_wf(ts),
        all_counts_fit(vs),
        values_match(vs, ts),
        encode_values(vs).len() <= usize::MAX,
    ensures
        decode_tuple(ts, encode_values(vs)) == Ok::<Seq<Value>, DecodeError>(vs),
{
    lemma_tuple_round_trip(ts, vs, Seq::empty(), ts.len() as int);
    assert(encode_values(vs) + Seq::<u8>::empty() =~= encode_values(vs));
    assert(ts.take(ts.len() as int) =~= ts);
    assert(vs.take(vs.len() as int) =~= vs);
}

/// The errors of a buffer cut short: a read past its end, or an offset
/// that points past it.
pub open spec fn cut_short(e: DecodeError) -> bool {
    e == DecodeError::TruncatedInput || e == DecodeError::OffsetOutOfRange
}

/// Item `i` of `vs` lies wholly within the first `m` bytes of their encoding:
/// its head slot and, for a dynamic value, its tail.
pub open spec fn item_present(vs: Seq<Value>, i: int, m: nat) -> bool {
    let hl = heads_len(vs);
    let a = parts(vs.take(i), hl);
    if value_dynamic(vs[i]) {
        a.0.len() + 32 <= m && hl + a.1.len() + encode_value(vs[i]).len() <= m
    } else {
        a.0.len() + encode_value(vs[i]).len() <= m
    }
}

pub open spec fn items_present(vs: Seq<Value>, k: int, m: nat) -> bool {
    forall|i: int| 0 <= i < k ==> item_present(vs, i, m)
}

/// Item `i` decodes from a prefix of the encoding when it lies within it,
/// and fails as truncated when it does not.
#[verifier::spinoff_prover]
#[verifier::rlimit(80)]
proof fn lemma_item_truncated(t: ParamType, vs: Seq<Value>, i: int, m: nat)
    requires
        0 <= i < vs.len(),
        type_wf(t),
        counts_fit(vs[i]),
        value_matches(vs[i], t),
        encode_values(vs).len() <= usize::MAX,
        m <= encode_values(vs).len(),
    ensures
        item_present(vs, i, m) ==> decode_item(t, encode_values(vs).take(m as int), heads_len(vs.take(i)))
            == Ok::<Value, DecodeError>(vs[i]),
        !item_present(vs, i, m) ==> decode_item(t, encode_values(vs).take(m as int), heads_len(vs.take(i))) is Err
            && cut_short(decode_item(t, encode_values(vs).take(m as int), heads_len(vs.take(i)))->Err_0),
    decreases t, 1nat, 1nat,
{
    let hl = heads_len(vs);
    let p = parts(vs, hl);
    let a = parts(vs.take(i), hl);
    let v = vs[i];
    let e = encode_values(vs);
    let r = e.take(m as int);
    lemma_parts_heads(vs, hl);
    lemma_parts_heads(vs.take(i), hl);
    lemma_parts_begin(vs, hl, i + 1);
    lemma_parts_step(vs, hl, i);
    lemma_shape(t, v);
    let h = a.0.len();
    let ev = encode_value(v);
    assert(e =~= p.0 + p.1);
    if value_dynamic(v) {
        lemma_dynamic_item_truncated(t, vs, i, m);
    } else {
        if h + ev.len() <= m {
            lemma_slice_after(p.0, a.0, ev, p.1);
            let full = e.subrange(h as int, e.len() as int);
            assert(full == ev + e.subrange((h + ev.len()) as int, e.len() as int));
            assert forall|j: int| 0 <= j < ev.len() implies r[h + j] == ev[j] by {
                assert(r[h + j] == e[h + j]);
                assert(full[j] == e[h + j]);
            }
            let rest2 = r.subrange((h + ev.len()) as int, r.len() as int);
            assert(r.subrange(h as int, r.len() as int) =~= ev + rest2);
            lemma_value_round_trip(t, v, rest2);
        }
    }
}

/// A value whose encoding is laid out from `o` on, as far as `r` reaches,
/// decodes there when all of it is present, and fails with the error of a
/// buffer cut short when not.
proof fn lemma_value_at(t: ParamType, v: Value, r: Seq<u8>, o: nat)
    requires
        type_wf(t),
        counts_fit(v),
        value_matches(v, t),
        r.len() <= usize::MAX,
        encode_value(v).len() <= usize::MAX,
        o <= r.len(),
        forall|j: int| 0 <= j < encode_value(v).len() && o + j < r.len() ==> r[o + j] == encode_value(v)[j],
    ensures
        o + encode_value(v).len() <= r.len() ==> decode_value(t, r.subrange(o as int, r.len() as int))
            == Ok::<Value, DecodeError>(v),
        o + encode_value(v).len() > r.len() ==> decode_value(t, r.subrange(o as int, r.len() as int)) is Err
            && cut_short(decode_value(t, r.subrange(o as int, r.len() as int))->Err_0),
    decreases t, 0nat, 1nat,
{
    let ev = encode_value(v);
    if o + ev.len() <= r.len() {
        let rest = r.subrange((o + ev.len()) as int, r.len() as int);
        assert(r.subrange(o as int, r.len() as int) =~= ev + rest);
        lemma_value_round_trip(t, v, rest);
    } else {
        assert(r.subrange(o as int, r.len() as int) =~= ev.take(r.len() - o));
        lemma_value_truncated(t, v, (r.len() - o) as nat);
    }
}

/// A dynamic item decodes from a prefix of the encoding when it lies
/// within it, and fails with the error of a buffer cut short when not.
#[verifier::spinoff_prover]
#[verifier::rlimit(80)]
proof fn lemma_dynamic_item_truncated(t: ParamType, vs: Seq<Value>, i: int, m: nat)
    requires
        0 <= i < vs.len(),
        type_wf(t),
        counts_fit(vs[i]),
        value_matches(vs[i], t),
        value_dynamic(vs[i]),
        encode_values(vs).len() <= usize::MAX,
        m <= encode_values(vs).len(),
    ensures
        item_present(vs, i, m) ==> decode_item(t, encode_values(vs).take(m as int), heads_len(vs.take(i)))
            == Ok::<Value, DecodeError>(vs[i]),
        !item_present(vs, i, m) ==> decode_item(t, encode_values(vs).take(m as int), heads_len(vs.take(i))) is Err
            && cut_short(decode_item(t, encode_values(vs).take(m as int), heads_len(vs.take(i)))->Err_0),
    decreases t, 1nat, 0nat,
{
    let hl = heads_len(vs);
    let p = parts(vs, hl);
    let a = parts(vs.take(i), hl);
    let b = parts(vs.take(i + 1), hl);
    let v = vs[i];
    let e = encode_values(vs);
    let r = e.take(m as int);
    lemma_parts_heads(vs, hl);
    lemma_parts_heads(vs.take(i), hl);
    lemma_parts_begin(vs, hl, i + 1);
    lemma_parts_step(vs, hl, i);
    lemma_shape(t, v);
    let h = a.0.len();
    let ev = encode_value(v);
    let o = hl + a.1.len();
    assert(e =~= p.0 + p.1);
    if h + 32 <= m {
        assert(b.0 == a.0 + word(o as u64));
        assert forall|j: int| 0 <= j < 32 implies r[h + j] == #[trigger] word(o as u64)[j] by {
            assert(p.0.take(b.0.len() as int)[h + j] == b.0[h + j]);
        }
        let w = r.subrange(h as int, r.len() as int);
        let rest2 = w.subrange(32, w.len() as int);
        assert(w =~= word(o as u64) + rest2);
        lemma_word_reads_back(o as u64, rest2);
        lemma_word_at_shift(r, h as int);
        if o <= m {
            assert(b.1 == a.1 + ev);
            assert forall|j: int| 0 <= j < ev.len() && o + j < r.len() implies r[o + j] == ev[j] by {
                assert(r[o + j] == p.1[a.1.len() + j]);
                assert(p.1.take(b.1.len() as int)[a.1.len() + j] == b.1[a.1.len() + j]);
            }
            lemma_value_at(t, v, r, o);
        }
    }
}

/// The encoding of a value cut short anywhere fails to decode, with the
/// error of a buffer cut short.
#[verifier::spinoff_prover]
#[verifier::rlimit(60)]
pub proof fn lemma_value_truncated(t: ParamType, v: Value, m: nat)
    requires
        type_wf(t),
        counts_fit(v),
        value_matches(v, t),
        encode_value(v).len() <= usize::MAX,
        m < encode_value(v).len(),
    ensures
        decode_value(t, encode_value(v).take(m as int)) is Err,
        cut_short(decode_value(t, encode_value(v).take(m as int))->Err_0),
    decreases t, 0nat, 0nat,
{
    let r = encode_value(v).take(m as int);
    match t {
        ParamType::Tuple(cs) => {
            lemma_tuple_truncated(cs@, v->Tuple_0, m);
        },
        ParamType::FixedArray(e, n) => {
            lemma_repeat_truncated(*e, v->FixedArray_0, m);
        },
        ParamType::Array(e) => {
            let vs = v->Array_0;
            let body = encode_values(vs);
            assert(encode_value(v) =~= word(vs.len() as u64) + body);
            if m >= 32 {
                lemma_word_reads_back(vs.len() as u64, body);
                assert(word_at(r, 0) =~= word_at(encode_value(v), 0));
                assert(forall|j: int| 0 <= j < 24 ==> r[j] == encode_value(v)[j]);
                assert(r.subrange(32, r.len() as int) =~= body.take(m - 32));
                lemma_repeat_truncated(*e, vs, (m - 32) as nat);
            }
        },
        ParamType::FixedBytes(_) => {
            assert(padded(v->FixedBytes_0).len() == 32);
        },
        ParamType::Bytes => {
            let b = v->Bytes_0;
            if m >= 32 {
                lemma_word_reads_back(b.len() as u64, padded(b));
                assert(word_at(r, 0) =~= word_at(encode_value(v), 0));
                assert(forall|j: int| 0 <= j < 24 ==> r[j] == encode_value(v)[j]);
            }
        },
        ParamType::String => {
            let b = encode_utf8(v->Text_0);
            if m >= 32 {
                lemma_word_reads_back(b.len() as u64, padded(b));
                assert(word_at(r, 0) =~= word_at(encode_value(v), 0));
                assert(forall|j: int| 0 <= j < 24 ==> r[j] == encode_value(v)[j]);
            }
        },
        _ => {},
    }
}

/// A non-empty tail region ends with the tail of some dynamic value.
proof fn lemma_last_tail(vs: Seq<Value>, hl: nat)
    requires
        parts(vs, hl).1.len() > 0,
    ensures
        exists|j: int| 0 <= j < vs.len() && value_dynamic(vs[j])
            && #[trigger] parts(vs.take(j), hl).1.len() + encode_value(vs[j]).len() == parts(vs, hl).1.len(),
    decreases vs.len(),
{
    let j = vs.len() - 1;
    assert(vs.take(j) =~= vs.drop_last());
    if value_dynamic(vs.last()) {
        assert(parts(vs.take(j), hl).1.len() + encode_value(vs[j]).len() == parts(vs, hl).1.len());
    } else {
        lemma_last_tail(vs.drop_last(), hl);
        let k = choose|k: int| 0 <= k < vs.drop_last().len() && value_dynamic(vs.drop_last()[k])
            && #[trigger] parts(vs.drop_last().take(k), hl).1.len() + encode_value(vs.drop_last()[k]).len()
                == parts(vs.drop_last(), hl).1.len();
        assert(vs.drop_last().take(k) =~= vs.take(k));
        assert(parts(vs.take(k), hl).1.len() + encode_value(vs[k]).len() == parts(vs, hl).1.len());
    }
}

/// Some value is cut off when the encoding of a non-empty sequence is cut short.
proof fn lemma_some_missing(vs: Seq<Value>, m: nat)
    requires
        m < encode_values(vs).len(),
    ensures
        exists|i: int| 0 <= i < vs.len() && !#[trigger] item_present(vs, i, m),
{
    let hl = heads_len(vs);
    let p = parts(vs, hl);
    lemma_parts_heads(vs, hl);
    if m < hl {
        let j = vs.len() - 1;
        assert(vs.len() > 0);
        lemma_parts_item_end(vs, hl);
        assert(!item_present(vs, j, m));
    } else {
        lemma_last_tail(vs, hl);
        let j = choose|j: int| 0 <= j < vs.len() && value_dynamic(vs[j])
            && #[trigger] parts(vs.take(j), hl).1.len() + encode_value(vs[j]).len() == parts(vs, hl).1.len();
        assert(!item_present(vs, j, m));
    }
}

proof fn lemma_parts_item_end(vs: Seq<Value>, hl: nat)
    requires
        vs.len() > 0,
    ensures
        parts(vs.take(vs.len() - 1), hl).0.len() + head_len(vs.last()) == parts(vs, hl).0.len(),
{
    assert(vs.take(vs.len() - 1) =~= vs.drop_last());
    assert(word((hl + parts(vs.drop_last(), hl).1.len()) as u64).len() == 32);
}

/// Values of the types `ts`, encoded head/tail and cut short anywhere, fail
/// to decode, with the error of a buffer cut short.
proof fn lemma_tuple_truncated(ts: Seq<ParamType>, vs: Seq<Value>, m: nat)
    requires
        types_wf(ts),
        all_counts_fit(vs),
        values_match(vs, ts),
        encode_values(vs).len() <= usize::MAX,
        m < encode_values(vs).len(),
    ensures
        decode_tuple(ts, encode_values(vs).take(m as int)) is Err,
        cut_short(decode_tuple(ts, encode_values(vs).take(m as int))->Err_0),
    decreases ts, 0nat, ts.len() + 1,
{
    lemma_tuple_prefix_truncated(ts, vs, m, ts.len() as int);
    lemma_some_missing(vs, m);
    assert(ts.take(ts.len() as int) =~= ts);
}

proof fn lemma_tuple_prefix_truncated(ts: Seq<ParamType>, vs: Seq<Value>, m: nat, k: int)
    requires
        types_wf(ts),
        all_counts_fit(vs),
        values_match(vs, ts),
        encode_values(vs).len() <= usize::MAX,
        m <= encode_values(vs).len(),
        0 <= k <= ts.len(),
    ensures
        items_present(vs, k, m) ==> decode_tuple(ts.take(k), encode_values(vs).take(m as int))
            == Ok::<Seq<Value>, DecodeError>(vs.take(k)),
        !items_present(vs, k, m) ==> decode_tuple(ts.take(k), encode_values(vs).take(m as int)) is Err
            && cut_short(decode_tuple(ts.take(k), encode_values(vs).take(m as int))->Err_0),
    decreases ts, 0nat, k,
{
    if k == 0 {
        assert(ts.take(0) =~= Seq::<ParamType>::empty());
        assert(vs.take(0) =~= Seq::<Value>::empty());
    } else {
        let i = k - 1;
        lemma_tuple_prefix_truncated(ts, vs, m, i);
        lemma_all_prefix(ts, vs, i);
        assert(ts.take(k).drop_last() =~= ts.take(i));
        assert(ts.take(k).last() == ts[i]);
        assert(vs.take(i).push(vs[i]) =~= vs.take(k));
        lemma_shape_all(ts.take(i), vs.take(i));
        assert(decreases_to!(ts => ts[i]));
        lemma_counts_item(vs, i);
        lemma_item_truncated(ts[i], vs, i, m);
    }
}

proof fn lemma_repeat_truncated(e: ParamType, vs: Seq<Value>, m: nat)
    requires
        type_wf(e),
        all_counts_fit(vs),
        all_match(vs, e),
        encode_values(vs).len() <= usize::MAX,
        m < encode_values(vs).len(),
    ensures
        decode_repeat(e, vs.len(), encode_values(vs).take(m as int)) is Err,
        cut_short(decode_repeat(e, vs.len(), encode_values(vs).take(m as int))->Err_0),
    decreases e, 2nat, vs.len() + 1,
{
    lemma_repeat_prefix_truncated(e, vs, m, vs.len());
    lemma_some_missing(vs, m);
}

proof fn lemma_repeat_prefix_truncated(e: ParamType, vs: Seq<Value>, m: nat, k: nat)
    requires
        type_wf(e),
        all_counts_fit(vs),
        all_match(vs, e),
        encode_values(vs).len() <= usize::MAX,
        m <= encode_values(vs).len(),
        k <= vs.len(),
    ensures
        items_present(vs, k as int, m) ==> decode_repeat(e, k, encode_values(vs).take(m as int))
            == Ok::<Seq<Value>, DecodeError>(vs.take(k as int)),
        !items_present(vs, k as int, m) ==> decode_repeat(e, k, encode_values(vs).take(m as int)) is Err
            && cut_short(decode_repeat(e, k, encode_values(vs).take(m as int))->Err_0),
    decreases e, 2nat, k,
{
    if k == 0 {
        assert(vs.take(0) =~= Seq::<Value>::empty());
    } else {
        let i = (k - 1) as int;
        lemma_repeat_prefix_truncated(e, vs, m, (k - 1) as nat);
        lemma_each_prefix(e, vs, i);
        lemma_shape_each(e, vs.take(i));
        assert(vs.take(i).push(vs[i]) =~= vs.take(k as int));
        lemma_counts_item(vs, i);
        lemma_item_truncated(e, vs, i, m);
    }
}

/// Values of well-formed types, encoded as an argument list and cut short
/// by any number of bytes, fail to decode: a read runs past the end of the
/// buffer, or, where the cut falls in the head region, an offset points
/// past it.
pub proof fn lemma_truncated_fails(ts: Seq<ParamType>, vs: Seq<Value>, m: nat)
    requires
        types_wf(ts),
        all_counts_fit(vs),
        values_match(vs, ts),
        encode_values(vs).len() <= usize::MAX,
        m < encode_values(vs).len(),
    ensures
        decode_tuple(ts, encode_values(vs).take(m as int)) is Err,
        cut_short(decode_tuple(ts, encode_values(vs).take(m as int))->Err_0),
{
    lemma_tuple_truncated(ts, vs, m);
}

} // verus!
