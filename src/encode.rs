use vstd::prelude::*;
use crate::types::{token_values, Token, Value};

verus! {

pub open spec fn zeros(n: nat) -> Seq<u8> {
    Seq::new(n, |i: int| 0u8)
}

/// A 32-byte big-endian word holding `n`.
pub open spec fn word(n: u64) -> Seq<u8> {
    zeros(24) + seq![
        (n >> 56u64) as u8, (n >> 48u64) as u8, (n >> 40u64) as u8, (n >> 32u64) as u8,
        (n >> 24u64) as u8, (n >> 16u64) as u8, (n >> 8u64) as u8, n as u8,
    ]
}

/// Zero bytes that bring a length of `n` up to the next multiple of 32.
pub open spec fn pad_len(n: nat) -> nat {
    if n % 32 == 0 { 0 } else { (32 - n % 32) as nat }
}

pub open spec fn padded(b: Seq<u8>) -> Seq<u8> {
    b + zeros(pad_len(b.len()))
}

/// A value is dynamic when its encoding is reached through an offset.
pub open spec fn value_dynamic(v: Value) -> bool
    decreases v, 0nat,
{
    match v {
        Value::Text(_) | Value::Bytes(_) | Value::Array(_) => true,
        Value::FixedArray(vs) | Value::Tuple(vs) => values_dynamic(vs),
        _ => false,
    }
}

pub open spec fn values_dynamic(vs: Seq<Value>) -> bool
    decreases vs, 0nat,
{
    if vs.len() == 0 {
        false
    } else {
        values_dynamic(vs.drop_last()) || value_dynamic(vs.last())
    }
}

/// The encoding of one value: inline for a static value, its tail for a dynamic one.
pub open spec fn encode_value(v: Value) -> Seq<u8>
    decreases v, 3nat,
{
    match v {
        Value::Address(a) => zeros(12) + a,
        Value::Bool(b) => zeros(31).push(if b { 1u8 } else { 0u8 }),
        Value::Uint(w) | Value::Int(w) => w,
        Value::FixedBytes(b) => padded(b),
        Value::Bytes(b) => word(b.len() as u64) + padded(b),
        Value::Text(s) => word(vstd::utf8::encode_utf8(s).len() as u64) + padded(vstd::utf8::encode_utf8(s)),
        Value::Array(vs) => word(vs.len() as u64) + encode_values(vs),
        Value::FixedArray(vs) | Value::Tuple(vs) => encode_values(vs),
    }
}

/// Bytes that a value takes in the head region.
pub open spec fn head_len(v: Value) -> nat
    decreases v, 4nat,
{
    if value_dynamic(v) { 32 } else { encode_value(v).len() }
}

pub open spec fn heads_len(vs: Seq<Value>) -> nat
    decreases vs, 1nat,
{
    if vs.len() == 0 {
        0
    } else {
        heads_len(vs.drop_last()) + head_len(vs.last())
    }
}

/// The head region and the tail region of a sequence of values, where the
/// head region is `hl` bytes long: a dynamic value puts in its head slot the
/// offset of its tail from the start of the encoding.
pub open spec fn parts(vs: Seq<Value>, hl: nat) -> (Seq<u8>, Seq<u8>)
    decreases vs, 1nat,
{
    if vs.len() == 0 {
        (Seq::empty(), Seq::empty())
    } else {
        let p = parts(vs.drop_last(), hl);
        let v = vs.last();
        if value_dynamic(v) {
            (p.0 + word((hl + p.1.len()) as u64), p.1 + encode_value(v))
        } else {
            (p.0 + encode_value(v), p.1)
        }
    }
}

/// The head/tail encoding of a sequence of values.
pub open spec fn encode_values(vs: Seq<Value>) -> Seq<u8>
    decreases vs, 2nat,
{
    let p = parts(vs, heads_len(vs));
    p.0 + p.1
}

pub proof fn lemma_token_values(ts: Seq<Token>)
    ensures
        token_values(ts).len() == ts.len(),
        forall|i: int| 0 <= i < ts.len() ==> #[trigger] token_values(ts)[i] == ts[i]@,
    decreases ts.len(),
{
    if ts.len() > 0 {
        lemma_token_values(ts.drop_last());
    }
}

proof fn lemma_token_values_take(ts: Seq<Token>, i: int)
    requires
        0 <= i < ts.len(),
    ensures
        token_values(ts.take(i + 1)) == token_values(ts.take(i)).push(ts[i]@),
{
    assert(ts.take(i + 1).drop_last() =~= ts.take(i));
}

pub(crate) proof fn lemma_parts_step(vs: Seq<Value>, hl: nat, i: int)
    requires
        0 <= i < vs.len(),
    ensures
        parts(vs.take(i + 1), hl) == (if value_dynamic(vs[i]) {
            (parts(vs.take(i), hl).0 + word((hl + parts(vs.take(i), hl).1.len()) as u64),
            parts(vs.take(i), hl).1 + encode_value(vs[i]))
        } else {
            (parts(vs.take(i), hl).0 + encode_value(vs[i]), parts(vs.take(i), hl).1)
        }),
{
    assert(vs.take(i + 1).drop_last() =~= vs.take(i));
}

/// The head region is as long as the heads of the values.
pub(crate) proof fn lemma_parts_heads(vs: Seq<Value>, hl: nat)
    ensures
        parts(vs, hl).0.len() == heads_len(vs),
    decreases vs.len(),
{
    if vs.len() > 0 {
        lemma_parts_heads(vs.drop_last(), hl);
        let p = parts(vs.drop_last(), hl);
        let v = vs.last();
        assert(heads_len(vs) == heads_len(vs.drop_last()) + head_len(v));
        if value_dynamic(v) {
            assert(word((hl + p.1.len()) as u64).len() == 32);
        } else {
            assert(head_len(v) == encode_value(v).len());
        }
    }
}

/// The regions of a prefix are no longer than those of the whole.
proof fn lemma_parts_prefix(vs: Seq<Value>, hl: nat, i: int)
    requires
        0 <= i <= vs.len(),
    ensures
        parts(vs.take(i), hl).0.len() <= parts(vs, hl).0.len(),
        parts(vs.take(i), hl).1.len() <= parts(vs, hl).1.len(),
    decreases vs.len() - i,
{
    if i == vs.len() {
        assert(vs.take(i) =~= vs);
    } else {
        lemma_parts_prefix(vs, hl, i + 1);
        lemma_parts_step(vs, hl, i);
    }
}

/// Each value's encoding fits inside the encoding of the whole sequence.
proof fn lemma_parts_item(vs: Seq<Value>, hl: nat, i: int)
    requires
        0 <= i < vs.len(),
    ensures
        parts(vs.take(i), hl).0.len() + head_len(vs[i]) <= parts(vs, hl).0.len(),
        parts(vs.take(i), hl).1.len() + (if value_dynamic(vs[i]) {
            encode_value(vs[i]).len()
        } else {
            0
        }) <= parts(vs, hl).1.len(),
{
    lemma_parts_prefix(vs, hl, i + 1);
    lemma_parts_step(vs, hl, i);
}

fn push_zeros(out: &mut Vec<u8>, n: usize)
    ensures
        final(out)@ == old(out)@ + zeros(n as nat),
{
    let mut i: usize = 0;
    while i < n
        invariant
            i <= n,
            out@ == old(out)@ + zeros(i as nat),
        decreases n - i,
    {
        out.push(0u8);
        assert(zeros((i + 1) as nat) =~= zeros(i as nat).push(0u8));
        i = i + 1;
    }
}

fn push_word(out: &mut Vec<u8>, n: u64)
    ensures
        final(out)@ == old(out)@ + word(n),
{
    push_zeros(out, 24);
    out.push((n >> 56u64) as u8);
    out.push((n >> 48u64) as u8);
    out.push((n >> 40u64) as u8);
    out.push((n >> 32u64) as u8);
    out.push((n >> 24u64) as u8);
    out.push((n >> 16u64) as u8);
    out.push((n >> 8u64) as u8);
    out.push(n as u8);
    assert(out@ =~= old(out)@ + word(n));
}

fn push_bytes(out: &mut Vec<u8>, b: &[u8])
    ensures
        final(out)@ == old(out)@ + b@,
{
    let mut i: usize = 0;
    while i < b.len()
        invariant
            i <= b@.len(),
            out@ == old(out)@ + b@.take(i as int),
        decreases b@.len() - i,
    {
        out.push(b[i]);
        assert(b@.take(i + 1) =~= b@.take(i as int).push(b@[i as int]));
        i = i + 1;
    }
    assert(b@.take(b@.len() as int) =~= b@);
}

fn push_padded(out: &mut Vec<u8>, b: &[u8])
    ensures
        final(out)@ == old(out)@ + padded(b@),
{
    push_bytes(out, b);
    let r = b.len() % 32;
    let pad: usize = if r == 0 { 0 } else { 32 - r };
    push_zeros(out, pad);
    assert(out@ =~= old(out)@ + padded(b@));
}

/// Whether a token is dynamic.
pub fn token_dynamic(t: &Token) -> (r: bool)
    ensures
        r == value_dynamic(t@),
    decreases t,
{
    match t {
        Token::String(_) | Token::Bytes(_) | Token::Array(_) => true,
        Token::FixedArray(ts) | Token::Tuple(ts) => any_dynamic(ts),
        _ => false,
    }
}

/// Whether some token of a sequence is dynamic.
fn any_dynamic(ts: &Vec<Token>) -> (r: bool)
    ensures
        r == values_dynamic(token_values(ts@)),
    decreases ts,
{
    let mut i: usize = 0;
    let mut any = false;
    proof { lemma_token_values(ts@); }
    while i < ts.len()
        invariant
            i <= ts@.len(),
            any == values_dynamic(token_values(ts@.take(i as int))),
        decreases ts@.len() - i,
    {
        proof { assert(decreases_to!(*ts => ts@[i as int])); }
        let d = token_dynamic(&ts[i]);
        proof {
            lemma_token_values_take(ts@, i as int);
            assert(token_values(ts@.take(i + 1)).drop_last() =~= token_values(ts@.take(i as int)));
        }
        any = any || d;
        i = i + 1;
    }
    assert(ts@.take(ts@.len() as int) =~= ts@);
    any
}

/// Appends the encoding of one token.
pub fn encode_token(t: &Token, out: &mut Vec<u8>)
    requires
        old(out)@.len() + encode_value(t@).len() <= usize::MAX,
    ensures
        final(out)@ == old(out)@ + encode_value(t@),
    decreases t, 1nat,
{
    match t {
        Token::Address(a) => {
            push_zeros(out, 12);
            push_bytes(out, a.as_slice());
        },
        Token::Bool(b) => {
            push_zeros(out, 31);
            out.push(if *b { 1u8 } else { 0u8 });
        },
        Token::Uint(w) | Token::Int(w) => {
            push_bytes(out, w.as_slice());
        },
        Token::FixedBytes(b) => {
            push_padded(out, b.as_slice());
        },
        Token::Bytes(b) => {
            push_word(out, b.len() as u64);
            push_padded(out, b.as_slice());
        },
        Token::String(s) => {
            let b = s.as_str().as_bytes();
            push_word(out, b.len() as u64);
            push_padded(out, b);
        },
        Token::Array(ts) => {
            proof { lemma_token_values(ts@); }
            push_word(out, ts.len() as u64);
            encode_tokens(ts, out);
        },
        Token::FixedArray(ts) | Token::Tuple(ts) => {
            encode_tokens(ts, out);
        },
    }
    assert(out@ =~= old(out)@ + encode_value(t@));
}

/// Bytes that a token takes in the head region.
fn head_size(t: &Token) -> (r: usize)
    requires
        encode_value(t@).len() <= usize::MAX,
    ensures
        r == head_len(t@),
    decreases t, 2nat,
{
    if token_dynamic(t) {
        32
    } else {
        let mut tmp: Vec<u8> = Vec::new();
        encode_token(t, &mut tmp);
        assert(tmp@ =~= encode_value(t@));
        tmp.len()
    }
}

/// Appends the head/tail encoding of a sequence of tokens.
pub fn encode_tokens(ts: &Vec<Token>, out: &mut Vec<u8>)
    requires
        old(out)@.len() + encode_values(token_values(ts@)).len() <= usize::MAX,
    ensures
        final(out)@ == old(out)@ + encode_values(token_values(ts@)),
    decreases ts, 0nat,
{
    let ghost vs = token_values(ts@);
    proof {
        lemma_token_values(ts@);
        lemma_parts_heads(vs, heads_len(vs));
    }
    let mut hl: usize = 0;
    let mut i: usize = 0;
    while i < ts.len()
        invariant
            i <= ts@.len(),
            vs == token_values(ts@),
            vs.len() == ts@.len(),
            forall|j: int| 0 <= j < ts@.len() ==> #[trigger] vs[j] == ts@[j]@,
            heads_len(vs) + parts(vs, heads_len(vs)).1.len() + old(out)@.len() <= usize::MAX,
            hl == heads_len(vs.take(i as int)),
            parts(vs, heads_len(vs)).0.len() == heads_len(vs),
        decreases ts@.len() - i,
    {
        proof {
            lemma_parts_heads(vs.take(i as int), heads_len(vs));
            lemma_parts_heads(vs.take(i + 1), heads_len(vs));
            lemma_parts_item(vs, heads_len(vs), i as int);
            assert(vs.take(i + 1).drop_last() =~= vs.take(i as int));
            if !value_dynamic(vs[i as int]) {
                assert(head_len(vs[i as int]) == encode_value(vs[i as int]).len());
            }
        }
        let h = head_size(&ts[i]);
        hl = hl + h;
        i = i + 1;
    }
    assert(vs.take(vs.len() as int) =~= vs);
    let ghost hlg = heads_len(vs);
    let mut tails: Vec<u8> = Vec::new();
    let mut i: usize = 0;
    while i < ts.len()
        invariant
            i <= ts@.len(),
            vs == token_values(ts@),
            vs.len() == ts@.len(),
            forall|j: int| 0 <= j < ts@.len() ==> #[trigger] vs[j] == ts@[j]@,
            hl == hlg,
            hlg == heads_len(vs),
            parts(vs, hlg).0.len() == hlg,
            hlg + parts(vs, hlg).1.len() + old(out)@.len() <= usize::MAX,
            out@ == old(out)@ + parts(vs.take(i as int), hlg).0,
            tails@ == parts(vs.take(i as int), hlg).1,
        decreases ts@.len() - i,
    {
        proof {
            lemma_parts_item(vs, hlg, i as int);
            lemma_parts_step(vs, hlg, i as int);
        }
        let d = token_dynamic(&ts[i]);
        if d {
            push_word(out, (hl + tails.len()) as u64);
            encode_token(&ts[i], &mut tails);
        } else {
            encode_token(&ts[i], out);
        }
        assert(out@ =~= old(out)@ + parts(vs.take(i + 1), hlg).0);
        i = i + 1;
    }
    assert(vs.take(vs.len() as int) =~= vs);
    push_bytes(out, tails.as_slice());
    assert(out@ =~= old(out)@ + encode_values(vs));
}

/// The encodings of values side by side, with no offsets.
pub open spec fn inline_encoding(vs: Seq<Value>) -> Seq<u8>
    decreases vs.len(),
{
    if vs.len() == 0 {
        Seq::empty()
    } else {
        inline_encoding(vs.drop_last()) + encode_value(vs.last())
    }
}

pub(crate) proof fn lemma_static_parts(vs: Seq<Value>, hl: nat)
    requires
        !values_dynamic(vs),
    ensures
        parts(vs, hl).0 == inline_encoding(vs),
        parts(vs, hl).1 == Seq::<u8>::empty(),
    decreases vs.len(),
{
    if vs.len() > 0 {
        lemma_static_parts(vs.drop_last(), hl);
    }
}

/// A tuple or fixed array whose elements are all static is static itself,
/// and encodes inline: its elements' encodings side by side, no offsets.
pub proof fn lemma_static_composite_inline(vs: Seq<Value>)
    requires
        forall|i: int| 0 <= i < vs.len() ==> !value_dynamic(#[trigger] vs[i]),
    ensures
        !value_dynamic(Value::Tuple(vs)),
        !value_dynamic(Value::FixedArray(vs)),
        encode_value(Value::Tuple(vs)) == inline_encoding(vs),
        encode_value(Value::FixedArray(vs)) == inline_encoding(vs),
{
    lemma_no_dynamic(vs);
    let p = parts(vs, heads_len(vs));
    lemma_static_parts(vs, heads_len(vs));
    assert(p.0 + p.1 =~= inline_encoding(vs));
}

proof fn lemma_no_dynamic(vs: Seq<Value>)
    requires
        forall|i: int| 0 <= i < vs.len() ==> !value_dynamic(#[trigger] vs[i]),
    ensures
        !values_dynamic(vs),
    decreases vs.len(),
{
    if vs.len() > 0 {
        lemma_no_dynamic(vs.drop_last());
    }
}

proof fn lemma_some_dynamic(vs: Seq<Value>, i: int)
    requires
        0 <= i < vs.len(),
        value_dynamic(vs[i]),
    ensures
        values_dynamic(vs),
    decreases vs.len(),
{
    if i < vs.len() - 1 {
        lemma_some_dynamic(vs.drop_last(), i);
    }
}

/// One dynamic element anywhere in a tuple or fixed array makes the whole
/// composite dynamic: as an argument its head slot holds the offset of its
/// encoding, which follows the heads.
pub proof fn lemma_dynamic_composite_indirect(vs: Seq<Value>, i: int)
    requires
        0 <= i < vs.len(),
        value_dynamic(vs[i]),
    ensures
        value_dynamic(Value::Tuple(vs)),
        value_dynamic(Value::FixedArray(vs)),
        encode_values(seq![Value::Tuple(vs)]) == word(32) + encode_value(Value::Tuple(vs)),
        encode_values(seq![Value::FixedArray(vs)]) == word(32) + encode_value(Value::FixedArray(vs)),
{
    lemma_some_dynamic(vs, i);
    let t = Value::Tuple(vs);
    let f = Value::FixedArray(vs);
    assert(seq![t].drop_last() =~= Seq::<Value>::empty());
    assert(seq![f].drop_last() =~= Seq::<Value>::empty());
    assert(seq![t].last() == t);
    assert(seq![f].last() == f);
    assert(head_len(t) == 32);
    assert(head_len(f) == 32);
    assert(heads_len(Seq::<Value>::empty()) == 0);
    assert(heads_len(seq![t]) == 32);
    assert(heads_len(seq![f]) == 32);
    assert(encode_values(seq![t]) =~= word(32) + encode_value(t));
    assert(encode_values(seq![f]) =~= word(32) + encode_value(f));
}

/// The length of the encoding of a token, or `None` where it is more than
/// `usize` holds.
pub fn value_size(t: &Token) -> (r: Option<usize>)
    ensures
        r is Some ==> r->0 == encode_value(t@).len(),
        r is None ==> encode_value(t@).len() > usize::MAX,
    decreases t,
{
    match t {
        Token::Address(a) => a.len().checked_add(12),
        Token::Bool(_) => Some(32),
        Token::Uint(w) | Token::Int(w) => Some(w.len()),
        Token::FixedBytes(b) => padded_size(b.len()),
        Token::Bytes(b) => match padded_size(b.len()) {
            Some(n) => n.checked_add(32),
            None => None,
        },
        Token::String(s) => match padded_size(s.as_str().as_bytes().len()) {
            Some(n) => n.checked_add(32),
            None => None,
        },
        Token::Array(ts) => {
            proof { lemma_token_values(ts@); }
            match values_size(ts) {
                Some(n) => n.checked_add(32),
                None => None,
            }
        },
        Token::FixedArray(ts) | Token::Tuple(ts) => values_size(ts),
    }
}

fn padded_size(n: usize) -> (r: Option<usize>)
    ensures
        r is Some ==> r->0 == n + pad_len(n as nat),
        r is None ==> n + pad_len(n as nat) > usize::MAX,
{
    let rem = n % 32;
    n.checked_add(if rem == 0 { 0 } else { 32 - rem })
}

/// The length of the head/tail encoding of a sequence of tokens, or `None`
/// where it is more than `usize` holds.
pub fn values_size(ts: &Vec<Token>) -> (r: Option<usize>)
    ensures
        r is Some ==> r->0 == encode_values(token_values(ts@)).len(),
        r is None ==> encode_values(token_values(ts@)).len() > usize::MAX,
    decreases ts,
{
    let ghost vs = token_values(ts@);
    let ghost hl = heads_len(vs);
    proof {
        lemma_token_values(ts@);
        lemma_parts_heads(vs, hl);
    }
    let mut heads: usize = 0;
    let mut tails: usize = 0;
    let mut i: usize = 0;
    while i < ts.len()
        invariant
            i <= ts@.len(),
            vs == token_values(ts@),
            vs.len() == ts@.len(),
            forall|j: int| 0 <= j < ts@.len() ==> #[trigger] vs[j] == ts@[j]@,
            hl == heads_len(vs),
            parts(vs, hl).0.len() == hl,
            heads == parts(vs.take(i as int), hl).0.len(),
            tails == parts(vs.take(i as int), hl).1.len(),
        decreases ts@.len() - i,
    {
        proof {
            assert(decreases_to!(*ts => ts@[i as int]));
            lemma_parts_item(vs, hl, i as int);
            lemma_parts_step(vs, hl, i as int);
        }
        let d = token_dynamic(&ts[i]);
        let s = match value_size(&ts[i]) {
            Some(s) => s,
            None => { return None; },
        };
        if d {
            heads = match heads.checked_add(32) { Some(n) => n, None => { return None; } };
            tails = match tails.checked_add(s) { Some(n) => n, None => { return None; } };
        } else {
            heads = match heads.checked_add(s) { Some(n) => n, None => { return None; } };
        }
        i = i + 1;
    }
    assert(vs.take(vs.len() as int) =~= vs);
    heads.checked_add(tails)
}

/// The head/tail encoding of an argument list. Integer words are written
/// as they stand: a value wider than its declared `Uint(bits)` or
/// `Int(bits)` is neither rejected nor masked.
pub fn encode(tokens: &Vec<Token>) -> (r: Vec<u8>)
    requires
        encode_values(token_values(tokens@)).len() <= usize::MAX,
    ensures
        r@ == encode_values(token_values(tokens@)),
{
    let mut out: Vec<u8> = Vec::new();
    encode_tokens(tokens, &mut out);
    assert(out@ =~= encode_values(token_values(tokens@)));
    out
}

} // verus!
