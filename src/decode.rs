use vstd::prelude::*;
use vstd::utf8::{decode_utf8, valid_utf8};
use crate::types::{token_values, type_dynamic, types_dynamic, ParamType, Token, Value};
use vstd::slice::{slice_subrange, slice_to_vec};
use crate::encode::{lemma_token_values, pad_len};

verus! {

/// Why a byte buffer could not be decoded.
#[derive(Debug, PartialEq, Eq, Structural)]
pub enum DecodeError {
    /// A head slot, length prefix or tail runs past the end of the buffer.
    TruncatedInput,
    /// An offset points outside the buffer.
    OffsetOutOfRange,
    /// The bytes cannot hold a value of the declared type.
    TypeMismatch,
}

/// Bytes that a type takes in the head region.
pub open spec fn type_head_len(t: ParamType) -> nat
    decreases t, 1nat,
{
    if type_dynamic(t) {
        32
    } else {
        match t {
            ParamType::FixedArray(e, n) => (n * type_head_len(*e)) as nat,
            ParamType::Tuple(cs) => types_head_len(cs@),
            _ => 32,
        }
    }
}

pub open spec fn types_head_len(ts: Seq<ParamType>) -> nat
    decreases ts, 0nat,
{
    if ts.len() == 0 {
        0
    } else {
        types_head_len(ts.drop_last()) + type_head_len(ts.last())
    }
}

/// The integer in the low eight bytes of a 32-byte word.
pub open spec fn low_u64(w: Seq<u8>) -> u64 {
    (w[24] as u64) << 56u64 | (w[25] as u64) << 48u64 | (w[26] as u64) << 40u64
        | (w[27] as u64) << 32u64 | (w[28] as u64) << 24u64 | (w[29] as u64) << 16u64
        | (w[30] as u64) << 8u64 | (w[31] as u64)
}

/// The word at `p` holds an integer below 2^64: its high 24 bytes are zero.
pub open spec fn fits_u64(r: Seq<u8>, p: int) -> bool {
    forall|i: int| p <= i < p + 24 ==> r[i] == 0
}

/// The 32-byte word at position `p`.
pub open spec fn word_at(r: Seq<u8>, p: int) -> Seq<u8> {
    r.subrange(p, p + 32)
}

/// A length prefix at the start of `r`, followed by that many bytes padded
/// to a multiple of 32.
pub open spec fn decode_len_bytes(r: Seq<u8>) -> Result<Seq<u8>, DecodeError> {
    if r.len() < 32 || !fits_u64(r, 0) {
        Err(DecodeError::TruncatedInput)
    } else {
        let n = low_u64(word_at(r, 0)) as nat;
        if 32 + n + pad_len(n) > r.len() {
            Err(DecodeError::TruncatedInput)
        } else {
            Ok(r.subrange(32, 32 + n as int))
        }
    }
}

/// The value of type `t` whose encoding starts at the start of `r`.
pub open spec fn decode_value(t: ParamType, r: Seq<u8>) -> Result<Value, DecodeError>
    decreases t, 0nat, 0nat,
{
    match t {
        ParamType::Address => if r.len() < 32 {
            Err(DecodeError::TruncatedInput)
        } else {
            Ok(Value::Address(r.subrange(12, 32)))
        },
        ParamType::Bool => if r.len() < 32 {
            Err(DecodeError::TruncatedInput)
        } else if (forall|i: int| 0 <= i < 31 ==> r[i] == 0) && r[31] <= 1 {
            Ok(Value::Bool(r[31] == 1))
        } else {
            Err(DecodeError::TypeMismatch)
        },
        ParamType::Uint(_) => if r.len() < 32 {
            Err(DecodeError::TruncatedInput)
        } else {
            Ok(Value::Uint(r.subrange(0, 32)))
        },
        ParamType::Int(_) => if r.len() < 32 {
            Err(DecodeError::TruncatedInput)
        } else {
            Ok(Value::Int(r.subrange(0, 32)))
        },
        ParamType::FixedBytes(n) => if n > 32 {
            Err(DecodeError::TypeMismatch)
        } else if r.len() < 32 {
            Err(DecodeError::TruncatedInput)
        } else {
            Ok(Value::FixedBytes(r.subrange(0, n as int)))
        },
        ParamType::Bytes => match decode_len_bytes(r) {
            Ok(b) => Ok(Value::Bytes(b)),
            Err(e) => Err(e),
        },
        ParamType::String => match decode_len_bytes(r) {
            Ok(b) => if valid_utf8(b) {
                Ok(Value::Text(decode_utf8(b)))
            } else {
                Err(DecodeError::TypeMismatch)
            },
            Err(e) => Err(e),
        },
        ParamType::Array(e) => if r.len() < 32 || !fits_u64(r, 0) {
            Err(DecodeError::TruncatedInput)
        } else {
            let n = low_u64(word_at(r, 0)) as nat;
            if n > usize::MAX {
                Err(DecodeError::TruncatedInput)
            } else {
                match decode_repeat(*e, n, r.subrange(32, r.len() as int)) {
                    Ok(vs) => Ok(Value::Array(vs)),
                    Err(err) => Err(err),
                }
            }
        },
        ParamType::FixedArray(e, n) => match decode_repeat(*e, n as nat, r) {
            Ok(vs) => Ok(Value::FixedArray(vs)),
            Err(err) => Err(err),
        },
        ParamType::Tuple(cs) => match decode_tuple(cs@, r) {
            Ok(vs) => Ok(Value::Tuple(vs)),
            Err(err) => Err(err),
        },
    }
}

/// The value of type `t` whose head slot starts at `h` in the region `r`.
pub open spec fn decode_item(t: ParamType, r: Seq<u8>, h: nat) -> Result<Value, DecodeError>
    decreases t, 1nat, 0nat,
{
    if h + type_head_len(t) > r.len() {
        Err(DecodeError::TruncatedInput)
    } else if type_dynamic(t) {
        if !fits_u64(r, h as int) {
            Err(DecodeError::OffsetOutOfRange)
        } else {
            let o = low_u64(word_at(r, h as int)) as nat;
            if o > r.len() {
                Err(DecodeError::OffsetOutOfRange)
            } else {
                decode_value(t, r.subrange(o as int, r.len() as int))
            }
        }
    } else {
        decode_value(t, r.subrange(h as int, r.len() as int))
    }
}

/// `n` values of type `e`, laid out head/tail in `r`.
pub open spec fn decode_repeat(e: ParamType, n: nat, r: Seq<u8>) -> Result<Seq<Value>, DecodeError>
    decreases e, 1nat, n,
{
    if n == 0 {
        Ok(Seq::empty())
    } else {
        match decode_repeat(e, (n - 1) as nat, r) {
            Ok(vs) => match decode_item(e, r, ((n - 1) * type_head_len(e)) as nat) {
                Ok(v) => Ok(vs.push(v)),
                Err(err) => Err(err),
            },
            Err(err) => Err(err),
        }
    }
}

/// Values of the types `ts`, laid out head/tail in `r`.
pub open spec fn decode_tuple(ts: Seq<ParamType>, r: Seq<u8>) -> Result<Seq<Value>, DecodeError>
    decreases ts, 0nat, 0nat,
{
    if ts.len() == 0 {
        Ok(Seq::empty())
    } else {
        match decode_tuple(ts.drop_last(), r) {
            Ok(vs) => match decode_item(ts.last(), r, types_head_len(ts.drop_last())) {
                Ok(v) => Ok(vs.push(v)),
                Err(err) => Err(err),
            },
            Err(err) => Err(err),
        }
    }
}

/// The exec result `r` is the decoding `s`.
pub open spec fn decoded_as(r: Result<Token, DecodeError>, s: Result<Value, DecodeError>) -> bool {
    match r {
        Ok(t) => s == Ok::<Value, DecodeError>(t@),
        Err(e) => s == Err::<Value, DecodeError>(e),
    }
}

/// The exec results `r` are the decodings `s`.
pub open spec fn all_decoded_as(
    r: Result<Vec<Token>, DecodeError>,
    s: Result<Seq<Value>, DecodeError>,
) -> bool {
    match r {
        Ok(ts) => s == Ok::<Seq<Value>, DecodeError>(token_values(ts@)),
        Err(e) => s == Err::<Seq<Value>, DecodeError>(e),
    }
}

/// Relies on `String::from_utf8`: it accepts exactly the valid UTF-8 byte
/// sequences and keeps the bytes as the string's content.
#[verifier::external_body]
fn utf8_string(b: Vec<u8>) -> (r: Option<String>)
    ensures
        r is Some <==> valid_utf8(b@),
        r is Some ==> r->0@ == decode_utf8(b@),
{
    String::from_utf8(b).ok()
}

proof fn lemma_types_head_len_prefix(ts: Seq<ParamType>, i: int)
    requires
        0 <= i <= ts.len(),
    ensures
        types_head_len(ts.take(i)) <= types_head_len(ts),
    decreases ts.len() - i,
{
    if i < ts.len() {
        lemma_types_head_len_prefix(ts, i + 1);
        assert(ts.take(i + 1).drop_last() =~= ts.take(i));
    } else {
        assert(ts.take(i) =~= ts);
    }
}

/// Whether a type is dynamic.
pub fn param_dynamic(t: &ParamType) -> (r: bool)
    ensures
        r == type_dynamic(*t),
    decreases t,
{
    match t {
        ParamType::String | ParamType::Bytes | ParamType::Array(_) => true,
        ParamType::FixedArray(e, n) => *n > 0 && param_dynamic(e),
        ParamType::Tuple(cs) => params_dynamic(cs),
        _ => false,
    }
}

fn params_dynamic(ts: &Vec<ParamType>) -> (r: bool)
    ensures
        r == types_dynamic(ts@),
    decreases ts,
{
    let mut i: usize = 0;
    let mut any = false;
    while i < ts.len()
        invariant
            i <= ts@.len(),
            any == types_dynamic(ts@.take(i as int)),
        decreases ts@.len() - i,
    {
        proof { assert(decreases_to!(*ts => ts@[i as int])); }
        let d = param_dynamic(&ts[i]);
        proof { assert(ts@.take(i + 1).drop_last() =~= ts@.take(i as int)); }
        any = any || d;
        i = i + 1;
    }
    assert(ts@.take(ts@.len() as int) =~= ts@);
    any
}

/// Bytes that a type takes in the head region, or `None` where that is more
/// than `usize` holds.
fn head_size_of(t: &ParamType) -> (r: Option<usize>)
    ensures
        r is Some ==> r->0 == type_head_len(*t),
        r is None ==> type_head_len(*t) > usize::MAX,
    decreases t,
{
    if param_dynamic(t) {
        return Some(32);
    }
    match t {
        ParamType::FixedArray(e, n) => match head_size_of(e) {
            Some(s) => {
                let r = n.checked_mul(s);
                proof {
                    assert(type_head_len(*t) == (*n * type_head_len(**e)) as nat);
                    if r is None {
                        assert(*n * s > usize::MAX);
                    }
                }
                r
            },
            None => {
                proof {
                    if *n > 0 {
                        assert(*n * type_head_len(**e) >= type_head_len(**e)) by (nonlinear_arith)
                            requires *n > 0;
                        assert(type_head_len(*t) > usize::MAX);
                    } else {
                        assert(*n * type_head_len(**e) == 0) by (nonlinear_arith)
                            requires *n == 0;
                    }
                }
                if *n == 0 { Some(0) } else { None }
            },
        },
        ParamType::Tuple(cs) => heads_size_of(cs),
        _ => Some(32),
    }
}

fn heads_size_of(ts: &Vec<ParamType>) -> (r: Option<usize>)
    ensures
        r is Some ==> r->0 == types_head_len(ts@),
        r is None ==> types_head_len(ts@) > usize::MAX,
    decreases ts,
{
    let mut i: usize = 0;
    let mut total: usize = 0;
    while i < ts.len()
        invariant
            i <= ts@.len(),
            total == types_head_len(ts@.take(i as int)),
        decreases ts@.len() - i,
    {
        proof {
            assert(decreases_to!(*ts => ts@[i as int]));
            assert(ts@.take(i + 1).drop_last() =~= ts@.take(i as int));
            lemma_types_head_len_prefix(ts@, i + 1);
        }
        match head_size_of(&ts[i]) {
            Some(s) => match total.checked_add(s) {
                Some(n) => { total = n; },
                None => { return None; },
            },
            None => { return None; },
        }
        i = i + 1;
    }
    assert(ts@.take(ts@.len() as int) =~= ts@);
    Some(total)
}

/// The low eight bytes of the word at `p`, as an integer.
fn read_low_u64(r: &[u8], p: usize) -> (v: u64)
    requires
        p + 32 <= r@.len(),
    ensures
        v == low_u64(word_at(r@, p as int)),
{
    let len = r.len();
    let w = slice_subrange(r, p, p + 32);
    (w[24] as u64) << 56u64 | (w[25] as u64) << 48u64 | (w[26] as u64) << 40u64
        | (w[27] as u64) << 32u64 | (w[28] as u64) << 24u64 | (w[29] as u64) << 16u64
        | (w[30] as u64) << 8u64 | (w[31] as u64)
}

/// Whether the bytes from `p` up to `q` are all zero.
fn all_zero(r: &[u8], p: usize, q: usize) -> (b: bool)
    requires
        p <= q <= r@.len(),
    ensures
        b == (forall|i: int| p <= i < q ==> r@[i] == 0),
{
    let mut i = p;
    while i < q
        invariant
            p <= i <= q <= r@.len(),
            forall|j: int| p <= j < i ==> r@[j] == 0,
        decreases q - i,
    {
        if r[i] != 0 {
            return false;
        }
        i = i + 1;
    }
    true
}

fn decode_len_prefixed(r: &[u8]) -> (res: Result<Vec<u8>, DecodeError>)
    ensures
        match res {
            Ok(b) => decode_len_bytes(r@) == Ok::<Seq<u8>, DecodeError>(b@),
            Err(e) => decode_len_bytes(r@) == Err::<Seq<u8>, DecodeError>(e),
        },
{
    if r.len() < 32 || !all_zero(r, 0, 24) {
        return Err(DecodeError::TruncatedInput);
    }
    let n = read_low_u64(r, 0);
    let avail = r.len() - 32;
    if n as u128 > avail as u128 {
        return Err(DecodeError::TruncatedInput);
    }
    let n = n as usize;
    let rem = n % 32;
    let pad: usize = if rem == 0 { 0 } else { 32 - rem };
    if pad > avail - n {
        return Err(DecodeError::TruncatedInput);
    }
    Ok(slice_to_vec(slice_subrange(r, 32, 32 + n)))
}

/// Decodes the value of type `t` whose encoding starts at the start of `r`.
fn decode_at(t: &ParamType, r: &[u8]) -> (res: Result<Token, DecodeError>)
    ensures
        decoded_as(res, decode_value(*t, r@)),
    decreases t, 0nat, 0nat,
{
    match t {
        ParamType::Address => {
            if r.len() < 32 {
                return Err(DecodeError::TruncatedInput);
            }
            Ok(Token::Address(slice_to_vec(slice_subrange(r, 12, 32))))
        },
        ParamType::Bool => {
            if r.len() < 32 {
                return Err(DecodeError::TruncatedInput);
            }
            if all_zero(r, 0, 31) && r[31] <= 1 {
                Ok(Token::Bool(r[31] == 1))
            } else {
                Err(DecodeError::TypeMismatch)
            }
        },
        ParamType::Uint(_) => {
            if r.len() < 32 {
                return Err(DecodeError::TruncatedInput);
            }
            Ok(Token::Uint(slice_to_vec(slice_subrange(r, 0, 32))))
        },
        ParamType::Int(_) => {
            if r.len() < 32 {
                return Err(DecodeError::TruncatedInput);
            }
            Ok(Token::Int(slice_to_vec(slice_subrange(r, 0, 32))))
        },
        ParamType::FixedBytes(n) => {
            if *n > 32 {
                return Err(DecodeError::TypeMismatch);
            }
            if r.len() < 32 {
                return Err(DecodeError::TruncatedInput);
            }
            Ok(Token::FixedBytes(slice_to_vec(slice_subrange(r, 0, *n))))
        },
        ParamType::Bytes => match decode_len_prefixed(r) {
            Ok(b) => Ok(Token::Bytes(b)),
            Err(e) => Err(e),
        },
        ParamType::String => match decode_len_prefixed(r) {
            Ok(b) => match utf8_string(b) {
                Some(s) => Ok(Token::String(s)),
                None => Err(DecodeError::TypeMismatch),
            },
            Err(e) => Err(e),
        },
        ParamType::Array(e) => {
            if r.len() < 32 || !all_zero(r, 0, 24) {
                return Err(DecodeError::TruncatedInput);
            }
            let n = read_low_u64(r, 0);
            if n as u128 > usize::MAX as u128 {
                return Err(DecodeError::TruncatedInput);
            }
            match decode_repeated(e, n as usize, slice_subrange(r, 32, r.len())) {
                Ok(ts) => Ok(Token::Array(ts)),
                Err(err) => Err(err),
            }
        },
        ParamType::FixedArray(e, n) => match decode_repeated(e, *n, r) {
            Ok(ts) => Ok(Token::FixedArray(ts)),
            Err(err) => Err(err),
        },
        ParamType::Tuple(cs) => match decode_items(cs, r) {
            Ok(ts) => Ok(Token::Tuple(ts)),
            Err(err) => Err(err),
        },
    }
}

/// Decodes the value of type `t` whose head slot starts at `h` in `r`.
fn decode_slot(t: &ParamType, r: &[u8], h: usize, head: usize) -> (res: Result<Token, DecodeError>)
    requires
        h <= r@.len(),
        head == type_head_len(*t),
    ensures
        decoded_as(res, decode_item(*t, r@, h as nat)),
        res is Ok ==> h + head <= r@.len(),
    decreases t, 1nat, 0nat,
{
    if head > r.len() - h {
        return Err(DecodeError::TruncatedInput);
    }
    if param_dynamic(t) {
        if !all_zero(r, h, h + 24) {
            return Err(DecodeError::OffsetOutOfRange);
        }
        let o = read_low_u64(r, h);
        if o as u128 > r.len() as u128 {
            return Err(DecodeError::OffsetOutOfRange);
        }
        decode_at(t, slice_subrange(r, o as usize, r.len()))
    } else {
        decode_at(t, slice_subrange(r, h, r.len()))
    }
}

proof fn lemma_repeat_err(e: ParamType, i: nat, n: nat, r: Seq<u8>)
    requires
        i <= n,
        decode_repeat(e, i, r) is Err,
    ensures
        decode_repeat(e, n, r) == decode_repeat(e, i, r),
    decreases n - i,
{
    if i < n {
        lemma_repeat_err(e, i, (n - 1) as nat, r);
    }
}

proof fn lemma_tuple_err(ts: Seq<ParamType>, i: int, r: Seq<u8>)
    requires
        0 <= i <= ts.len(),
        decode_tuple(ts.take(i), r) is Err,
    ensures
        decode_tuple(ts, r) == decode_tuple(ts.take(i), r),
    decreases ts.len() - i,
{
    if i < ts.len() {
        assert(ts.take(i + 1).drop_last() =~= ts.take(i));
        lemma_tuple_err(ts, i + 1, r);
    } else {
        assert(ts.take(i) =~= ts);
    }
}

/// Decodes `n` values of type `e` laid out head/tail in `r`.
fn decode_repeated(e: &ParamType, n: usize, r: &[u8]) -> (res: Result<Vec<Token>, DecodeError>)
    ensures
        all_decoded_as(res, decode_repeat(*e, n as nat, r@)),
    decreases e, 1nat, n,
{
    let mut out: Vec<Token> = Vec::new();
    let len = r.len();
    if n == 0 {
        return Ok(out);
    }
    let head = match head_size_of(e) {
        Some(s) => s,
        None => {
            proof {
                assert(r@.len() == len);
                assert(decode_repeat(*e, 0, r@) == Ok::<Seq<Value>, DecodeError>(Seq::empty()));
                assert(decode_item(*e, r@, 0) == Err::<Value, DecodeError>(DecodeError::TruncatedInput));
                assert(decode_repeat(*e, 1, r@) == Err::<Seq<Value>, DecodeError>(
                    DecodeError::TruncatedInput));
                lemma_repeat_err(*e, 1, n as nat, r@);
            }
            return Err(DecodeError::TruncatedInput);
        },
    };
    let mut i: usize = 0;
    let mut h: usize = 0;
    while i < n
        invariant
            0 < n,
            i <= n,
            head == type_head_len(*e),
            i < n ==> h == i * head,
            h <= r@.len(),
            decode_repeat(*e, i as nat, r@) == Ok::<Seq<Value>, DecodeError>(token_values(out@)),
        decreases n - i,
    {
        let item = decode_slot(e, r, h, head);
        match item {
            Ok(t) => {
                proof {
                    lemma_token_values(out@);
                    assert(out@.push(t).drop_last() =~= out@);
                }
                out.push(t);
            },
            Err(err) => {
                proof { lemma_repeat_err(*e, (i + 1) as nat, n as nat, r@); }
                return Err(err);
            },
        }
        i = i + 1;
        if i < n {
            if head > r.len() - h {
                proof {
                    assert(h + head == i * head) by (nonlinear_arith)
                        requires h == (i - 1) * head;
                    assert(decode_item(*e, r@, (i * head) as nat) is Err);
                    lemma_repeat_err(*e, (i + 1) as nat, n as nat, r@);
                }
                return Err(DecodeError::TruncatedInput);
            }
            proof {
                assert(h + head == i * head) by (nonlinear_arith)
                    requires h == (i - 1) * head;
            }
            h = h + head;
        }
    }
    Ok(out)
}

/// Decodes values of the types `ts` laid out head/tail in `r`.
fn decode_items(ts: &Vec<ParamType>, r: &[u8]) -> (res: Result<Vec<Token>, DecodeError>)
    ensures
        all_decoded_as(res, decode_tuple(ts@, r@)),
    decreases ts, 0nat, 0nat,
{
    let mut out: Vec<Token> = Vec::new();
    let len = r.len();
    let mut i: usize = 0;
    let mut h: usize = 0;
    while i < ts.len()
        invariant
            i <= ts@.len(),
            h == types_head_len(ts@.take(i as int)),
            h <= r@.len(),
            len == r@.len(),
            decode_tuple(ts@.take(i as int), r@) == Ok::<Seq<Value>, DecodeError>(token_values(out@)),
        decreases ts@.len() - i,
    {
        proof {
            assert(decreases_to!(*ts => ts@[i as int]));
            assert(ts@.take(i + 1).drop_last() =~= ts@.take(i as int));
        }
        let head = match head_size_of(&ts[i]) {
            Some(s) => s,
            None => {
                proof {
                    assert(r@.len() == len);
                    assert(type_head_len(ts@[i as int]) > usize::MAX);
                    assert(decode_item(ts@[i as int], r@, h as nat) is Err);
                    assert(decode_tuple(ts@.take(i + 1), r@) is Err);
                    lemma_tuple_err(ts@, i + 1, r@);
                }
                return Err(DecodeError::TruncatedInput);
            },
        };
        match decode_slot(&ts[i], r, h, head) {
            Ok(t) => {
                proof {
                    lemma_token_values(out@);
                    assert(out@.push(t).drop_last() =~= out@);
                }
                out.push(t);
                h = h + head;
            },
            Err(err) => {
                proof { lemma_tuple_err(ts@, i + 1, r@); }
                return Err(err);
            },
        }
        i = i + 1;
    }
    assert(ts@.take(ts@.len() as int) =~= ts@);
    Ok(out)
}

/// Decodes an argument list of the types `types` from its head/tail encoding.
pub fn decode(types: &Vec<ParamType>, data: &[u8]) -> (res: Result<Vec<Token>, DecodeError>)
    ensures
        all_decoded_as(res, decode_tuple(types@, data@)),
{
    decode_items(types, data)
}

} // verus!
