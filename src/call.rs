use vstd::prelude::*;
use crate::types::ParamType;
use crate::encode::{encode, encode_values, values_size};
use crate::decode::{
    decode, decode_item, decode_repeat, decode_tuple, decode_value, low_u64,
    type_head_len, types_head_len, word_at, DecodeError,
};
use crate::hex_text::{hex_decoded, is_hex};
use crate::render::{all_words_fit, render_all, render_values, words_fit};
use crate::tokenize::{
    hex_body, host_models, lemma_host_models, text_hex, tokenize_all, tokenize_args, HostModel,
    HostValue, TokenizeError,
};

verus! {

/// A function of a contract interface: its name and its parameter types.
pub struct Function {
    pub name: String,
    pub inputs: Vec<ParamType>,
    pub outputs: Vec<ParamType>,
}

/// The functions of one contract interface, in declared order, under an identifier.
pub struct Interface {
    pub id: String,
    pub functions: Vec<Function>,
}

/// Loaded contract interfaces, looked up by identifier.
pub struct Registry {
    pub interfaces: Vec<Interface>,
}

/// Why a call could not be encoded or decoded.
#[derive(Debug, PartialEq, Eq)]
pub enum CallError {
    InterfaceNotFound,
    FunctionNotFound,
    /// The arguments do not fit the function's inputs.
    Tokenize(TokenizeError),
    /// The bytes do not hold the function's parameters.
    Decode(DecodeError),
    /// The hexadecimal text of the data is malformed.
    InvalidHex,
    /// The encoding would be longer than memory can address.
    EncodingTooLarge,
}

/// The functions registered under `id`: those of the latest registration.
pub open spec fn interface_of(es: Seq<Interface>, id: Seq<char>) -> Option<Seq<Function>>
    decreases es.len(),
{
    if es.len() == 0 {
        None
    } else if es[0].id@ == id {
        Some(es[0].functions@)
    } else {
        interface_of(es.drop_first(), id)
    }
}

/// The first declared function named `name`.
pub open spec fn first_named(fs: Seq<Function>, name: Seq<char>) -> Option<Function>
    decreases fs.len(),
{
    if fs.len() == 0 {
        None
    } else if fs[0].name@ == name {
        Some(fs[0])
    } else {
        first_named(fs.drop_first(), name)
    }
}

/// The function that a lookup by identifier and name finds.
pub open spec fn found(es: Seq<Interface>, id: Seq<char>, name: Seq<char>) -> Result<Function, CallError> {
    match interface_of(es, id) {
        None => Err(CallError::InterfaceNotFound),
        Some(fs) => match first_named(fs, name) {
            None => Err(CallError::FunctionNotFound),
            Some(f) => Ok(f),
        },
    }
}

/// The argument payload of a call.
pub open spec fn call_payload(
    es: Seq<Interface>,
    id: Seq<char>,
    name: Seq<char>,
    args: Seq<HostModel>,
) -> Result<Seq<u8>, CallError> {
    match found(es, id, name) {
        Err(e) => Err(e),
        Ok(f) => if args.len() != f.inputs@.len() {
            Err(CallError::Tokenize(TokenizeError::LengthMismatch))
        } else {
            match tokenize_all(f.inputs@, args) {
                Err(e) => Err(CallError::Tokenize(e)),
                Ok(vs) => if encode_values(vs).len() > usize::MAX {
                    Err(CallError::EncodingTooLarge)
                } else {
                    Ok(encode_values(vs))
                },
            }
        },
    }
}

/// What decoding `data` against the types `ts` hands back to a host.
pub open spec fn decoded_for_host(ts: Seq<ParamType>, data: Seq<u8>) -> Result<Seq<HostModel>, CallError> {
    match decode_tuple(ts, data) {
        Ok(vs) => Ok(render_values(vs)),
        Err(e) => Err(CallError::Decode(e)),
    }
}

/// The bytes of hexadecimal text with an optional `0x`.
pub open spec fn hex_data(s: Seq<char>) -> Result<Seq<u8>, CallError> {
    if is_hex(hex_body(s)) { Ok(hex_decoded(hex_body(s))) } else { Err(CallError::InvalidHex) }
}

/// A function's results, from the hexadecimal text of returned data.
pub open spec fn output_of(es: Seq<Interface>, id: Seq<char>, name: Seq<char>, data: Seq<char>)
    -> Result<Seq<HostModel>, CallError>
{
    match found(es, id, name) {
        Err(e) => Err(e),
        Ok(f) => match hex_data(data) {
            Err(e) => Err(e),
            Ok(b) => decoded_for_host(f.outputs@, b),
        },
    }
}

/// A call's arguments, from the hexadecimal text of a call payload whose
/// first four bytes are the selector.
pub open spec fn input_of(es: Seq<Interface>, id: Seq<char>, name: Seq<char>, data: Seq<char>)
    -> Result<Seq<HostModel>, CallError>
{
    match found(es, id, name) {
        Err(e) => Err(e),
        Ok(f) => match hex_data(data) {
            Err(e) => Err(e),
            Ok(b) => if b.len() < 4 {
                Err(CallError::Decode(DecodeError::TruncatedInput))
            } else {
                decoded_for_host(f.inputs@, b.subrange(4, b.len() as int))
            },
        },
    }
}

/// Of functions that share a name, lookup finds the one declared first:
/// the function at `i` when none before it has that name.
pub proof fn lemma_first_declared_wins(fs: Seq<Function>, name: Seq<char>, i: int)
    requires
        0 <= i < fs.len(),
        fs[i].name@ == name,
        forall|k: int| 0 <= k < i ==> fs[k].name@ != name,
    ensures
        first_named(fs, name) == Some(fs[i]),
    decreases i,
{
    if i > 0 {
        lemma_first_declared_wins(fs.drop_first(), name, i - 1);
    }
}

/// Decoding yields integer words of 32 bytes, as rendering needs.
proof fn lemma_value_fits(t: ParamType, r: Seq<u8>)
    ensures
        decode_value(t, r) is Ok ==> words_fit(decode_value(t, r)->Ok_0),
    decreases t, 0nat, 0nat,
{
    match t {
        ParamType::Array(e) => {
            if r.len() >= 32 {
                lemma_repeat_fits(*e, low_u64(word_at(r, 0)) as nat, r.subrange(32, r.len() as int));
            }
        },
        ParamType::FixedArray(e, n) => lemma_repeat_fits(*e, n as nat, r),
        ParamType::Tuple(cs) => lemma_tuple_fits(cs@, r),
        _ => {},
    }
}

proof fn lemma_item_fits(t: ParamType, r: Seq<u8>, h: nat)
    ensures
        decode_item(t, r, h) is Ok ==> words_fit(decode_item(t, r, h)->Ok_0),
    decreases t, 1nat, 0nat,
{
    if h + 32 <= r.len() {
        let o = low_u64(word_at(r, h as int)) as nat;
        if o <= r.len() {
            lemma_value_fits(t, r.subrange(o as int, r.len() as int));
        }
    }
    if h <= r.len() {
        lemma_value_fits(t, r.subrange(h as int, r.len() as int));
    }
}

proof fn lemma_repeat_fits(e: ParamType, n: nat, r: Seq<u8>)
    ensures
        decode_repeat(e, n, r) is Ok ==> all_words_fit(decode_repeat(e, n, r)->Ok_0),
    decreases e, 1nat, n,
{
    if n > 0 {
        lemma_repeat_fits(e, (n - 1) as nat, r);
        lemma_item_fits(e, r, ((n - 1) * type_head_len(e)) as nat);
        if decode_repeat(e, n, r) is Ok {
            let vs = decode_repeat(e, (n - 1) as nat, r)->Ok_0;
            let v = decode_item(e, r, ((n - 1) * type_head_len(e)) as nat)->Ok_0;
            assert(vs.push(v).drop_last() =~= vs);
        }
    }
}

proof fn lemma_tuple_fits(ts: Seq<ParamType>, r: Seq<u8>)
    ensures
        decode_tuple(ts, r) is Ok ==> all_words_fit(decode_tuple(ts, r)->Ok_0),
    decreases ts, 0nat, 0nat,
{
    if ts.len() > 0 {
        lemma_tuple_fits(ts.drop_last(), r);
        lemma_item_fits(ts.last(), r, types_head_len(ts.drop_last()));
        if decode_tuple(ts, r) is Ok {
            let vs = decode_tuple(ts.drop_last(), r)->Ok_0;
            let v = decode_item(ts.last(), r, types_head_len(ts.drop_last()))->Ok_0;
            assert(vs.push(v).drop_last() =~= vs);
        }
    }
}

/// Decodes `data` against the types `ts` and renders the values for a host.
pub fn decode_for_host(ts: &Vec<ParamType>, data: &[u8]) -> (r: Result<Vec<HostValue>, CallError>)
    ensures
        match r {
            Ok(hs) => decoded_for_host(ts@, data@) == Ok::<Seq<HostModel>, CallError>(host_models(hs@)),
            Err(e) => decoded_for_host(ts@, data@) == Err::<Seq<HostModel>, CallError>(e),
        },
{
    match decode(ts, data) {
        Ok(tokens) => {
            proof { lemma_tuple_fits(ts@, data@); }
            Ok(render_all(&tokens))
        },
        Err(e) => Err(CallError::Decode(e)),
    }
}

impl Registry {
    pub fn new() -> (r: Registry)
        ensures
            forall|id: Seq<char>| interface_of(r.interfaces@, id) is None,
    {
        Registry { interfaces: Vec::new() }
    }

    /// Registers the functions of an interface under `id`, in place of any
    /// earlier registration under it.
    pub fn register(&mut self, id: String, functions: Vec<Function>)
        ensures
            interface_of(final(self).interfaces@, id@) == Some(functions@),
            forall|k: Seq<char>| k != id@ ==> interface_of(final(self).interfaces@, k)
                == interface_of(old(self).interfaces@, k),
    {
        let ghost before = self.interfaces@;
        self.interfaces.insert(0, Interface { id, functions });
        proof {
            assert(self.interfaces@.drop_first() =~= before);
        }
    }

    /// The first declared function named `name` in the interface under `id`.
    pub fn lookup(&self, id: &String, name: &String) -> (r: Result<&Function, CallError>)
        ensures
            match r {
                Ok(f) => found(self.interfaces@, id@, name@) == Ok::<Function, CallError>(*f),
                Err(e) => found(self.interfaces@, id@, name@) == Err::<Function, CallError>(e),
            },
    {
        let es = &self.interfaces;
        let mut i: usize = 0;
        assert(es@.subrange(0, es@.len() as int) =~= es@);
        while i < es.len()
            invariant
                i <= es@.len(),
                es@ == self.interfaces@,
                interface_of(es@, id@) == interface_of(es@.subrange(i as int, es@.len() as int), id@),
            decreases es@.len() - i,
        {
            assert(es@.subrange(i as int, es@.len() as int).drop_first()
                =~= es@.subrange(i + 1, es@.len() as int));
            if es[i].id == *id {
                assert(es@.subrange(i as int, es@.len() as int)[0] == es@[i as int]);
                assert(interface_of(es@, id@) == Some(es@[i as int].functions@));
                let fs = &es[i].functions;
                assert(fs@ == es@[i as int].functions@);
                let r = first_named_in(fs, name);
                assert(self.interfaces@ == es@);
                return r;
            }
            i = i + 1;
        }
        Err(CallError::InterfaceNotFound)
    }

    /// The argument payload of a call of `name` in the interface under `id`:
    /// the arguments tokenized position by position against the function's
    /// inputs, then encoded. The 4-byte selector is not included.
    pub fn encode_call(&self, id: &String, name: &String, args: &Vec<HostValue>) -> (r: Result<Vec<u8>, CallError>)
        ensures
            match r {
                Ok(b) => call_payload(self.interfaces@, id@, name@, host_models(args@))
                    == Ok::<Seq<u8>, CallError>(b@),
                Err(e) => call_payload(self.interfaces@, id@, name@, host_models(args@))
                    == Err::<Seq<u8>, CallError>(e),
            },
    {
        proof { lemma_host_models(args@); }
        let f = match self.lookup(id, name) {
            Ok(f) => f,
            Err(e) => { return Err(e); },
        };
        if args.len() != f.inputs.len() {
            return Err(CallError::Tokenize(TokenizeError::LengthMismatch));
        }
        let tokens = match tokenize_args(&f.inputs, args) {
            Ok(ts) => ts,
            Err(e) => { return Err(CallError::Tokenize(e)); },
        };
        match values_size(&tokens) {
            Some(_) => Ok(encode(&tokens)),
            None => Err(CallError::EncodingTooLarge),
        }
    }

    /// The results of `name` in the interface under `id`, decoded from the
    /// hexadecimal text of returned data.
    pub fn decode_output(&self, id: &String, name: &String, data: &String) -> (r: Result<Vec<HostValue>, CallError>)
        ensures
            match r {
                Ok(hs) => output_of(self.interfaces@, id@, name@, data@)
                    == Ok::<Seq<HostModel>, CallError>(host_models(hs@)),
                Err(e) => output_of(self.interfaces@, id@, name@, data@)
                    == Err::<Seq<HostModel>, CallError>(e),
            },
    {
        let f = match self.lookup(id, name) {
            Ok(f) => f,
            Err(e) => { return Err(e); },
        };
        let bytes = match text_hex(data) {
            Some(b) => b,
            None => { return Err(CallError::InvalidHex); },
        };
        decode_for_host(&f.outputs, bytes.as_slice())
    }

    /// The arguments of a call of `name` in the interface under `id`,
    /// decoded from the hexadecimal text of its payload after the selector.
    pub fn decode_input(&self, id: &String, name: &String, data: &String) -> (r: Result<Vec<HostValue>, CallError>)
        ensures
            match r {
                Ok(hs) => input_of(self.interfaces@, id@, name@, data@)
                    == Ok::<Seq<HostModel>, CallError>(host_models(hs@)),
                Err(e) => input_of(self.interfaces@, id@, name@, data@)
                    == Err::<Seq<HostModel>, CallError>(e),
            },
    {
        let f = match self.lookup(id, name) {
            Ok(f) => f,
            Err(e) => { return Err(e); },
        };
        let bytes = match text_hex(data) {
            Some(b) => b,
            None => { return Err(CallError::InvalidHex); },
        };
        if bytes.len() < 4 {
            return Err(CallError::Decode(DecodeError::TruncatedInput));
        }
        decode_for_host(&f.inputs, vstd::slice::slice_subrange(bytes.as_slice(), 4, bytes.len()))
    }
}

/// The first function named `name` among `fs`.
fn first_named_in<'a>(fs: &'a Vec<Function>, name: &String) -> (r: Result<&'a Function, CallError>)
    ensures
        match r {
            Ok(f) => first_named(fs@, name@) == Some(*f),
            Err(e) => first_named(fs@, name@) is None && e == CallError::FunctionNotFound,
        },
{
    let mut i: usize = 0;
    assert(fs@.subrange(0, fs@.len() as int) =~= fs@);
    while i < fs.len()
        invariant
            i <= fs@.len(),
            first_named(fs@, name@) == first_named(fs@.subrange(i as int, fs@.len() as int), name@),
        decreases fs@.len() - i,
    {
        assert(fs@.subrange(i as int, fs@.len() as int).drop_first()
            =~= fs@.subrange(i + 1, fs@.len() as int));
        if fs[i].name == *name {
            assert(fs@.subrange(i as int, fs@.len() as int)[0] == fs@[i as int]);
            return Ok(&fs[i]);
        }
        i = i + 1;
    }
    Err(CallError::FunctionNotFound)
}

} // verus!
