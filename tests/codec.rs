use abi_codec::call::{CallError, Function, Registry};
use abi_codec::decode::{decode, DecodeError};
use abi_codec::encode::encode;
use abi_codec::render::render;
use abi_codec::tokenize::{tokenize, tokenize_args, HostValue, TokenizeError};
use abi_codec::types::{ParamType, Token};

fn text(s: &str) -> HostValue {
    HostValue::Text(s.to_string())
}

fn s(x: &str) -> String {
    x.to_string()
}

fn word(n: u64) -> Vec<u8> {
    let mut w = vec![0u8; 24];
    w.extend_from_slice(&n.to_be_bytes());
    w
}

fn to_hex(b: &[u8]) -> String {
    let mut out = String::from("0x");
    for x in b {
        out.push_str(&format!("{:02x}", x));
    }
    out
}

fn registry() -> Registry {
    let mut r = Registry::new();
    r.register(
        s("token"),
        vec![
            Function {
                name: s("transfer"),
                inputs: vec![ParamType::Address, ParamType::Uint(256)],
                outputs: vec![ParamType::Address, ParamType::Uint(256)],
            },
            Function {
                name: s("greet"),
                inputs: vec![ParamType::String],
                outputs: vec![ParamType::String],
            },
            Function {
                name: s("transfer"),
                inputs: vec![ParamType::Bool],
                outputs: vec![],
            },
            Function {
                name: s("shift"),
                inputs: vec![ParamType::Int(256)],
                outputs: vec![ParamType::Int(256)],
            },
        ],
    );
    r
}

fn transfer_payload() -> Vec<u8> {
    let mut p = word(1);
    p.extend(word(1000));
    p
}

#[test]
fn transfer_payload_layout() {
    let r = registry();
    let args = vec![text("0x0000000000000000000000000000000000000001"), text("1000")];
    let out = r.encode_call(&s("token"), &s("transfer"), &args).unwrap();
    assert_eq!(out.len(), 64);
    assert_eq!(out, transfer_payload());
    assert_eq!(out[31], 1);
    assert_eq!(&out[62..], &[0x03, 0xe8]);
}

#[test]
fn string_payload_layout() {
    let r = registry();
    let out = r.encode_call(&s("token"), &s("greet"), &vec![text("hi")]).unwrap();
    assert_eq!(out.len(), 96);
    let mut expected = word(32);
    expected.extend(word(2));
    expected.extend_from_slice(b"hi");
    expected.extend(vec![0u8; 30]);
    assert_eq!(out, expected);
}

#[test]
fn decode_transfer_output() {
    let r = registry();
    let data = to_hex(&transfer_payload());
    let out = r.decode_output(&s("token"), &s("transfer"), &data).unwrap();
    assert_eq!(out, vec![text("0x0000000000000000000000000000000000000001"), text("1000")]);
}

#[test]
fn keyed_tuple_rejected() {
    let t = ParamType::Tuple(vec![ParamType::Uint(256)]);
    let v = HostValue::Keyed(vec![(s("a"), HostValue::Number(s("1")))]);
    assert_eq!(tokenize(&t, &v), Err(TokenizeError::UnsupportedStructure));
}

#[test]
fn overload_resolves_to_first_declared() {
    let r = registry();
    let f = r.lookup(&s("token"), &s("transfer")).unwrap();
    assert_eq!(f.inputs, vec![ParamType::Address, ParamType::Uint(256)]);
    let args = vec![text("0x0000000000000000000000000000000000000001"), text("1000")];
    assert!(r.encode_call(&s("token"), &s("transfer"), &args).is_ok());
}

#[test]
fn register_replaces_earlier_interface() {
    let mut r = registry();
    r.register(s("token"), vec![]);
    assert_eq!(r.lookup(&s("token"), &s("transfer")).err(), Some(CallError::FunctionNotFound));
}

#[test]
fn round_trip_mixed_arguments() {
    let types = vec![
        ParamType::Address,
        ParamType::Uint(256),
        ParamType::String,
        ParamType::Bytes,
        ParamType::Bool,
        ParamType::Int(256),
        ParamType::Array(Box::new(ParamType::Uint(8))),
        ParamType::Tuple(vec![ParamType::Uint(256), ParamType::String]),
        ParamType::FixedBytes(3),
        ParamType::FixedArray(Box::new(ParamType::String), 2),
    ];
    let args = vec![
        text("0x00000000000000000000000000000000000000ff"),
        HostValue::Number(s("123456789")),
        text("h\u{e9}llo"),
        text("0xdeadbeef"),
        HostValue::Bool(true),
        text("-5"),
        HostValue::Sequence(vec![HostValue::Number(s("1")), HostValue::Number(s("2"))]),
        HostValue::Sequence(vec![text("7"), text("seven")]),
        text("0a0b0c"),
        HostValue::Sequence(vec![text("x"), text("")]),
    ];
    let tokens = tokenize_args(&types, &args).unwrap();
    let bytes = encode(&tokens);
    let back = decode(&types, &bytes).unwrap();
    assert_eq!(back, tokens);
}

#[test]
fn hex_formatting_round_trips_through_host() {
    let r = registry();
    let data = to_hex(&transfer_payload());
    let shown = r.decode_output(&s("token"), &s("transfer"), &data).unwrap();
    let again = r.encode_call(&s("token"), &s("transfer"), &shown).unwrap();
    assert_eq!(again, transfer_payload());
}

#[test]
fn static_tuple_encodes_inline() {
    let t = Token::Tuple(vec![Token::Uint(word(5)), Token::Bool(true)]);
    let out = encode(&vec![t]);
    let mut expected = word(5);
    expected.extend(word(1));
    assert_eq!(out, expected);
}

#[test]
fn dynamic_tuple_uses_offset() {
    let t = Token::Tuple(vec![Token::Uint(word(5)), Token::String(s("a"))]);
    let out = encode(&vec![t]);
    let mut expected = word(32);
    expected.extend(word(5));
    expected.extend(word(64));
    expected.extend(word(1));
    expected.push(b'a');
    expected.extend(vec![0u8; 31]);
    assert_eq!(out, expected);
}

#[test]
fn truncated_encoding_fails() {
    let types = vec![ParamType::String, ParamType::Uint(256), ParamType::Bytes];
    let tokens = vec![Token::String(s("hi")), Token::Uint(word(9)), Token::Bytes(vec![1, 2, 3])];
    let bytes = encode(&tokens);
    assert_eq!(decode(&types, &bytes).unwrap(), tokens);
    for n in 0..bytes.len() {
        let r = decode(&types, &bytes[..n]);
        assert!(
            r == Err(DecodeError::TruncatedInput) || r == Err(DecodeError::OffsetOutOfRange),
            "length {}",
            n
        );
    }
    assert_eq!(decode(&types, &bytes[..bytes.len() - 1]), Err(DecodeError::TruncatedInput));
    assert_eq!(decode(&types, &bytes[..40]), Err(DecodeError::OffsetOutOfRange));
}

#[test]
fn malformed_address_rejected() {
    assert_eq!(tokenize(&ParamType::Address, &text("0x1234")), Err(TokenizeError::MalformedAddress));
    assert_eq!(
        tokenize(&ParamType::Address, &text("zz00000000000000000000000000000000000001")),
        Err(TokenizeError::MalformedAddress)
    );
}

#[test]
fn fixed_bytes_length_mismatch() {
    assert_eq!(tokenize(&ParamType::FixedBytes(2), &text("0x010203")), Err(TokenizeError::LengthMismatch));
}

#[test]
fn tuple_and_fixed_array_length_mismatch() {
    let t = ParamType::Tuple(vec![ParamType::Bool, ParamType::Bool]);
    assert_eq!(
        tokenize(&t, &HostValue::Sequence(vec![HostValue::Bool(true)])),
        Err(TokenizeError::LengthMismatch)
    );
    let f = ParamType::FixedArray(Box::new(ParamType::Bool), 3);
    assert_eq!(
        tokenize(&f, &HostValue::Sequence(vec![HostValue::Bool(true)])),
        Err(TokenizeError::LengthMismatch)
    );
}

#[test]
fn invalid_number_rejected() {
    assert_eq!(tokenize(&ParamType::Uint(256), &text("12ab")), Err(TokenizeError::InvalidNumber));
    assert_eq!(tokenize(&ParamType::Int(256), &text("abc")), Err(TokenizeError::InvalidNumber));
}

#[test]
fn invalid_hex_rejected() {
    assert_eq!(tokenize(&ParamType::Bytes, &text("0x123")), Err(TokenizeError::InvalidHex));
}

#[test]
fn wrong_shape_rejected() {
    assert_eq!(tokenize(&ParamType::Bool, &text("true")), Err(TokenizeError::UnsupportedStructure));
    assert_eq!(
        tokenize(&ParamType::Array(Box::new(ParamType::Bool)), &HostValue::Null),
        Err(TokenizeError::UnsupportedStructure)
    );
}

#[test]
fn numbers_parse_leniently() {
    let one_ether = tokenize(&ParamType::Uint(256), &text("1ether")).unwrap();
    let mut w = vec![0u8; 24];
    w.extend_from_slice(&1_000_000_000_000_000_000u64.to_be_bytes());
    assert_eq!(one_ether, Token::Uint(w));
    let minus_one = tokenize(&ParamType::Int(256), &text("-1")).unwrap();
    assert_eq!(minus_one, Token::Int(vec![0xff; 32]));
}

#[test]
fn lookup_errors() {
    let r = registry();
    assert_eq!(r.encode_call(&s("none"), &s("transfer"), &vec![]), Err(CallError::InterfaceNotFound));
    assert_eq!(r.encode_call(&s("token"), &s("none"), &vec![]), Err(CallError::FunctionNotFound));
    assert_eq!(
        r.encode_call(&s("token"), &s("greet"), &vec![]),
        Err(CallError::Tokenize(TokenizeError::LengthMismatch))
    );
}

#[test]
fn decode_output_rejects_bad_hex() {
    let r = registry();
    assert_eq!(r.decode_output(&s("token"), &s("transfer"), &s("0xzz")), Err(CallError::InvalidHex));
}

#[test]
fn decode_bool_type_mismatch() {
    assert_eq!(decode(&vec![ParamType::Bool], &word(2)), Err(DecodeError::TypeMismatch));
}

#[test]
fn decode_offset_out_of_range() {
    let mut data = vec![1u8];
    data.extend(vec![0u8; 63]);
    assert_eq!(decode(&vec![ParamType::Bytes], &data), Err(DecodeError::OffsetOutOfRange));
}

#[test]
fn decode_invalid_utf8_string() {
    let mut data = word(32);
    data.extend(word(1));
    data.push(0xff);
    data.extend(vec![0u8; 31]);
    assert_eq!(decode(&vec![ParamType::String], &data), Err(DecodeError::TypeMismatch));
}

#[test]
fn decode_input_skips_selector() {
    let r = registry();
    let mut payload = vec![0xa9, 0x05, 0x9c, 0xbb];
    payload.extend(transfer_payload());
    let out = r.decode_input(&s("token"), &s("transfer"), &to_hex(&payload)).unwrap();
    assert_eq!(out, vec![text("0x0000000000000000000000000000000000000001"), text("1000")]);
    assert_eq!(
        r.decode_input(&s("token"), &s("transfer"), &s("0xa905")),
        Err(CallError::Decode(DecodeError::TruncatedInput))
    );
}

#[test]
fn render_shows_hex_and_decimal() {
    assert_eq!(render(&Token::Bytes(vec![0xab, 0x01])), text("0xab01"));
    assert_eq!(render(&Token::Uint(vec![0xff; 32])), text(
        "115792089237316195423570985008687907853269984665640564039457584007913129639935"
    ));
    assert_eq!(render(&Token::Uint(vec![0u8; 32])), text("0"));
    assert_eq!(
        render(&Token::Tuple(vec![Token::Bool(false), Token::String(s("z"))])),
        HostValue::Sequence(vec![HostValue::Bool(false), text("z")])
    );
}

#[test]
fn bytes_decode_from_hex_text() {
    assert_eq!(
        tokenize(&ParamType::Bytes, &text("0xDEadbeef")).unwrap(),
        Token::Bytes(vec![0xde, 0xad, 0xbe, 0xef])
    );
    assert_eq!(tokenize(&ParamType::Bytes, &text("")).unwrap(), Token::Bytes(vec![]));
}

#[test]
fn nested_arrays_round_trip() {
    let types = vec![
        ParamType::Array(Box::new(ParamType::Array(Box::new(ParamType::String)))),
        ParamType::FixedArray(Box::new(ParamType::Uint(256)), 0),
    ];
    let tokens = vec![
        Token::Array(vec![
            Token::Array(vec![Token::String(s("a")), Token::String(s("bc"))]),
            Token::Array(vec![]),
        ]),
        Token::FixedArray(vec![]),
    ];
    let bytes = encode(&tokens);
    assert_eq!(decode(&types, &bytes).unwrap(), tokens);
}

#[test]
fn render_signed_int() {
    assert_eq!(render(&Token::Int(vec![0xff; 32])), text("-1"));
    assert_eq!(render(&Token::Int(word(5))), text("5"));
    let mut min = vec![0u8; 32];
    min[0] = 0x80;
    assert_eq!(
        render(&Token::Int(min)),
        text("-57896044618658097711785492504343953926634992332820282019728792003956564819968")
    );
}

#[test]
fn negative_int_round_trips_through_host() {
    let r = registry();
    let payload = r.encode_call(&s("token"), &s("shift"), &vec![text("-5")]).unwrap();
    let shown = r.decode_output(&s("token"), &s("shift"), &to_hex(&payload)).unwrap();
    assert_eq!(shown, vec![text("-5")]);
    assert_eq!(r.encode_call(&s("token"), &s("shift"), &shown).unwrap(), payload);
}

#[test]
fn decode_offset_past_end() {
    let r = registry();
    let mut data = word(0x1000);
    data.extend(word(0));
    assert_eq!(
        r.decode_output(&s("token"), &s("greet"), &to_hex(&data)),
        Err(CallError::Decode(DecodeError::OffsetOutOfRange))
    );
}

#[test]
fn zero_size_elements_round_trip() {
    let types = vec![ParamType::Array(Box::new(ParamType::Tuple(vec![])))];
    let tokens = vec![Token::Array(vec![Token::Tuple(vec![]), Token::Tuple(vec![]), Token::Tuple(vec![])])];
    let bytes = encode(&tokens);
    assert_eq!(bytes.len(), 64);
    assert_eq!(decode(&types, &bytes).unwrap(), tokens);
}
