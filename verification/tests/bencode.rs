use dht_lens::bencode::{as_bytes, as_int, dict_get, encode, parse, parse_prefix, BencodeError, Dict, Value};

#[test]
fn parse_prefix_ignores_bencode_markers_inside_strings() {
    let input = b"d8:msg_typei1e5:piecei0eeabcdef";
    let (value, consumed) = parse_prefix(input).expect("valid prefix dict");

    assert_eq!(consumed, 25);
    let Value::Dict(dict) = value else {
        panic!("expected dict");
    };
    assert_eq!(dict_get(&dict, b"msg_type").and_then(as_int), Some(1));
    assert_eq!(dict_get(&dict, b"piece").and_then(as_int), Some(0));
    assert_eq!(&input[consumed..], b"abcdef");
}

fn dict(entries: Vec<(&[u8], Value)>) -> Value {
    let mut d = Dict::new();
    for (k, v) in entries {
        d.insert(k.to_vec(), v);
    }
    Value::Dict(d)
}

fn sample() -> Value {
    dict(vec![
        (b"a", Value::Int(-42)),
        (b"list", Value::List(vec![Value::Bytes(b"spam".to_vec()), Value::Int(0), Value::List(vec![])])),
        (b"z", dict(vec![])),
    ])
}

#[test]
fn encode_writes_keys_in_increasing_order() {
    let mut out = Vec::new();
    encode(&dict(vec![(b"b", Value::Int(1)), (b"a", Value::List(vec![Value::Bytes(b"x".to_vec())]))]), &mut out);
    assert_eq!(out, b"d1:al1:xe1:bi1ee".to_vec());
    let mut out = Vec::new();
    encode(&Value::Int(-42), &mut out);
    assert_eq!(out, b"i-42e".to_vec());
    let mut out = Vec::new();
    encode(&Value::Bytes(b"spam".to_vec()), &mut out);
    assert_eq!(out, b"4:spam".to_vec());
    let mut out = Vec::new();
    encode(&Value::Bytes(Vec::new()), &mut out);
    assert_eq!(out, b"0:".to_vec());
}

#[test]
fn dict_insert_replaces_an_equal_key() {
    let mut d = Dict::new();
    d.insert(b"k".to_vec(), Value::Int(1));
    d.insert(b"a".to_vec(), Value::Int(2));
    d.insert(b"k".to_vec(), Value::Int(3));
    assert_eq!(d.entries().len(), 2);
    assert_eq!(d.entries()[0].0, b"a".to_vec());
    assert_eq!(dict_get(&d, b"k"), Some(&Value::Int(3)));
}

#[test]
fn encode_writes_canonical_text() {
    let mut out = Vec::new();
    encode(&sample(), &mut out);
    assert_eq!(out, b"d1:ai-42e4:listl4:spami0elee1:zdee".to_vec());
}

#[test]
fn parse_of_encode_gives_the_value_back() {
    let mut out = Vec::new();
    encode(&sample(), &mut out);
    assert_eq!(parse(&out), Ok(sample()));
}

#[test]
fn parse_prefix_of_encode_leaves_the_rest() {
    let mut out = Vec::new();
    encode(&sample(), &mut out);
    let len = out.len();
    out.extend_from_slice(b"tail");
    let (value, consumed) = parse_prefix(&out).unwrap();
    assert_eq!(value, sample());
    assert_eq!(consumed, len);
}

#[test]
fn parse_sorts_keys_and_keeps_the_last_duplicate() {
    let value = parse(b"d1:bi1e1:ai2e1:bi3ee").unwrap();
    assert_eq!(
        value,
        dict(vec![(b"a", Value::Int(2)), (b"b", Value::Int(3))])
    );
}

#[test]
fn parse_accepts_signs_and_leading_zeros() {
    assert_eq!(parse(b"i+7e"), Ok(Value::Int(7)));
    assert_eq!(parse(b"i-0e"), Ok(Value::Int(0)));
    assert_eq!(parse(b"i007e"), Ok(Value::Int(7)));
    assert_eq!(parse(b"i-9223372036854775808e"), Ok(Value::Int(i64::MIN)));
    assert_eq!(parse(b"+3:abc"), Err(BencodeError::InvalidByte(b'+')));
    assert_eq!(parse(b"d+1:ai1ee"), Ok(dict(vec![(b"a", Value::Int(1))])));
}

#[test]
fn parse_errors() {
    assert_eq!(parse(b""), Err(BencodeError::UnexpectedEnd));
    assert_eq!(parse(b"x"), Err(BencodeError::InvalidByte(b'x')));
    assert_eq!(parse(b"i12"), Err(BencodeError::UnterminatedInt));
    assert_eq!(parse(b"i1x2e"), Err(BencodeError::InvalidInt));
    assert_eq!(parse(b"i9223372036854775808e"), Err(BencodeError::InvalidInt));
    assert_eq!(parse(b"ie"), Err(BencodeError::InvalidInt));
    assert_eq!(parse(b"12"), Err(BencodeError::UnterminatedLength));
    assert_eq!(parse(b"d:e"), Err(BencodeError::InvalidLength));
    assert_eq!(parse(b"18446744073709551615:x"), Err(BencodeError::LengthOverflow));
    assert_eq!(parse(b"5:abc"), Err(BencodeError::StringExceedsInput));
    assert_eq!(parse(b"li1e"), Err(BencodeError::UnterminatedList));
    assert_eq!(parse(b"d1:ai1e"), Err(BencodeError::UnterminatedDict));
    assert_eq!(parse(b"i1ei2e"), Err(BencodeError::TrailingBytes));
}

#[test]
fn accessors() {
    let bytes = Value::Bytes(b"xy".to_vec());
    assert_eq!(as_bytes(&bytes), Some(&b"xy"[..]));
    assert_eq!(as_int(&bytes), None);
    assert_eq!(as_int(&Value::Int(5)), Some(5));
    assert_eq!(as_bytes(&Value::Int(5)), None);
    let Value::Dict(dict) = sample() else { unreachable!() };
    assert_eq!(dict_get(&dict, b"a"), Some(&Value::Int(-42)));
    assert_eq!(dict_get(&dict, b"missing"), None);
}

#[test]
fn a_parsed_prefix_parses_alone() {
    let input = b"d8:msg_typei1e5:piecei0eeabcdef";
    let (value, consumed) = parse_prefix(input).unwrap();
    assert_eq!(parse(&input[..consumed]), Ok(value));
}
