use bittorrent::decode::{decode, decode_prefix, MAX_DEPTH};
use bittorrent::encode::encode;
use bittorrent::json::{decode_bencoded_value, to_json, Json};
use bittorrent::model::{DecodeError, Value};

fn bytes(s: &str) -> Value {
    Value::Bytes(s.as_bytes().to_vec())
}

fn dict(entries: Vec<(&str, Value)>) -> Value {
    Value::Dict(
        entries
            .into_iter()
            .map(|(k, v)| (k.as_bytes().to_vec(), v))
            .collect(),
    )
}

fn err(input: &[u8]) -> DecodeError {
    decode(input).unwrap_err()
}

#[test]
fn prefix_reports_bytes_consumed() {
    assert_eq!(decode_prefix(b"5:helloo").unwrap(), (bytes("hello"), 7));
}

#[test]
fn whole_input_rejects_trailing_bytes() {
    assert_eq!(err(b"5:helloo"), DecodeError::TrailingData);
    assert_eq!(decode(b"5:hello").unwrap(), bytes("hello"));
}

#[test]
fn negative_integer() {
    assert_eq!(decode(b"i-789e").unwrap(), Value::Int(-789));
}

#[test]
fn integer_limits() {
    assert_eq!(decode(b"i9223372036854775807e").unwrap(), Value::Int(i64::MAX));
    assert_eq!(decode(b"i-9223372036854775808e").unwrap(), Value::Int(i64::MIN));
    assert_eq!(err(b"i9223372036854775808e"), DecodeError::InvalidInteger);
    assert_eq!(err(b"i-9223372036854775809e"), DecodeError::InvalidInteger);
    assert_eq!(decode(b"i0e").unwrap(), Value::Int(0));
}

#[test]
fn nested_containers() {
    let expected = dict(vec![(
        "a",
        dict(vec![("b", Value::List(vec![Value::Int(1), Value::Int(2)]))]),
    )]);
    assert_eq!(decode(b"d1:ad1:bli1ei2eeee").unwrap(), expected);
}

#[test]
fn empty_containers() {
    assert_eq!(decode(b"le").unwrap(), Value::List(vec![]));
    assert_eq!(decode(b"de").unwrap(), Value::Dict(vec![]));
}

#[test]
fn truncation_errors() {
    assert_eq!(err(b"d3:key5:value"), DecodeError::UnterminatedDict);
    assert_eq!(err(b"i123456"), DecodeError::InvalidInteger);
    assert_eq!(err(b"l"), DecodeError::UnterminatedList);
    assert_eq!(err(b"li42e"), DecodeError::UnterminatedList);
    assert_eq!(err(b"6:hello"), DecodeError::UnexpectedEof);
    assert_eq!(err(b""), DecodeError::UnexpectedEof);
}

#[test]
fn each_error_kind() {
    assert_eq!(err(b"x"), DecodeError::InvalidTag);
    assert_eq!(err(b":hello"), DecodeError::InvalidTag);
    assert_eq!(err(b"5hello"), DecodeError::InvalidLength);
    assert_eq!(err(b"05:hello"), DecodeError::InvalidLength);
    assert_eq!(err(b"ixyzee"), DecodeError::InvalidInteger);
    assert_eq!(err(b"ie"), DecodeError::InvalidInteger);
    assert_eq!(err(b"di1e3:fooe"), DecodeError::InvalidKey);
    assert_eq!(
        to_json(&Value::Bytes(vec![0xff, 0xfe])).unwrap_err(),
        DecodeError::NotUtf8
    );
    assert_eq!(
        to_json(&Value::Dict(vec![(vec![0xc3], Value::Int(1))])).unwrap_err(),
        DecodeError::KeyNotUtf8
    );
}

#[test]
fn leading_zeros_and_negative_zero_rejected() {
    assert_eq!(err(b"i01e"), DecodeError::InvalidInteger);
    assert_eq!(err(b"i-0e"), DecodeError::InvalidInteger);
    assert_eq!(err(b"i-e"), DecodeError::InvalidInteger);
}

#[test]
fn nesting_limit() {
    let mut deep = vec![b'l'; MAX_DEPTH];
    deep.extend(vec![b'e'; MAX_DEPTH]);
    assert!(decode(&deep).is_ok());
    let mut deeper = vec![b'l'; MAX_DEPTH + 1];
    deeper.extend(vec![b'e'; MAX_DEPTH + 1]);
    assert_eq!(err(&deeper), DecodeError::NestingTooDeep);
}

#[test]
fn canonical_encode_ordering() {
    let v = dict(vec![("hello", Value::Int(1)), ("a", bytes("x"))]);
    assert_eq!(encode(&v), b"d1:a1:x5:helloi1ee".to_vec());
}

#[test]
fn encode_orders_by_raw_bytes_and_keeps_equal_keys() {
    let v = dict(vec![
        ("b", Value::Int(2)),
        ("ab", Value::Int(1)),
        ("b", Value::Int(3)),
        ("a", Value::Int(0)),
    ]);
    assert_eq!(encode(&v), b"d1:ai0e2:abi1e1:bi2e1:bi3ee".to_vec());
}

#[test]
fn encode_scalars() {
    assert_eq!(encode(&Value::Int(0)), b"i0e".to_vec());
    assert_eq!(encode(&Value::Int(-42)), b"i-42e".to_vec());
    assert_eq!(encode(&Value::Int(i64::MIN)), b"i-9223372036854775808e".to_vec());
    assert_eq!(encode(&bytes("")), b"0:".to_vec());
    assert_eq!(encode(&bytes("spam")), b"4:spam".to_vec());
    assert_eq!(
        encode(&Value::List(vec![bytes("spam"), Value::Int(42)])),
        b"l4:spami42ee".to_vec()
    );
}

#[test]
fn round_trip_examples() {
    let v = dict(vec![
        ("a", Value::List(vec![Value::Int(-1), bytes(""), Value::List(vec![])])),
        ("b", Value::Bytes(vec![0, 255, 10])),
        ("c", dict(vec![("x", Value::Int(i64::MAX))])),
    ]);
    assert_eq!(decode(&encode(&v)).unwrap(), v);
}

#[test]
fn repeated_rejection_is_identical() {
    for input in [&b"i01e"[..], b"l", b"d3:key", b"x", b"5hello"] {
        assert_eq!(decode(input), decode(input));
        assert!(decode(input).is_err());
    }
}

#[test]
fn non_text_byte_string() {
    let input = b"2:\xff\xfe";
    let v = decode(input).unwrap();
    assert_eq!(v, Value::Bytes(vec![0xff, 0xfe]));
    assert_eq!(to_json(&v).unwrap_err(), DecodeError::NotUtf8);
    assert_eq!(decode_bencoded_value("1:é"), Err(DecodeError::NotUtf8));
    assert_eq!(
        decode_bencoded_value("2:é").unwrap(),
        Json::Str("é".to_string())
    );
}

#[test]
fn duplicate_keys_are_kept_in_order() {
    assert_eq!(
        decode(b"d1:ai1e1:ai2ee").unwrap(),
        dict(vec![("a", Value::Int(1)), ("a", Value::Int(2))])
    );
}

#[test]
fn dictionary_ending_after_key() {
    assert_eq!(err(b"d3:key"), DecodeError::UnterminatedDict);
    assert_eq!(err(b"d3:keyi1e"), DecodeError::UnterminatedDict);
    assert_eq!(err(b"d3:ke"), DecodeError::UnexpectedEof);
}
