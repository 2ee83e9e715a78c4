use bittorrent::json::{decode_bencoded_value, Json};

fn text(s: &str) -> Json {
    Json::Str(s.to_string())
}

fn object(members: Vec<(&str, Json)>) -> Json {
    Json::Object(members.into_iter().map(|(k, v)| (k.to_string(), v)).collect())
}

#[test]
fn decode_string_valid() {
    assert_eq!(decode_bencoded_value("5:hello").unwrap(), text("hello"));
}

#[test]
fn decode_string_empty() {
    assert_eq!(decode_bencoded_value("0:").unwrap(), text(""));
}

#[test]
#[should_panic]
fn decode_string_non_numeric_length() {
    decode_bencoded_value(":hello").unwrap();
}

#[test]
#[should_panic]
fn decode_string_missing_colon() {
    decode_bencoded_value("5hello").unwrap();
}

#[test]
#[should_panic]
fn decode_string_invalid_length() {
    decode_bencoded_value("invalid:hello").unwrap();
}

#[test]
#[should_panic]
fn decode_string_invalid_length_is_bigger() {
    decode_bencoded_value("6:hello").unwrap();
}

#[test]
fn decode_string_length_is_smaller() {
    assert_eq!(decode_bencoded_value("5:helloo").unwrap(), text("hello"));
}

#[test]
fn decode_number_valid() {
    assert_eq!(decode_bencoded_value("i123456e").unwrap(), Json::Int(123456));
}

#[test]
fn decode_number_valid_negative() {
    assert_eq!(decode_bencoded_value("i-789e").unwrap(), Json::Int(-789));
}

#[test]
#[should_panic]
fn decode_number_invalid_missing_end() {
    decode_bencoded_value("i123456").unwrap();
}

#[test]
#[should_panic]
fn decode_number_invalid() {
    decode_bencoded_value("ixyzee").unwrap();
}

#[test]
#[should_panic]
fn decode_number_invalid_empty() {
    decode_bencoded_value("ie").unwrap();
}

#[test]
fn decode_list_valid_empty() {
    assert_eq!(decode_bencoded_value("le").unwrap(), Json::Array(vec![]));
}

#[test]
fn decode_list_valid_single_element() {
    assert_eq!(
        decode_bencoded_value("li42ee").unwrap(),
        Json::Array(vec![Json::Int(42)])
    );
}

#[test]
fn decode_list_valid_multiple_elements() {
    assert_eq!(
        decode_bencoded_value("li42e5:helloi123ee").unwrap(),
        Json::Array(vec![Json::Int(42), text("hello"), Json::Int(123)])
    );
}

#[test]
fn decode_list_valid_nested() {
    assert_eq!(
        decode_bencoded_value("lli42eee").unwrap(),
        Json::Array(vec![Json::Array(vec![Json::Int(42)])])
    );
}

#[test]
#[should_panic]
fn decode_list_invalid_empty() {
    decode_bencoded_value("l").unwrap();
}

#[test]
#[should_panic]
fn decode_list_invalid_missing_end() {
    decode_bencoded_value("li42e").unwrap();
}

#[test]
fn decode_dictionary_valid_empty() {
    assert_eq!(decode_bencoded_value("de").unwrap(), object(vec![]));
}

#[test]
fn decode_dictionary_valid_single_element() {
    assert_eq!(
        decode_bencoded_value("d3:key5:valuee").unwrap(),
        object(vec![("key", text("value"))])
    );
}

#[test]
fn decode_dictionary_valid_multiple_elements() {
    assert_eq!(
        decode_bencoded_value("d3:key5:value5:helloi123ee").unwrap(),
        object(vec![("key", text("value")), ("hello", Json::Int(123))])
    );
}

#[test]
fn decode_dictionary_valid_nested() {
    assert_eq!(
        decode_bencoded_value("d1:ad1:b3:fooee").unwrap(),
        object(vec![("a", object(vec![("b", text("foo"))]))])
    );
}

#[test]
fn decode_dictionary_valid_with_nested_list() {
    assert_eq!(
        decode_bencoded_value("d1:ali1ei2ei3eee").unwrap(),
        object(vec![(
            "a",
            Json::Array(vec![Json::Int(1), Json::Int(2), Json::Int(3)])
        )])
    );
}

#[test]
fn decode_dictionary_valid_nested_with_list() {
    assert_eq!(
        decode_bencoded_value("d1:ad1:bli1ei2eeee").unwrap(),
        object(vec![(
            "a",
            object(vec![("b", Json::Array(vec![Json::Int(1), Json::Int(2)]))])
        )])
    );
}

#[test]
#[should_panic]
fn decode_dictionary_invalid_missing_end() {
    decode_bencoded_value("d3:key5:value").unwrap();
}
