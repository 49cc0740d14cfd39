//! Behavior of the line codec: serialization, parsing, round trips and
//! classification.

use qmp_engine::codec::{classify, parse_line, serialize_line, Class};
use qmp_engine::msg::{execute_command, get_field, Message};

fn obj(fields: Vec<(&str, Message)>) -> Message {
    Message::Obj(
        fields
            .into_iter()
            .map(|(k, v)| (k.as_bytes().to_vec(), v))
            .collect(),
    )
}

fn s(text: &str) -> Message {
    Message::Str(text.as_bytes().to_vec())
}

#[test]
fn round_trip_command() {
    let m = execute_command("query-status");
    let line = serialize_line(&m);
    let back = parse_line(&line).expect("serialized command must parse");
    assert_eq!(back, execute_command("query-status"));
}

#[test]
fn round_trip_nested_value() {
    let build = || {
        obj(vec![
            ("null", Message::Null),
            ("yes", Message::Bool(true)),
            ("no", Message::Bool(false)),
            ("count", Message::Int(42)),
            ("offset", Message::Int(-7)),
            ("text", s("with \"quotes\" and \\slash\\")),
            (
                "list",
                Message::Arr(vec![Message::Int(1), Message::Int(2), s("three")]),
            ),
            ("nested", obj(vec![("inner", obj(vec![]))])),
        ])
    };
    let line = serialize_line(&build());
    let back = parse_line(&line).expect("serialized value must parse");
    assert_eq!(back, build());
}

#[test]
fn serialize_capabilities_exact_bytes() {
    let line = serialize_line(&execute_command("qmp_capabilities"));
    assert_eq!(line, b"{\"execute\":\"qmp_capabilities\"}\n".to_vec());
}

#[test]
fn parse_accepts_whitespace_between_tokens() {
    let line = b" { \"return\" : { \"status\" : \"running\" } } \n".to_vec();
    let m = parse_line(&line).expect("spaced line must parse");
    assert_eq!(m, obj(vec![("return", obj(vec![("status", s("running"))]))]));
}

#[test]
fn parse_rejects_malformed_lines() {
    assert_eq!(parse_line(&b"not json".to_vec()), None);
    assert_eq!(parse_line(&b"{\"a\":}".to_vec()), None);
    assert_eq!(parse_line(&b"{\"a\":1".to_vec()), None);
    assert_eq!(parse_line(&b"{} trailing".to_vec()), None);
    assert_eq!(parse_line(&b"\"unterminated".to_vec()), None);
    // a raw control byte inside a string must travel escaped
    assert_eq!(parse_line(&b"\"a\x01b\"".to_vec()), None);
}

#[test]
fn parse_integer_limits() {
    // 18 digits are accepted exactly
    let m = parse_line(&b"123456789012345678".to_vec()).expect("18 digits parse");
    assert_eq!(m, Message::Int(123456789012345678));
    // 19 digits are rejected
    assert_eq!(parse_line(&b"1234567890123456789".to_vec()), None);
    let neg = parse_line(&b"-25".to_vec()).expect("negative parses");
    assert_eq!(neg, Message::Int(-25));
}

#[test]
fn parse_string_escapes() {
    let m = parse_line(&b"\"a\\\"b\\\\c\\n\"".to_vec()).expect("escapes parse");
    assert_eq!(m, Message::Str(b"a\"b\\c\n".to_vec()));
}

#[test]
fn classify_is_total_and_exclusive() {
    let greeting = parse_line(
        &b"{\"QMP\":{\"version\":{\"qemu\":{\"major\":6,\"minor\":2,\"micro\":0}}}}".to_vec(),
    )
    .unwrap();
    assert_eq!(classify(&greeting), Class::Greeting);

    let reply = parse_line(&b"{\"return\":{}}".to_vec()).unwrap();
    assert_eq!(classify(&reply), Class::Reply);

    let event = parse_line(&b"{\"event\":\"POWERDOWN\"}".to_vec()).unwrap();
    assert_eq!(classify(&event), Class::Event);

    let other = parse_line(&b"{\"timestamp\":12}".to_vec()).unwrap();
    assert_eq!(classify(&other), Class::Malformed);

    // an array is no envelope either
    let arr = parse_line(&b"[1,2]".to_vec()).unwrap();
    assert_eq!(classify(&arr), Class::Malformed);
}

#[test]
fn get_field_finds_first_occurrence() {
    let m = obj(vec![("a", Message::Int(1)), ("b", Message::Int(2))]);
    assert_eq!(get_field(&m, "b"), Some(&Message::Int(2)));
    assert_eq!(get_field(&m, "c"), None);
    assert_eq!(get_field(&Message::Int(3), "a"), None);
}

#[test]
fn round_trip_edge_values() {
    for build in [
        || Message::Obj(vec![]),
        || Message::Arr(vec![]),
        || Message::Int(0),
        || Message::Int(-999999999999999999),
        || Message::Str(vec![]),
    ] {
        let line = serialize_line(&build());
        assert_eq!(parse_line(&line), Some(build()));
    }
    assert_eq!(serialize_line(&Message::Int(0)), b"0\n".to_vec());
    assert_eq!(
        serialize_line(&Message::Arr(vec![Message::Null, Message::Bool(true)])),
        b"[null,true]\n".to_vec()
    );
}
