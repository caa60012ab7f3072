use ludwig::{decode, encode, JsonValue};

fn round_trips(v: JsonValue) {
    let text = encode(&v);
    assert_eq!(decode(&text), Some(v));
}

#[test]
fn encodes_literals() {
    assert_eq!(encode(&JsonValue::Null), "null");
    assert_eq!(encode(&JsonValue::Bool(true)), "true");
    assert_eq!(encode(&JsonValue::Bool(false)), "false");
}

#[test]
fn encodes_integers() {
    assert_eq!(encode(&JsonValue::Int(0)), "0");
    assert_eq!(encode(&JsonValue::Int(42)), "42");
    assert_eq!(encode(&JsonValue::Int(-7)), "-7");
    assert_eq!(encode(&JsonValue::Int(i64::MAX)), "9223372036854775807");
    assert_eq!(encode(&JsonValue::Int(i64::MIN)), "-9223372036854775808");
}

#[test]
fn encodes_strings_with_escapes() {
    assert_eq!(
        encode(&JsonValue::Text("say \"hi\"\n\t\\".to_string())),
        "\"say \\\"hi\\\"\\n\\t\\\\\""
    );
}

#[test]
fn encodes_the_hello_world_object() {
    let v = JsonValue::Object(vec![(
        "message".to_string(),
        JsonValue::Text("hello world".to_string()),
    )]);
    assert_eq!(encode(&v), "{\"message\":\"hello world\"}");
}

#[test]
fn encodes_nested_arrays_and_objects() {
    let v = JsonValue::Array(vec![
        JsonValue::Int(1),
        JsonValue::Array(vec![]),
        JsonValue::Object(vec![
            ("a".to_string(), JsonValue::Null),
            ("b".to_string(), JsonValue::Array(vec![JsonValue::Bool(false)])),
        ]),
    ]);
    assert_eq!(encode(&v), "[1,[],{\"a\":null,\"b\":[false]}]");
}

#[test]
fn decode_inverts_encode() {
    round_trips(JsonValue::Null);
    round_trips(JsonValue::Bool(true));
    round_trips(JsonValue::Bool(false));
    round_trips(JsonValue::Int(0));
    round_trips(JsonValue::Int(-12345));
    round_trips(JsonValue::Int(i64::MIN));
    round_trips(JsonValue::Int(i64::MAX));
    round_trips(JsonValue::Text(String::new()));
    round_trips(JsonValue::Text("plain".to_string()));
    round_trips(JsonValue::Text("quote \" slash \\ nl \n cr \r tab \t".to_string()));
    round_trips(JsonValue::Array(vec![]));
    round_trips(JsonValue::Object(vec![]));
    round_trips(JsonValue::Object(vec![(
        "message".to_string(),
        JsonValue::Text("hello world".to_string()),
    )]));
    round_trips(JsonValue::Array(vec![
        JsonValue::Int(-1),
        JsonValue::Text("x".to_string()),
        JsonValue::Object(vec![("k".to_string(), JsonValue::Array(vec![JsonValue::Null]))]),
    ]));
}

#[test]
fn control_characters_get_code_point_escapes() {
    assert_eq!(
        encode(&JsonValue::Text("a\u{1}b\u{1f}".to_string())),
        "\"a\\u0001b\\u001f\""
    );
}

#[test]
fn control_characters_round_trip() {
    round_trips(JsonValue::Text("\u{0}\u{1}\u{b}\u{1f}".to_string()));
    round_trips(JsonValue::Text("mixed \u{2} text \n done".to_string()));
}

#[test]
fn decode_rejects_what_encode_never_writes() {
    assert_eq!(decode(" null"), None);
    assert_eq!(decode("nul"), None);
    assert_eq!(decode("01"), None);
    assert_eq!(decode("-0"), None);
    assert_eq!(decode("[1,]"), None);
    assert_eq!(decode("{\"a\" :1}"), None);
    assert_eq!(decode("\"unterminated"), None);
    assert_eq!(decode("truefalse"), None);
    assert_eq!(decode(""), None);
    assert_eq!(decode("\"\\u0041\""), None);
    assert_eq!(decode("\"\\u000a\""), None);
}

#[test]
fn decode_accepts_exactly_the_canonical_text() {
    assert_eq!(
        decode("{\"message\":\"hello world\"}"),
        Some(JsonValue::Object(vec![(
            "message".to_string(),
            JsonValue::Text("hello world".to_string()),
        )]))
    );
}
