use ludwig::{Body, Response, ReturnValue, StrMap};

fn content_type(r: &Response) -> Option<String> {
    r.headers.get(&String::from("content-type")).cloned()
}

#[test]
fn unit_becomes_204_with_empty_body() {
    let r = Response::from_value(ReturnValue::Unit);
    assert_eq!(r.status, 204);
    assert_eq!(r.body, Body::Empty);
    assert_eq!(content_type(&r), None);
}

#[test]
fn static_text_becomes_200_text_plain() {
    let r = Response::from_value(ReturnValue::StaticText("okay, I guess"));
    assert_eq!(r.status, 200);
    assert_eq!(content_type(&r), Some("text/plain; charset=utf-8".to_string()));
    assert_eq!(r.body, Body::StaticText("okay, I guess"));
}

#[test]
fn owned_text_becomes_200_text_plain() {
    let r = Response::from_value(ReturnValue::OwnedText("hi".to_string()));
    assert_eq!(r.status, 200);
    assert_eq!(content_type(&r), Some("text/plain; charset=utf-8".to_string()));
    assert_eq!(r.body, Body::OwnedText("hi".to_string()));
}

#[test]
fn json_becomes_200_application_json() {
    let v = ludwig::JsonValue::Object(vec![(
        "message".to_string(),
        ludwig::JsonValue::Text("hello world".to_string()),
    )]);
    let r = Response::from_value(ReturnValue::Json(v));
    assert_eq!(r.status, 200);
    assert_eq!(content_type(&r), Some("application/json; charset=utf-8".to_string()));
}

#[test]
fn static_bytes_become_200_octet_stream() {
    let r = Response::from_value(ReturnValue::StaticBytes(b"\x01\x02"));
    assert_eq!(r.status, 200);
    assert_eq!(content_type(&r), Some("application/octet-stream".to_string()));
    assert_eq!(r.body, Body::StaticBytes(b"\x01\x02"));
}

#[test]
fn owned_bytes_become_200_octet_stream() {
    let r = Response::from_value(ReturnValue::OwnedBytes(vec![1, 2, 3]));
    assert_eq!(r.status, 200);
    assert_eq!(content_type(&r), Some("application/octet-stream".to_string()));
    assert_eq!(r.body, Body::OwnedBytes(vec![1, 2, 3]));
}

#[test]
fn present_optional_converts_as_its_value() {
    let r = Response::from_value(ReturnValue::Optional(Some(Box::new(ReturnValue::StaticText(
        "here",
    )))));
    assert_eq!(r.status, 200);
    assert_eq!(r.body, Body::StaticText("here"));
}

#[test]
fn absent_optional_converts_as_unit() {
    let r = Response::from_value(ReturnValue::Optional(None));
    assert_eq!(r.status, 204);
    assert_eq!(r.body, Body::Empty);
    assert_eq!(content_type(&r), None);
}

#[test]
fn successful_fallible_converts_as_its_value() {
    let r = Response::from_value(ReturnValue::Fallible(Ok(Box::new(ReturnValue::OwnedText(
        "fine".to_string(),
    )))));
    assert_eq!(r.status, 200);
    assert_eq!(r.body, Body::OwnedText("fine".to_string()));
}

#[test]
fn failed_fallible_becomes_500_with_display_text() {
    let r = Response::from_value(ReturnValue::Fallible(Err("disk error".to_string())));
    assert_eq!(r.status, 500);
    assert_eq!(content_type(&r), Some("text/plain; charset=utf-8".to_string()));
    assert_eq!(r.body, Body::OwnedText("disk error".to_string()));
}

#[test]
fn pair_overrides_status_and_nothing_else() {
    let plain = Response::from_value(ReturnValue::StaticText("hello world"));
    let paired = Response::from_value(ReturnValue::WithStatus(
        201,
        Box::new(ReturnValue::StaticText("hello world")),
    ));
    assert_eq!(paired.status, 201);
    assert_eq!(paired.body, plain.body);
    assert_eq!(content_type(&paired), content_type(&plain));
}

#[test]
fn triple_merges_headers_and_triple_wins_collisions() {
    let mut extra = StrMap::new();
    extra.insert("x-clacks-overhead".to_string(), "GNU/Terry Pratchett".to_string());
    extra.insert("content-type".to_string(), "text/x-custom".to_string());
    let r = Response::from_value(ReturnValue::WithHeaders(
        201,
        extra,
        Box::new(ReturnValue::StaticText("hello world")),
    ));
    assert_eq!(r.status, 201);
    assert_eq!(
        r.headers.get(&String::from("x-clacks-overhead")),
        Some(&"GNU/Terry Pratchett".to_string())
    );
    assert_eq!(content_type(&r), Some("text/x-custom".to_string()));
    assert_eq!(r.body, Body::StaticText("hello world"));
}

#[test]
fn nested_shapes_compose_to_one_response() {
    let v = ReturnValue::Fallible(Ok(Box::new(ReturnValue::WithStatus(
        418,
        Box::new(ReturnValue::Json(ludwig::JsonValue::Bool(true))),
    ))));
    let r = Response::from_value(v);
    assert_eq!(r.status, 418);
    assert_eq!(content_type(&r), Some("application/json; charset=utf-8".to_string()));
    assert_eq!(r.body, Body::Json(ludwig::JsonValue::Bool(true)));
}

#[test]
fn default_response_is_the_sentinel() {
    let r = Response::default();
    assert_eq!(r.status, 0);
    assert_eq!(r.body, Body::Empty);
    assert!(r.headers.entries().is_empty());
}
