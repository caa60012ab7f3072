use ludwig::{Body, JsonValue, RenderError, WirePayload};

#[test]
fn empty_body_renders_as_nothing() {
    assert_eq!(Body::Empty.into_wire(), Ok(WirePayload::Empty));
}

#[test]
fn text_bodies_pass_through() {
    assert_eq!(Body::StaticText("hi").into_wire(), Ok(WirePayload::StaticText("hi")));
    assert_eq!(
        Body::OwnedText("hi".to_string()).into_wire(),
        Ok(WirePayload::Text("hi".to_string()))
    );
}

#[test]
fn byte_bodies_pass_through() {
    assert_eq!(Body::StaticBytes(b"\x00\x01").into_wire(), Ok(WirePayload::StaticBytes(b"\x00\x01")));
    assert_eq!(Body::OwnedBytes(vec![9]).into_wire(), Ok(WirePayload::Bytes(vec![9])));
}

#[test]
fn json_body_renders_as_its_canonical_text() {
    let v = JsonValue::Object(vec![(
        "message".to_string(),
        JsonValue::Text("hello world".to_string()),
    )]);
    assert_eq!(
        Body::Json(v).into_wire(),
        Ok(WirePayload::Text("{\"message\":\"hello world\"}".to_string()))
    );
}

#[test]
fn error_payload_renders_as_its_text() {
    assert_eq!(
        Body::ErrorPayload("went wrong".to_string()).into_wire(),
        Ok(WirePayload::Text("went wrong".to_string()))
    );
}

#[test]
fn reserved_bodies_are_reported_not_fatal() {
    assert_eq!(Body::Mapping(vec![]).into_wire(), Err(RenderError::Unsupported));
    assert_eq!(Body::Sequence(vec![]).into_wire(), Err(RenderError::Unsupported));
}
