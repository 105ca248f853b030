use hotreload::codec::{decode_message, encode_message, Message};

#[test]
fn encode_import_complete_exact() {
    let m = Message::ImportComplete;
    assert_eq!(encode_message(&m), "{\"name\":\"import_complete\"}");
}

#[test]
fn encode_fork_request_exact() {
    let m = Message::ForkRequest {
        request_id: "abc-123".to_string(),
        request_name: "job".to_string(),
        code: "print('hi')".to_string(),
    };
    assert_eq!(
        encode_message(&m),
        "{\"name\":\"fork_request\",\"request_id\":\"abc-123\",\"request_name\":\"job\",\"code\":\"print('hi')\"}"
    );
}

#[test]
fn encode_escapes_specials() {
    let m = Message::UnknownError { error: "a\"b\\c\nd\re\tf".to_string() };
    assert_eq!(
        encode_message(&m),
        "{\"name\":\"unknown_error\",\"error\":\"a\\\"b\\\\c\\nd\\re\\tf\"}"
    );
}

#[test]
fn encode_fork_response_negative_pid() {
    let m = Message::ForkResponse {
        request_id: "id".to_string(),
        request_name: "n".to_string(),
        child_pid: -42,
    };
    assert_eq!(
        encode_message(&m),
        "{\"name\":\"fork_response\",\"request_id\":\"id\",\"request_name\":\"n\",\"child_pid\":-42}"
    );
}

#[test]
fn encode_child_complete_null_and_value() {
    let none = Message::ChildComplete { result: None };
    assert_eq!(encode_message(&none), "{\"name\":\"child_complete\",\"result\":null}");
    let some = Message::ChildComplete { result: Some("ok".to_string()) };
    assert_eq!(encode_message(&some), "{\"name\":\"child_complete\",\"result\":\"ok\"}");
}

#[test]
fn decode_round_trips_every_variant() {
    let messages = vec![
        Message::ImportComplete,
        Message::ImportError { error: "no module".to_string(), traceback: None },
        Message::ImportError {
            error: "no module".to_string(),
            traceback: Some("Traceback: line 1\nboom".to_string()),
        },
        Message::ForkRequest {
            request_id: "u-1".to_string(),
            request_name: "isolated".to_string(),
            code: "x = \"quoted\"\nprint(x)".to_string(),
        },
        Message::ForkResponse {
            request_id: "u-1".to_string(),
            request_name: "isolated".to_string(),
            child_pid: 4321,
        },
        Message::ChildComplete { result: Some("done".to_string()) },
        Message::ChildComplete { result: None },
        Message::ChildError { error: "boom".to_string(), traceback: Some("tb".to_string()) },
        Message::UnknownError { error: "?".to_string() },
        Message::ExitRequest { request_id: "u-1".to_string() },
    ];
    for m in messages {
        let line = encode_message(&m);
        assert_eq!(decode_message(&line), Some(m.clone()), "failed on line {line}");
    }
}

#[test]
fn decode_refuses_non_messages() {
    assert_eq!(decode_message("plain human output"), None);
    assert_eq!(decode_message(""), None);
    assert_eq!(decode_message("{\"name\":\"no_such_kind\"}"), None);
    // Well-formed JSON that is not in canonical field order is refused and
    // treated as human-readable output.
    assert_eq!(decode_message("{\"result\":null,\"name\":\"child_complete\"}"), None);
    // Extra whitespace is not canonical.
    assert_eq!(decode_message("{\"name\": \"import_complete\"}"), None);
    // Trailing garbage after the closing brace.
    assert_eq!(decode_message("{\"name\":\"import_complete\"}x"), None);
}

#[test]
fn decode_refuses_bad_numbers() {
    assert_eq!(decode_message(
        "{\"name\":\"fork_response\",\"request_id\":\"u\",\"request_name\":\"n\",\"child_pid\":99999999999}"
    ), None);
    // A pid with leading zeros is not the canonical encoding of any value.
    assert_eq!(decode_message(
        "{\"name\":\"fork_response\",\"request_id\":\"u\",\"request_name\":\"n\",\"child_pid\":007}"
    ), None);
}

#[test]
fn decode_extracts_fields() {
    let line = "{\"name\":\"child_error\",\"error\":\"division by zero\",\"traceback\":\"tb line\"}";
    match decode_message(line) {
        Some(Message::ChildError { error, traceback }) => {
            assert_eq!(error, "division by zero");
            assert_eq!(traceback, Some("tb line".to_string()));
        }
        other => panic!("unexpected decode: {other:?}"),
    }
}

#[test]
fn decode_refuses_raw_control_characters() {
    // A raw newline inside a string value is never canonical; the escaped
    // form is.
    assert_eq!(decode_message("{\"name\":\"unknown_error\",\"error\":\"a\nb\"}"), None);
    assert_eq!(
        decode_message("{\"name\":\"unknown_error\",\"error\":\"a\\nb\"}"),
        Some(Message::UnknownError { error: "a\nb".to_string() })
    );
}

#[test]
fn codec_round_trips_non_ascii_text() {
    let m = Message::ChildError {
        error: "départ raté \u{1F980}".to_string(),
        traceback: Some("ligne 1 → ligne 2".to_string()),
    };
    let line = encode_message(&m);
    assert_eq!(decode_message(&line), Some(m));
}
