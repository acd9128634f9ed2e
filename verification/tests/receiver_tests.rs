use datamanager::decode::decode;
use datamanager::encode::encode_line;
use datamanager::message::{GetDataRequest, Message, Value};

#[test]
fn test_message_receive() {
    let test_message = format!(
        "{}\n{}\n",
        r#"{"command":"GetDataRequest","params":["SP1"]}"#,
        r#"{"command":"SetDataRequest","params":[{"label":"SP1","value":34.5}]}"#
    );

    let mut message_count = 0;
    for line in test_message.lines() {
        let message = decode(line).unwrap();
        // each decoded message can be echoed back on the shared outbound side
        let echoed = encode_line(&message);
        assert!(echoed.ends_with('\n'));
        message_count += 1;
    }
    assert_eq!(message_count, 2);
}

#[test]
fn test_send_as_json() {
    let message = Message::GetDataRequest(GetDataRequest {
        tag: Some("ABC".to_string()),
        params: vec!["SP1".to_string()],
    });

    let json = encode_line(&message);

    let expected = format!(
        "{}\n",
        r#"{"command":"GetDataRequest","tag":"ABC","params":["SP1"]}"#
    );

    assert_eq!(json, expected);
}

#[test]
fn test_receive_as_json() {
    let input = format!(
        "{}\n{}\n",
        r#"{"command":"GetDataRequest", "tag":"ABC", "params": ["SP1"]}"#,
        r#"{"command":"SetDataRequest", "params":[{"label": "NE1", "value": -3.14}]}"#
    );

    let mut messages = Vec::new();
    for line in input.lines() {
        match decode(line).unwrap() {
            m @ Message::GetDataRequest(..) => messages.push(m),
            m @ Message::SetDataRequest(..) => messages.push(m),
            _ => (),
        }
    }

    if let Message::GetDataRequest(req) = &messages[0] {
        assert_eq!(req.tag, Some("ABC".to_string()));
        assert_eq!(req.params[0], "SP1".to_string());
    } else {
        assert!(false);
    }

    if let Message::SetDataRequest(req) = &messages[1] {
        assert_eq!(req.tag, None);
        assert_eq!(req.params[0].label, "NE1".to_string());
        assert_eq!(req.params[0].value, Value::Float("-3.14".to_string()));
    } else {
        assert!(false);
    }
}

#[test]
fn float_text_is_canonicalized_on_decode() {
    // a non-canonical literal comes back in canonical form: the value,
    // not the spelling, is what the store holds
    let json = r#"{"command":"SetDataRequest","params":[{"label":"SP1","value":3.140}]}"#;
    if let Message::SetDataRequest(m) = decode(json).unwrap() {
        assert_eq!(m.params[0].value, Value::Float("3.14".to_string()));
    } else {
        assert!(false);
    }
    // an integer literal beyond the signed 64-bit range is a float
    let json = r#"{"command":"SetDataRequest","params":[{"label":"SP1","value":1e3}]}"#;
    if let Message::SetDataRequest(m) = decode(json).unwrap() {
        assert_eq!(m.params[0].value, Value::Float("1000.0".to_string()));
    } else {
        assert!(false);
    }
}

#[test]
fn encode_decode_round_trip() {
    let lines = [
        r#"{"command":"GetDataRequest","tag":"ABC","params":["SP1","NE1"]}"#,
        r#"{"command":"GetDataResponse","status":"NotFound","results":[{"label":"a b","value":null}]}"#,
        r#"{"command":"SetDataRequest","params":[{"label":"x","value":-42},{"label":"y","value":"a\"b\\c"}]}"#,
        r#"{"command":"SetDataResponse","tag":"9","status":"InvalidRequest"}"#,
    ];
    for line in lines {
        let message = decode(line).unwrap();
        let encoded = datamanager::encode::encode(&message);
        assert_eq!(encoded, *line);
        let again = decode(&encoded).unwrap();
        assert_eq!(datamanager::encode::encode(&again), *line);
    }
}

#[test]
fn decode_rejects_malformed_lines() {
    let bad = [
        "not json",
        "",
        "{}",
        r#"{"command":"GetDataRequest"}"#,
        r#"{"command":"Unknown","params":[]}"#,
        r#"{"command":"GetDataRequest","params":["a"],"params":["b"]}"#,
        r#"{"command":"SetDataResponse","status":"ok"}"#,
        r#"{"command":"GetDataRequest","params":["a"]} extra"#,
        r#"{"command":"SetDataRequest","params":[{"label":"x","value":01}]}"#,
    ];
    for line in bad {
        assert!(decode(line).is_err(), "accepted: {line}");
    }
}

#[test]
fn decode_handles_escapes_and_big_integers() {
    let json = "{\"command\":\"SetDataRequest\",\"params\":[{\"label\":\"\\u0041\\n\",\"value\":9223372036854775807}]}";
    if let Message::SetDataRequest(m) = decode(json).unwrap() {
        assert_eq!(m.params[0].label, "A\n");
        assert_eq!(m.params[0].value, Value::Int(i64::MAX));
    } else {
        assert!(false);
    }
    // one past the signed range becomes a float
    let json = r#"{"command":"SetDataRequest","params":[{"label":"x","value":9223372036854775808}]}"#;
    if let Message::SetDataRequest(m) = decode(json).unwrap() {
        assert_eq!(
            m.params[0].value,
            Value::Float("9223372036854775808".to_string())
        );
    } else {
        assert!(false);
    }
}
