use datamanager::handler::{handle_line, handle_message, run_session};
use datamanager::message::{
    GetDataRequest, LabeledValue, Message, SetDataRequest, Status, Value,
};
use datamanager::store::Store;

#[test]
fn test_serve_set_request_and_get_request() {
    let mut store = Store::new();

    // send SetDataRequest
    let message = Message::SetDataRequest(SetDataRequest {
        tag: Some("ABC".to_string()),
        params: vec![
            LabeledValue {
                label: "SP1".to_string(),
                value: Value::Float("3.0".to_string()),
            },
            LabeledValue {
                label: "NE1".to_string(),
                value: Value::Int(10),
            },
        ],
    });

    // recv SendDataResponse
    if let Some(Message::SetDataResponse(r)) = handle_message(&mut store, message) {
        assert_eq!(r.tag, Some("ABC".to_string()));
        assert_eq!(r.status, Status::OK);
    } else {
        assert!(false);
    }

    // send GetDataRequest
    let message = Message::GetDataRequest(GetDataRequest {
        tag: Some("123".to_string()),
        params: vec!["NE1".to_string(), "SP1".to_string()],
    });

    // recv GetDataResponse
    if let Some(Message::GetDataResponse(r)) = handle_message(&mut store, message) {
        assert_eq!(r.tag, Some("123".to_string()));
        assert_eq!(r.status, Status::OK);
        assert_eq!(r.results[0].label, "NE1".to_string());
        assert_eq!(r.results[0].value, Value::Int(10));
        assert_eq!(r.results[1].label, "SP1".to_string());
        assert_eq!(r.results[1].value, Value::Float("3.0".to_string()));
    } else {
        assert!(false);
    }
}

#[test]
fn test_get_request_not_found_label() {
    let mut store = Store::new();

    // send SetDataRequest
    let message = Message::SetDataRequest(SetDataRequest {
        tag: None,
        params: vec![LabeledValue {
            label: "SP1".to_string(),
            value: Value::Float("3.0".to_string()),
        }],
    });

    // recv SendDataResponse
    let response = handle_message(&mut store, message);
    assert!(matches!(response, Some(Message::SetDataResponse(..))));

    // send GetDataRequest
    let message = Message::GetDataRequest(GetDataRequest {
        tag: None,
        params: vec!["NE1".to_string(), "SP1".to_string()],
    });

    // recv GetDataResponse
    if let Some(Message::GetDataResponse(r)) = handle_message(&mut store, message) {
        assert_eq!(r.status, Status::NotFound);
        assert_eq!(r.results[0].label, "NE1".to_string());
        assert_eq!(r.results[0].value, Value::Null);
        assert_eq!(r.results[1].label, "SP1".to_string());
        assert_eq!(r.results[1].value, Value::Float("3.0".to_string()));
    } else {
        assert!(false);
    }
}

#[test]
fn duplicate_label_overwrite() {
    let mut store = Store::new();
    let message = Message::SetDataRequest(SetDataRequest {
        tag: None,
        params: vec![
            LabeledValue {
                label: "SP1".to_string(),
                value: Value::Int(1),
            },
            LabeledValue {
                label: "SP1".to_string(),
                value: Value::Int(2),
            },
        ],
    });
    let response = handle_message(&mut store, message);
    assert!(matches!(response, Some(Message::SetDataResponse(..))));
    assert_eq!(store.get(&"SP1".to_string()), Some(&Value::Int(2)));
}

#[test]
fn malformed_line_stops_connection() {
    let mut store = Store::new();
    let result = handle_line(&mut store, "not json");
    assert!(result.is_err());
    // the store is untouched and no response text was produced
    assert_eq!(store.contains(&"SP1".to_string()), false);
}

#[test]
fn null_value_is_present_but_absent() {
    let mut store = Store::new();
    let set = Message::SetDataRequest(SetDataRequest {
        tag: None,
        params: vec![LabeledValue {
            label: "X".to_string(),
            value: Value::Null,
        }],
    });
    handle_message(&mut store, set);
    // the label is present, with an absent value: OK, not NotFound
    let get = Message::GetDataRequest(GetDataRequest {
        tag: None,
        params: vec!["X".to_string()],
    });
    if let Some(Message::GetDataResponse(r)) = handle_message(&mut store, get) {
        assert_eq!(r.status, Status::OK);
        assert_eq!(r.results[0].value, Value::Null);
    } else {
        assert!(false);
    }
}

#[test]
fn responses_are_ignored_by_the_handler() {
    let mut store = Store::new();
    let response = handle_line(
        &mut store,
        r#"{"command":"SetDataResponse","status":"OK"}"#,
    );
    assert_eq!(response.unwrap(), None);
}

#[test]
fn handle_line_round_trip() {
    let mut store = Store::new();
    let reply = handle_line(
        &mut store,
        r#"{"command":"SetDataRequest","tag":"T1","params":[{"label":"A","value":7}]}"#,
    )
    .unwrap()
    .unwrap();
    assert_eq!(
        reply,
        "{\"command\":\"SetDataResponse\",\"tag\":\"T1\",\"status\":\"OK\"}\n"
    );
    let reply = handle_line(&mut store, r#"{"command":"GetDataRequest","params":["A"]}"#)
        .unwrap()
        .unwrap();
    assert_eq!(
        reply,
        "{\"command\":\"GetDataResponse\",\"status\":\"OK\",\"results\":[{\"label\":\"A\",\"value\":7}]}\n"
    );
}

#[test]
fn run_session_processes_lines_in_order() {
    let mut store = Store::new();
    let input = "{\"command\":\"SetDataRequest\",\"tag\":\"A\",\"params\":[{\"label\":\"SP1\",\"value\":3.0}]}\n{\"command\":\"GetDataRequest\",\"params\":[\"SP1\"]}\n";
    let (responses, err) = run_session(&mut store, input);
    assert!(err.is_none());
    assert_eq!(responses.len(), 2);
    assert!(matches!(responses[0], Message::SetDataResponse(..)));
    if let Message::GetDataResponse(r) = &responses[1] {
        assert_eq!(r.status, Status::OK);
        assert_eq!(r.results[0].value, Value::Float("3.0".to_string()));
    } else {
        assert!(false);
    }
}

#[test]
fn run_session_stops_at_first_malformed_line() {
    let mut store = Store::new();
    let input = "{\"command\":\"SetDataRequest\",\"params\":[{\"label\":\"SP1\",\"value\":1}]}\nnot json\n{\"command\":\"GetDataRequest\",\"params\":[\"SP1\"]}\n";
    let (responses, err) = run_session(&mut store, input);
    // one response for the line before the error, none for it or after
    assert!(err.is_some());
    assert_eq!(responses.len(), 1);
    assert!(matches!(responses[0], Message::SetDataResponse(..)));
    // the first line's effect on the store stands
    assert_eq!(store.get(&"SP1".to_string()), Some(&Value::Int(1)));
}
