use noctalia_global_menu_bridge::niri::{event_from_json, focused_window_from_json, parse_event_line, JsonValue, NiriError, NiriEvent, NiriWindow};

#[test]
fn parses_externally_tagged_focus_event() {
    let line = r#"{"WindowFocusChanged":{"id":30}}"#;
    match parse_event_line(line).unwrap() {
        NiriEvent::WindowFocusChanged { id } => assert_eq!(id, 30),
        other => panic!("unexpected: {other:?}"),
    }
}

#[test]
fn unknown_event_falls_through_to_other() {
    let line = r#"{"SomeFutureEvent":{"x":1}}"#;
    assert!(matches!(parse_event_line(line).unwrap(), NiriEvent::Other));
    let line2 = r#"{"WindowFocusChanged":{"id":30},"ExtraKey":1}"#;
    assert!(matches!(parse_event_line(line2).unwrap(), NiriEvent::Other));
    let line3 = r#"not json at all"#;
    assert!(parse_event_line(line3).is_err());
}

#[test]
fn parses_windows_changed_with_full_window_list() {
    let line = r#"{"WindowsChanged":{"windows":[
      {"id":30,"title":"pi-web-access","app_id":"google-chrome-canary","pid":1310790,"workspace_id":2,"is_focused":false,"is_floating":false,"is_urgent":false,"layout":{},"focus_timestamp":{"secs":1,"nanos":2}},
      {"id":34,"title":"PiPlus","app_id":"piplus","pid":1377900,"workspace_id":2,"is_focused":true,"is_floating":false,"is_urgent":false,"layout":{},"focus_timestamp":{"secs":1,"nanos":2}}
    ]}}"#;
    match parse_event_line(line).unwrap() {
        NiriEvent::WindowsChanged { windows } => {
            assert_eq!(windows.len(), 2);
            assert_eq!(windows[1].id, 34);
            assert_eq!(windows[1].pid, 1377900);
            assert!(windows[1].is_focused);
        }
        other => panic!("unexpected: {other:?}"),
    }
}

#[test]
fn parses_workspace_active_window_event() {
    let line = r#"{"WorkspaceActiveWindowChanged":{"workspace_id":2,"active_window_id":34}}"#;
    match parse_event_line(line).unwrap() {
        NiriEvent::WorkspaceActiveWindowChanged { workspace_id, active_window_id } => {
            assert_eq!(workspace_id, 2);
            assert_eq!(active_window_id, Some(34));
        }
        other => panic!("unexpected: {other:?}"),
    }
    let line2 = r#"{"WorkspaceActiveWindowChanged":{"workspace_id":2,"active_window_id":null}}"#;
    match parse_event_line(line2).unwrap() {
        NiriEvent::WorkspaceActiveWindowChanged { active_window_id, .. } => {
            assert_eq!(active_window_id, None);
        }
        other => panic!("unexpected: {other:?}"),
    }
}

#[test]
fn focused_window_extraction() {
    let windows = vec![
        NiriWindow { id: 1, title: "a".into(), app_id: "x".into(), pid: 10, workspace_id: Some(1), is_focused: false },
        NiriWindow { id: 2, title: "b".into(), app_id: "y".into(), pid: 20, workspace_id: Some(1), is_focused: true },
    ];
    assert_eq!(focused_window_from_json(&windows).unwrap().id, 2);
    assert!(focused_window_from_json(&vec![]).is_none());
}

#[test]
fn non_object_line_is_refused() {
    assert!(matches!(parse_event_line("[1,2]"), Err(NiriError::NotAnObject)));
    assert!(matches!(parse_event_line("42"), Err(NiriError::NotAnObject)));
    assert!(matches!(parse_event_line("not json at all"), Err(NiriError::NotJson)));
    assert!(matches!(parse_event_line(""), Err(NiriError::NotJson)));
    assert!(matches!(parse_event_line("{}").unwrap(), NiriEvent::Other));
    // the decoding step alone, on the library's JSON model
    let v = JsonValue::Object(vec![("WindowFocusChanged".to_string(), JsonValue::Object(vec![("id".to_string(), JsonValue::Number(Some(9)))]))]);
    assert!(matches!(event_from_json(&v), Ok(NiriEvent::WindowFocusChanged { id: 9 })));
    assert!(matches!(event_from_json(&JsonValue::Null), Err(NiriError::NotAnObject)));
}

#[test]
fn missing_or_mistyped_ids_read_as_zero() {
    match parse_event_line(r#"{"WindowFocusChanged":{}}"#).unwrap() {
        NiriEvent::WindowFocusChanged { id } => assert_eq!(id, 0),
        other => panic!("unexpected: {other:?}"),
    }
    match parse_event_line(r#"{"WindowFocusTimestampChanged":{"id":-3}}"#).unwrap() {
        NiriEvent::WindowFocusTimestampChanged { id } => assert_eq!(id, 0),
        other => panic!("unexpected: {other:?}"),
    }
}

#[test]
fn one_bad_window_empties_the_list() {
    let line = r#"{"WindowsChanged":{"windows":[{"id":1,"title":"a","app_id":"x","pid":10},{"id":2,"title":"b","pid":20}]}}"#;
    match parse_event_line(line).unwrap() {
        NiriEvent::WindowsChanged { windows } => assert!(windows.is_empty()),
        other => panic!("unexpected: {other:?}"),
    }
    let line2 = r#"{"WindowsChanged":{"windows":[{"id":1,"title":"a","app_id":"x","pid":10}]}}"#;
    match parse_event_line(line2).unwrap() {
        NiriEvent::WindowsChanged { windows } => {
            assert_eq!(windows.len(), 1);
            assert_eq!(windows[0].workspace_id, None);
            assert!(!windows[0].is_focused);
        }
        other => panic!("unexpected: {other:?}"),
    }
    let line3 = r#"{"WindowsChanged":{"windows":[[7,"t","a",5,null,true]]}}"#;
    match parse_event_line(line3).unwrap() {
        NiriEvent::WindowsChanged { windows } => {
            assert_eq!(windows[0].id, 7);
            assert!(windows[0].is_focused);
        }
        other => panic!("unexpected: {other:?}"),
    }
    let line4 = r#"{"WindowsChanged":{"windows":[{"id":1,"title":"a","app_id":"x","pid":4294967296}]}}"#;
    match parse_event_line(line4).unwrap() {
        NiriEvent::WindowsChanged { windows } => assert!(windows.is_empty()),
        other => panic!("unexpected: {other:?}"),
    }
}
