use kimi_agent::json::{JsonNumber, JsonValue};
use kimi_agent::session::{
    context_has_messages, context_lines_have_messages, context_migration_needed, context_migration_paths, jsonl_append,
    session_ids_from_entries, session_is_empty, session_paths, session_title, shorten_text,
    sort_sessions, strip_message_nulls, user_input_to_text, ContentPart, ContextLine,
    ContextParseError, Session, SessionDirEntry, UserInput, WireRecord,
};
use kimi_agent::session::{
    interrupted_turn_lines, read_wire_records, turn_record_document, user_message_document, wire_record_of,
};

fn from_serde(v: &serde_json::Value) -> JsonValue {
    match v {
        serde_json::Value::Null => JsonValue::Null,
        serde_json::Value::Bool(b) => JsonValue::Bool(*b),
        serde_json::Value::Number(n) => {
            if let Some(u) = n.as_u64() {
                JsonValue::Number(JsonNumber::PosInt(u))
            } else if let Some(i) = n.as_i64() {
                JsonValue::Number(JsonNumber::NegInt(i))
            } else {
                JsonValue::Number(JsonNumber::Float(n.as_f64().unwrap_or(0.0).to_bits()))
            }
        }
        serde_json::Value::String(s) => JsonValue::String(s.clone()),
        serde_json::Value::Array(items) => JsonValue::Array(items.iter().map(from_serde).collect()),
        serde_json::Value::Object(map) => {
            JsonValue::Object(map.iter().map(|(k, v)| (k.clone(), from_serde(v))).collect())
        }
    }
}

fn to_serde(v: &JsonValue) -> serde_json::Value {
    match v {
        JsonValue::Null => serde_json::Value::Null,
        JsonValue::Bool(b) => serde_json::Value::Bool(*b),
        JsonValue::Number(JsonNumber::PosInt(u)) => serde_json::Value::from(*u),
        JsonValue::Number(JsonNumber::NegInt(i)) => serde_json::Value::from(*i),
        JsonValue::Number(JsonNumber::Float(bits)) => serde_json::Value::from(f64::from_bits(*bits)),
        JsonValue::String(s) => serde_json::Value::String(s.clone()),
        JsonValue::Array(items) => serde_json::Value::Array(items.iter().map(to_serde).collect()),
        JsonValue::Object(entries) => {
            let mut map = serde_json::Map::new();
            for (k, v) in entries {
                map.insert(k.clone(), to_serde(v));
            }
            serde_json::Value::Object(map)
        }
    }
}

fn json(text: &str) -> serde_json::Value {
    serde_json::from_str(text).expect("valid json")
}

fn stripped(text: &str) -> serde_json::Value {
    let mut v = from_serde(&json(text));
    strip_message_nulls(&mut v);
    to_serde(&v)
}

fn session(id: &str, updated_at: u128) -> Session {
    let mut s = Session::located(id, "/work", "/share/sessions/abc");
    s.updated_at = updated_at;
    s
}

#[test]
fn user_input_text_of_plain_text() {
    assert_eq!(user_input_to_text(&UserInput::Text("hello there".into())), "hello there");
}

#[test]
fn user_input_text_joins_text_parts_with_spaces() {
    let input = UserInput::Parts(vec![
        ContentPart::Text("look at".into()),
        ContentPart::ImageUrl("http://x/y.png".into()),
        ContentPart::Think("hmm".into()),
        ContentPart::Text("this".into()),
    ]);
    assert_eq!(user_input_to_text(&input), "look at this");
    assert_eq!(user_input_to_text(&UserInput::Parts(Vec::new())), "");
}

#[test]
fn shorten_text_collapses_white_space() {
    assert_eq!(shorten_text("  hello \n\t world  ", 50), "hello world");
    assert_eq!(shorten_text(" \n\t ", 50), "");
}

#[test]
fn shorten_text_cuts_at_last_space_before_target() {
    assert_eq!(shorten_text("aaaa bbbb cccc", 10), "aaaa...");
    assert_eq!(shorten_text("aaaa bbbb cccc", 14), "aaaa bbbb cccc");
    assert_eq!(shorten_text("aaaa bbbb cccc", 13), "aaaa bbbb...");
}

#[test]
fn shorten_text_placeholder_only() {
    assert_eq!(shorten_text("abcdefghijk", 5), "...");
    assert_eq!(shorten_text("abcdef", 3), "...");
    assert_eq!(shorten_text("ab", 0), "...");
}

#[test]
fn session_title_from_first_turn() {
    let records = vec![
        WireRecord::Unreadable,
        WireRecord::Other,
        WireRecord::TurnBegin(UserInput::Text("  fix   the build ".into())),
        WireRecord::TurnBegin(UserInput::Text("second".into())),
    ];
    assert_eq!(session_title("s1", &records), "fix the build (s1)");
    assert_eq!(session_title("s2", &vec![WireRecord::Other]), "Untitled (s2)");
}

#[test]
fn refresh_sets_title_and_time() {
    let mut s = Session::located("abc", "/work", "/share/sessions/h");
    assert_eq!(s.context_file, "/share/sessions/h/abc/context.jsonl");
    assert_eq!(s.wire_file(), "/share/sessions/h/abc/wire.jsonl");
    assert_eq!(s.dir(), "/share/sessions/h/abc");
    s.refresh(Some(1234), &vec![WireRecord::TurnBegin(UserInput::Text("hi".into()))]);
    assert_eq!(s.title, "hi (abc)");
    assert_eq!(s.updated_at, 1234);
    s.refresh(None, &Vec::new());
    assert_eq!(s.title, "Untitled (abc)");
    assert_eq!(s.updated_at, 0);
}

#[test]
fn sessions_sort_newest_first() {
    let sorted = sort_sessions(vec![session("a", 5), session("b", 9), session("c", 1), session("d", 9)]);
    let ids: Vec<&str> = sorted.iter().map(|s| s.id.as_str()).collect();
    assert_eq!(ids, vec!["b", "d", "a", "c"]);
}

#[test]
fn session_paths_and_migration_paths() {
    let (dir, context, wire) = session_paths("/s", "id1");
    assert_eq!((dir.as_str(), context.as_str(), wire.as_str()), ("/s/id1", "/s/id1/context.jsonl", "/s/id1/wire.jsonl"));
    let (old, new) = context_migration_paths("/s/", "id1");
    assert_eq!((old.as_str(), new.as_str()), ("/s/id1.jsonl", "/s/id1/context.jsonl"));
}

#[test]
fn session_emptiness() {
    assert!(session_is_empty(true, Some(0)));
    assert!(session_is_empty(true, None));
    assert!(!session_is_empty(true, Some(10)));
    assert!(!session_is_empty(false, Some(0)));
}

#[test]
fn session_ids_from_directory_entries() {
    let entries = vec![
        SessionDirEntry { name: "s1".into(), is_dir: true },
        SessionDirEntry { name: "s2.jsonl".into(), is_dir: false },
        SessionDirEntry { name: "s1.jsonl".into(), is_dir: false },
        SessionDirEntry { name: "notes.txt".into(), is_dir: false },
        SessionDirEntry { name: ".jsonl".into(), is_dir: false },
        SessionDirEntry { name: "a.b.jsonl".into(), is_dir: false },
    ];
    assert_eq!(session_ids_from_entries(&entries), vec!["s1".to_string(), "s2".to_string(), "a.b".to_string()]);
}

#[test]
fn context_with_only_bookkeeping_has_no_messages() {
    let content = "\n{\"role\": \"_usage\", \"token_count\": 5}\n   \n{\"role\":\"_checkpoint\",\"id\":0}\n";
    assert_eq!(context_has_messages(content), Ok(false));
    assert_eq!(context_has_messages(""), Ok(false));
}

#[test]
fn context_with_a_message_has_messages() {
    let content = "{\"role\": \"_checkpoint\", \"id\": 0}\r\n{\"role\": \"user\", \"content\": \"hi\"}\nnot json";
    assert_eq!(context_has_messages(content), Ok(true));
}

#[test]
fn context_with_bad_line_before_a_message_fails() {
    assert_eq!(context_has_messages("{\"role\": \"_usage\"}\n{oops\n{\"role\": \"user\"}"), Err(ContextParseError));
}

#[test]
fn context_lines_decide_in_order() {
    let lines = vec![
        ContextLine::Blank,
        ContextLine::Record(from_serde(&json("{\"role\": \"_usage\"}"))),
        ContextLine::Record(from_serde(&json("[1]"))),
        ContextLine::Unparsable,
    ];
    assert_eq!(context_lines_have_messages(&lines), Ok(true));
    assert_eq!(context_lines_have_messages(&vec![ContextLine::Unparsable]), Err(ContextParseError));
}

#[test]
fn jsonl_append_adds_missing_newline() {
    assert_eq!(jsonl_append(Some(b'}'), "{\"a\":1}"), "\n{\"a\":1}\n");
    assert_eq!(jsonl_append(Some(b'\n'), "{}"), "{}\n");
    assert_eq!(jsonl_append(None, "{}"), "{}\n");
}

#[test]
fn strip_message_nulls_removes_null_optional_fields() {
    let got = stripped(
        r#"{"role": "assistant", "content": "x", "name": null, "tool_call_id": null, "partial": null,
            "tool_calls": [
                {"type": "function", "id": "1", "extras": null, "function": {"name": "f", "arguments": null}},
                {"type": "function", "id": "2", "extras": {"k": 1}, "function": {"name": "g", "arguments": "{}"}},
                7
            ]}"#,
    );
    let expected = json(
        r#"{"role": "assistant", "content": "x",
            "tool_calls": [
                {"type": "function", "id": "1", "function": {"name": "f"}},
                {"type": "function", "id": "2", "extras": {"k": 1}, "function": {"name": "g", "arguments": "{}"}},
                7
            ]}"#,
    );
    assert_eq!(got, expected);
}

#[test]
fn strip_message_nulls_keeps_other_nulls_and_non_objects() {
    assert_eq!(stripped(r#"{"role": "user", "content": null, "tool_calls": null}"#), json(r#"{"role": "user", "content": null}"#));
    assert_eq!(stripped("[null]"), json("[null]"));
    let once = stripped(r#"{"name": null, "tool_calls": [{"extras": null}]}"#);
    assert_eq!(once, json(r#"{"tool_calls": [{}]}"#));
}

#[test]
fn shorten_text_counts_bytes() {
    assert_eq!(shorten_text("héllo wörld abc", 10), "héllo...");
    assert_eq!(shorten_text("héllo wörld", 13), "héllo wörld");
    assert_eq!(shorten_text("héllo wörld", 12), "héllo...");
    assert_eq!(shorten_text("héllo wörld", 11), "héllo...");
}

#[test]
fn strip_message_nulls_twice_is_once() {
    let text = r#"{"role": "assistant", "name": null, "partial": false,
        "tool_calls": [{"id": "1", "extras": null, "function": {"name": "f", "arguments": null}}]}"#;
    let once = stripped(text);
    assert_eq!(stripped(&once.to_string()), once);
}

#[test]
fn wire_records_are_read_line_by_line() {
    let content = [
        r#"{"type": "metadata", "protocol_version": "1"}"#,
        "",
        r#"{"message": {"type": "StepBegin", "payload": {}}}"#,
        r#"  {"message": {"type": "TurnBegin", "payload": {"user_input": "hello"}}}  "#,
        "not json",
        r#"{"message": {"type": "TurnBegin", "payload": {"user_input": [{"type": "text", "text": "a"}, {"type": "image_url", "image_url": {"url": "u"}}, {"type": "x"}]}}}"#,
        r#"{"message": {"type": "TurnBegin", "payload": {"user_input": 5}}}"#,
    ]
    .join("\n");
    let content = content.as_str();
    let records = read_wire_records(content);
    assert_eq!(records.len(), 5);
    assert!(matches!(records[0], WireRecord::Other));
    assert!(matches!(&records[1], WireRecord::TurnBegin(UserInput::Text(t)) if t == "hello"));
    assert!(matches!(records[2], WireRecord::Unreadable));
    match &records[3] {
        WireRecord::TurnBegin(UserInput::Parts(ps)) => {
            assert_eq!(ps.len(), 2);
            assert!(matches!(&ps[0], ContentPart::Text(t) if t == "a"));
            assert!(matches!(&ps[1], ContentPart::ImageUrl(u) if u == "u"));
        }
        _ => panic!("expected a turn with parts"),
    }
    assert!(matches!(records[4], WireRecord::Unreadable));
    assert!(wire_record_of("{\"no_message\": 1}").is_none());
    assert_eq!(session_title("s", &records), "hello (s)");
}

#[test]
fn interrupted_turn_documents_read_back() {
    let input = UserInput::Parts(vec![
        ContentPart::Text("fix it".into()),
        ContentPart::VideoUrl("v".into()),
        ContentPart::Think("hm".into()),
    ]);
    let message = to_serde(&user_message_document(&input));
    assert_eq!(
        message,
        json(r#"{"role": "user", "content": [{"type": "text", "text": "fix it"}, {"type": "video_url", "video_url": {"url": "v"}}, {"type": "think", "think": "hm"}]}"#)
    );
    assert_eq!(context_has_messages(&message.to_string()), Ok(true));
    let plain = to_serde(&user_message_document(&UserInput::Text("hi".into())));
    assert_eq!(plain, json(r#"{"role": "user", "content": [{"type": "text", "text": "hi"}]}"#));
    let record = to_serde(&turn_record_document(&input)).to_string();
    match wire_record_of(&record) {
        Some(WireRecord::TurnBegin(UserInput::Parts(ps))) => {
            assert_eq!(ps.len(), 3);
            assert!(matches!(&ps[1], ContentPart::VideoUrl(u) if u == "v"));
        }
        _ => panic!("expected the turn back"),
    }
    let record = to_serde(&turn_record_document(&UserInput::Text("go".into()))).to_string();
    assert!(matches!(wire_record_of(&record), Some(WireRecord::TurnBegin(UserInput::Text(t))) if t == "go"));
}

#[test]
fn interrupted_turn_lines_are_compact_json() {
    let (message, record) = interrupted_turn_lines(&UserInput::Text("hi\nthere".into()));
    assert_eq!(message, r#"{"content":[{"text":"hi\nthere","type":"text"}],"role":"user"}"#);
    assert_eq!(record, r#"{"message":{"payload":{"user_input":"hi\nthere"},"type":"TurnBegin"}}"#);
}

#[test]
fn interrupted_turn_lines_are_kept_once() {
    let input = UserInput::Parts(vec![ContentPart::Text("a".into()), ContentPart::ImageUrl("u".into())]);
    let (message, record) = interrupted_turn_lines(&input);
    assert!(!message.contains('\n') && !record.contains('\n'));
    let context = "{\"role\": \"_usage\", \"token_count\": 3}";
    assert_eq!(context_has_messages(context), Ok(false));
    let context = format!("{}{}", context, jsonl_append(Some(b'}'), &message));
    assert_eq!(context_has_messages(&context), Ok(true));
    let wire = jsonl_append(None, &record);
    let records = read_wire_records(&wire);
    assert_eq!(records.len(), 1);
    match &records[0] {
        WireRecord::TurnBegin(UserInput::Parts(ps)) => {
            assert_eq!(ps.len(), 2);
            assert!(matches!(&ps[0], ContentPart::Text(t) if t == "a"));
            assert!(matches!(&ps[1], ContentPart::ImageUrl(u) if u == "u"));
        }
        _ => panic!("expected the turn back"),
    }
}

#[test]
fn context_migration_needs_an_old_file_and_no_new_one() {
    assert!(context_migration_needed(true, false));
    assert!(!context_migration_needed(true, true));
    assert!(!context_migration_needed(false, false));
    assert!(!context_migration_needed(false, true));
}

#[test]
fn fresh_session_is_empty() {
    let wire_is_empty = read_wire_records("").is_empty();
    assert!(wire_is_empty);
    assert!(session_is_empty(wire_is_empty, Some(0)));
}
