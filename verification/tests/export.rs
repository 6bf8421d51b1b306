use kimi_agent::export::{
    check_session_dir, export_output_path, exported_session_id, found_session_dir, last_session_for,
    session_to_export, work_dir_record_index, ExportArgs, ExportError, WorkDirRecord,
};

fn records() -> Vec<WorkDirRecord> {
    vec![
        WorkDirRecord { path: "/other".into(), last_session_id: Some("o1".into()) },
        WorkDirRecord { path: "/work".into(), last_session_id: Some("w1".into()) },
        WorkDirRecord { path: "/work".into(), last_session_id: Some("w2".into()) },
        WorkDirRecord { path: "/fresh".into(), last_session_id: None },
    ]
}

fn args(session_id: Option<&str>, output: Option<&str>) -> ExportArgs {
    ExportArgs { session_id: session_id.map(|s| s.to_string()), output: output.map(|s| s.to_string()) }
}

#[test]
fn last_session_of_first_matching_work_dir() {
    assert_eq!(last_session_for(&records(), "/work"), Some("w1".to_string()));
    assert_eq!(last_session_for(&records(), "/fresh"), None);
    assert_eq!(last_session_for(&records(), "/missing"), None);
}

#[test]
fn session_to_export_prefers_the_one_asked_for() {
    assert_eq!(session_to_export(&args(Some("abc"), None), &records(), "/work"), Ok("abc".to_string()));
    assert_eq!(session_to_export(&args(None, None), &records(), "/work"), Ok("w1".to_string()));
    assert_eq!(session_to_export(&args(None, None), &records(), "/fresh"), Err(ExportError::NoPreviousSession));
}

#[test]
fn missing_sessions_are_reported_by_message() {
    let named = found_session_dir(&args(Some("abc"), None), "abc", None).unwrap_err();
    assert_eq!(named.message(), "Session 'abc' not found.");
    let previous = found_session_dir(&args(None, None), "w1", None).unwrap_err();
    assert_eq!(previous.message(), "No previous session found for the working directory.");
    assert_eq!(
        found_session_dir(&args(None, None), "w1", Some("/s/w1".to_string())),
        Ok("/s/w1".to_string())
    );
    let gone = check_session_dir(false).unwrap_err();
    assert_eq!(gone.message(), "Session directory does not exist.");
    assert_eq!(check_session_dir(true), Ok(()));
}

#[test]
fn archive_goes_where_asked_or_next_to_the_caller() {
    assert_eq!(exported_session_id("/share/sessions/h/abc"), "abc");
    assert_eq!(exported_session_id("/"), "unknown");
    assert_eq!(export_output_path(&args(None, Some("out.zip")), "/cwd", "abc"), "out.zip");
    assert_eq!(export_output_path(&args(None, None), "/cwd", "abc"), "/cwd/session-abc.zip");
}

#[test]
fn work_dir_record_index_finds_the_first_match() {
    let records = records();
    assert_eq!(work_dir_record_index(&records, "/work"), Some(1));
    assert_eq!(work_dir_record_index(&records, "/other"), Some(0));
    assert_eq!(work_dir_record_index(&records, "/none"), None);
}
