use detamu::analyzers::{
    containing_symbol, directory_uri, file_uri, notification_step, response_step, LspStep, innermost_symbol, map_lsp_error, module_parts, relative_path, supported_symbol_kind,
    uri_path, LspError, LspHeaders, Position, Range, SymbolLocation,
};
use detamu::model::AnalyzerError;

fn position(line: u64, character: u64) -> Position {
    Position { line: Some(line), character: Some(character) }
}

fn range(start: (u64, u64), end: (u64, u64)) -> Range {
    Range { start: Some(position(start.0, start.1)), end: Some(position(end.0, end.1)) }
}

fn catalog() -> Vec<SymbolLocation> {
    vec![
        SymbolLocation { path: "src/lib.rs".to_owned(), range: range((0, 0), (10, 0)) },
        SymbolLocation { path: "src/lib.rs".to_owned(), range: range((2, 0), (4, 0)) },
    ]
}

#[test]
fn selects_the_innermost_symbol_containing_a_reference() {
    let selected = containing_symbol(
        &catalog(),
        "file:///tmp/detamu-ra-fixture/src/lib.rs",
        position(3, 1),
        "/tmp/detamu-ra-fixture",
    )
    .expect("map location")
    .expect("containing symbol");
    assert_eq!(selected, 1);
}

#[test]
fn positions_outside_every_symbol_select_none() {
    assert_eq!(innermost_symbol(&catalog(), "src/lib.rs", position(11, 0)), None);
    assert_eq!(innermost_symbol(&catalog(), "src/main.rs", position(3, 0)), None);
    assert_eq!(innermost_symbol(&catalog(), "src/lib.rs", position(5, 0)), Some(0));
}

#[test]
fn uris_outside_the_workspace_are_errors() {
    match uri_path("file:///elsewhere/src/lib.rs", "/tmp/ws") {
        Err(AnalyzerError::Failed(m)) => assert_eq!(m, "path escaped semantic workspace: /elsewhere/src/lib.rs"),
        other => panic!("unexpected {other:?}"),
    }
    match uri_path("https://example.com/x", "/tmp/ws") {
        Err(AnalyzerError::Failed(m)) => assert_eq!(m, "LSP URI is not a file: https://example.com/x"),
        other => panic!("unexpected {other:?}"),
    }
    match uri_path("not a uri", "/tmp/ws") {
        Err(AnalyzerError::Failed(m)) => assert!(m.starts_with("parse LSP URI: ")),
        other => panic!("unexpected {other:?}"),
    }
    assert_eq!(uri_path("file:///tmp/ws/src/a.rs", "/tmp/ws").ok().as_deref(), Some("src/a.rs"));
}

#[test]
fn file_uris_need_absolute_paths() {
    assert_eq!(file_uri("/tmp/ws/src/lib.rs").ok().as_deref(), Some("file:///tmp/ws/src/lib.rs"));
    match file_uri("relative/x.rs") {
        Err(AnalyzerError::Failed(m)) => assert_eq!(m, "encode file URI: relative/x.rs"),
        other => panic!("unexpected {other:?}"),
    }
}

#[test]
fn directory_uris_end_with_a_slash() {
    assert_eq!(directory_uri("/tmp/ws").ok().as_deref(), Some("file:///tmp/ws/"));
    match directory_uri("relative/ws") {
        Err(AnalyzerError::Failed(m)) => assert_eq!(m, "encode rust-analyzer root URI"),
        other => panic!("unexpected {other:?}"),
    }
}

#[test]
fn paths_relative_to_the_workspace() {
    assert_eq!(relative_path("/ws/src/lib.rs", "/ws").ok().as_deref(), Some("src/lib.rs"));
    assert!(relative_path("/other/lib.rs", "/ws").is_err());
}

#[test]
fn module_paths_skip_src_and_crate_roots() {
    assert_eq!(module_parts("src/net/http.rs"), ["net", "http"]);
    assert_eq!(module_parts("src/net/mod.rs"), ["net"]);
    assert!(module_parts("src/lib.rs").is_empty());
    assert_eq!(module_parts("tools/gen.rs"), ["tools", "gen"]);
}

#[test]
fn symbol_kinds_and_errors() {
    assert!(supported_symbol_kind(12));
    assert!(supported_symbol_kind(5));
    assert!(!supported_symbol_kind(13));
    assert!(matches!(map_lsp_error(LspError::Unavailable("gone".to_owned())), AnalyzerError::Unavailable(m) if m == "gone"));
    assert!(matches!(map_lsp_error(LspError::Timeout), AnalyzerError::Failed(m) if m == "language server request timed out"));
}

#[test]
fn reads_content_length_framed_messages() {
    let body = r#"{"jsonrpc":"2.0","id":7,"result":{"ok":true}}"#;
    let header = format!("Content-Length: {}\r\n", body.len());
    let mut headers = LspHeaders::new();
    assert!(!headers.take_line(&header).expect("content length"));
    assert!(!headers.take_line("Content-Type: application/vscode-jsonrpc\r\n").expect("other header"));
    assert!(headers.take_line("\r\n").expect("end of headers"));
    assert_eq!(headers.body_length().ok(), Some(body.len()));
}

#[test]
fn framing_errors_are_protocol_errors() {
    let mut headers = LspHeaders::new();
    assert!(matches!(headers.body_length(), Err(LspError::Protocol(m)) if m == "response lacks Content-Length"));
    assert!(matches!(
        headers.take_line("Content-Length: ten\r\n"),
        Err(LspError::Protocol(m)) if m == "invalid Content-Length: invalid digit found in string"
    ));
}

#[test]
fn responses_are_matched_by_request_id() {
    assert!(matches!(response_step(7, Some(7), true, false, None), LspStep::Deliver));
    match response_step(7, Some(7), true, false, Some("{\"code\":-1}".to_owned())) {
        LspStep::Fail(LspError::Server(message)) => assert_eq!(message, "{\"code\":-1}"),
        other => panic!("unexpected {other:?}"),
    }
    assert!(matches!(response_step(7, Some(3), true, true, None), LspStep::AnswerNull));
    assert!(matches!(response_step(7, None, true, true, None), LspStep::AnswerNull));
    assert!(matches!(response_step(7, Some(3), true, false, None), LspStep::Skip));
    assert!(matches!(response_step(7, None, false, true, None), LspStep::Skip));
}

#[test]
fn notifications_are_matched_by_method() {
    assert!(matches!(notification_step("ready", Some("ready"), true, false), LspStep::Deliver));
    assert!(matches!(notification_step("ready", Some("ready"), true, true), LspStep::AnswerNull));
    assert!(matches!(notification_step("ready", Some("other"), true, false), LspStep::Skip));
    assert!(matches!(notification_step("ready", None, false, true), LspStep::Skip));
}
