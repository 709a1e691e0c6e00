use grix::mcp::answer::{format_files, format_matches};
use grix::mcp::request::{
    build_opts, max_results, path_to_scope, read_request, require_pattern, Args, Step,
    DEFAULT_PROTOCOL,
};
use grix::search::{FileResult, MatchLine};

fn step(line: &str) -> Step {
    read_request(line).unwrap().step
}

fn args(json: &str) -> Args {
    let line = format!(
        "{{\"id\":1,\"method\":\"tools/call\",\"params\":{{\"name\":\"code_search\",\"arguments\":{json}}}}}"
    );
    match step(&line) {
        Step::CodeSearch(a) => a,
        other => panic!("{other:?}"),
    }
}

#[test]
fn session() {
    let hello = r#"{"jsonrpc":"2.0","id":1,"method":"initialize","params":{"protocolVersion":"2025-01-01","capabilities":{}}}"#;
    let r = read_request(hello).unwrap();
    assert_eq!(r.id, Some(serde_json::Value::from(1)));
    assert!(matches!(r.step, Step::Initialize(ref p) if p == "2025-01-01"));
    let note = r#"{"jsonrpc":"2.0","method":"notifications/initialized"}"#;
    let r = read_request(note).unwrap();
    assert_eq!(r.id, None);
    assert!(matches!(r.step, Step::Nothing));
    assert!(matches!(
        step(r#" {"jsonrpc":"2.0","id":2,"method":"tools/list"} "#),
        Step::Tools
    ));
    assert!(matches!(step(r#"{"id":"x","method":"ping"}"#), Step::Nothing));
    assert!(
        matches!(step(r#"{"id":3,"method":"initialize"}"#), Step::Initialize(ref p) if p == DEFAULT_PROTOCOL)
    );
}

#[test]
fn lines_that_are_no_requests() {
    assert!(read_request("").is_none());
    assert!(read_request("  \n").is_none());
    assert!(read_request("not json").is_none());
    assert!(read_request("{\"id\":1").is_none());
}

fn refusal(line: &str) -> (i64, String) {
    match step(line) {
        Step::Refuse(code, message) => (code, message),
        other => panic!("{other:?}"),
    }
}

#[test]
fn refusals() {
    assert_eq!(
        refusal(r#"{"id":1,"method":"resources/list"}"#),
        (-32601, "method not found: resources/list".to_string())
    );
    assert_eq!(
        refusal("[1]"),
        (-32601, "method not found: ".to_string())
    );
    assert_eq!(
        refusal(r#"{"id":1,"method":"tools/call"}"#),
        (-32602, "missing params".to_string())
    );
    assert_eq!(
        refusal(r#"{"id":1,"method":"tools/call","params":{"name":7}}"#),
        (-32602, "missing tool name".to_string())
    );
    assert_eq!(
        refusal(r#"{"id":1,"method":"tools/call","params":{"name":"rm"}}"#),
        (-32602, "unknown tool: rm".to_string())
    );
}

#[test]
fn arguments() {
    let a = args(r#"{"pattern":"foo","type":"md","glob":"*.md","ignore_case":true,"fixed":true,"context":2,"max_results":0}"#);
    assert_eq!(require_pattern(&a), Ok("foo"));
    assert_eq!(max_results(&a), 1);
    let o = build_opts(&a, Some("docs".to_string()), false);
    assert!(o.case_insensitive && o.fixed_string);
    assert_eq!((o.before, o.after), (2, 2));
    assert_eq!(o.globs, vec!["*.md"]);
    assert_eq!(o.types_select, vec!["md"]);
    assert_eq!(o.path_scopes, vec!["docs"]);
    let a = args(r#"{"pattern":"","context":-1,"ignore_case":"yes"}"#);
    assert_eq!(
        require_pattern(&a),
        Err("missing required argument: pattern".to_string())
    );
    assert_eq!(max_results(&a), 200);
    let o = build_opts(&a, None, true);
    assert!(!o.case_insensitive && o.matches_only && o.path_scopes.is_empty());
    assert_eq!(o.before, 0);
    assert!(require_pattern(&args("{}")).is_err());
}

#[test]
fn scopes() {
    assert_eq!(path_to_scope(Some("/r/src/a"), "/r"), Some("src/a".to_string()));
    assert_eq!(path_to_scope(Some("/r"), "/r"), None);
    assert_eq!(path_to_scope(Some("/elsewhere"), "/r"), None);
    assert_eq!(path_to_scope(None, "/r"), None);
}

fn line(n: u64, text: &[u8], is_match: bool) -> MatchLine {
    MatchLine {
        line_number: n,
        spans: vec![],
        line: text.to_vec(),
        is_match,
        starts: 1,
    }
}

fn results() -> Vec<FileResult> {
    vec![
        FileResult {
            rel_path: "a".to_string(),
            lines: vec![line(1, b"one\r", true), line(2, b"two", false), line(3, b"\xff", true)],
        },
        FileResult {
            rel_path: "b".to_string(),
            lines: vec![line(7, b"x", true)],
        },
    ]
}

#[test]
fn matches_as_text() {
    assert_eq!(
        format_matches(&results(), 200),
        "a:1:one\na-2-two\na:3:\u{fffd}\nb:7:x\n\n3 matches in 2 files"
    );
    assert_eq!(
        format_matches(&results(), 1),
        "a:1:one\na-2-two\n\n3 matches in 2 files — showing first matches; narrow with path/glob/type or raise max_results"
    );
    assert_eq!(format_matches(&results()[1..].iter().map(|r| FileResult {
        rel_path: r.rel_path.clone(),
        lines: vec![line(7, b"x", true)],
    }).collect(), 200), "b:7:x\n\n1 match in 1 file");
    assert_eq!(format_matches(&vec![], 200), "No matches.");
}

#[test]
fn files_as_text() {
    assert_eq!(format_files(&results()), "a\nb\n\n2 files");
    assert_eq!(format_files(&vec![]), "No files match.");
    let one = vec![results().remove(0)];
    assert_eq!(format_files(&one), "a\n\n1 file");
}
