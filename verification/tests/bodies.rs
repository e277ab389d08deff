//! Requests as bodies: what is accepted, what is refused, and what is digested.

use jsonrpc_l7::params::insert_flattened_param;
use jsonrpc_l7::request::parse_jsonrpc_body;
use std::collections::HashMap;

#[test]
fn parses_method_from_request_body() {
    let body = br#"{"jsonrpc":"2.0","id":1,"method":"initialize","params":{}}"#;
    let info = parse_jsonrpc_body(body);
    assert_eq!(
        info.calls.first().map(|call| call.method.as_str()),
        Some("initialize")
    );
    assert_eq!(info.calls.len(), 1);
    assert!(!info.is_batch);
    assert!(info.error.is_none());
}

#[test]
fn flattens_object_params_for_policy_matching() {
    let body = br#"{"jsonrpc":"2.0","id":1,"method":"tools/call","params":{"name":"submit_report","arguments":{"scope":"workspace/main"}}}"#;
    let info = parse_jsonrpc_body(body);
    let params = &info.calls.first().expect("single request call").params;
    assert_eq!(
        params.get("name").map(String::as_str),
        Some("submit_report")
    );
    assert_eq!(
        params.get("arguments.scope").map(String::as_str),
        Some("workspace/main")
    );
}

#[test]
fn rejects_literal_dotted_param_keys() {
    let body = br#"{"jsonrpc":"2.0","id":1,"method":"tools/call","params":{"arguments.scope":"workspace/other","arguments":{"scope":"workspace/main"}}}"#;
    let info = parse_jsonrpc_body(body);

    assert!(info.calls.is_empty());
    assert!(
        info.error
            .as_deref()
            .is_some_and(|error| error.contains("ambiguous dotted params key")),
        "expected dotted params key error, got {info:?}"
    );
}

#[test]
fn rejects_requests_missing_jsonrpc_version() {
    let body = br#"{"id":1,"method":"tools/list"}"#;
    let info = parse_jsonrpc_body(body);

    assert!(info.calls.is_empty());
    assert_eq!(
        info.error.as_deref(),
        Some("missing or non-string 'jsonrpc' field")
    );
}

#[test]
fn rejects_batch_items_missing_jsonrpc_version() {
    let body = br#"[
            {"jsonrpc":"2.0","id":1,"method":"tools/list"},
            {"id":2,"method":"tools/call","params":{"name":"read_status"}}
        ]"#;
    let info = parse_jsonrpc_body(body);

    assert!(info.calls.is_empty());
    assert!(info.is_batch);
    assert_eq!(
        info.error.as_deref(),
        Some("batch item invalid: missing or non-string 'jsonrpc' field")
    );
}

#[test]
fn rejects_unsupported_jsonrpc_version() {
    let body = br#"{"jsonrpc":"1.0","id":1,"method":"tools/list"}"#;
    let info = parse_jsonrpc_body(body);

    assert!(info.calls.is_empty());
    assert_eq!(
        info.error.as_deref(),
        Some("unsupported JSON-RPC version '1.0'")
    );
}

#[test]
fn detects_flattened_param_collisions() {
    let mut params = HashMap::from([("arguments.scope".to_string(), "first".to_string())]);

    let error = insert_flattened_param(&mut params, "arguments.scope", "second".to_string())
        .expect_err("duplicate flattened key should be ambiguous");

    assert!(error.contains("ambiguous params key collision"));
}

#[test]
fn parses_valid_batch_without_error() {
    let body = br#"[
            {"jsonrpc":"2.0","id":1,"method":"tools/list"},
            {"jsonrpc":"2.0","id":2,"method":"tools/call","params":{"name":"read_status"}}
        ]"#;
    let info = parse_jsonrpc_body(body);
    assert!(info.error.is_none());
    assert!(info.is_batch);
    assert_eq!(info.calls.len(), 2);
    assert_eq!(info.calls[0].method, "tools/list");
    assert_eq!(info.calls[1].method, "tools/call");
    assert_eq!(
        info.calls[1].params.get("name").map(String::as_str),
        Some("read_status")
    );
}

#[test]
fn params_digest_is_canonical_and_redacted() {
    let first = parse_jsonrpc_body(
        br#"{"jsonrpc":"2.0","id":1,"method":"tools/call","params":{"name":"submit_report","arguments":{"scope":"workspace/main"}}}"#,
    );
    let reordered = parse_jsonrpc_body(
        br#"{"jsonrpc":"2.0","id":1,"method":"tools/call","params":{"arguments":{"scope":"workspace/main"},"name":"submit_report"}}"#,
    );
    let changed = parse_jsonrpc_body(
        br#"{"jsonrpc":"2.0","id":1,"method":"tools/call","params":{"name":"submit_report","arguments":{"scope":"workspace/other"}}}"#,
    );

    let digest = first.params_sha256().expect("params digest");
    assert_eq!(Some(digest.as_str()), reordered.params_sha256().as_deref());
    assert_ne!(Some(digest.as_str()), changed.params_sha256().as_deref());
    assert_eq!(digest.len(), 64);
    assert!(digest.chars().all(|c| c.is_ascii_hexdigit()));
    assert!(!digest.contains("workspace/main"));
    assert!(!digest.contains("submit_report"));
}

#[test]
fn batch_params_digest_covers_call_params_without_raw_values() {
    let batch = parse_jsonrpc_body(
        br#"[
                {"jsonrpc":"2.0","id":1,"method":"tools/list"},
                {"jsonrpc":"2.0","id":2,"method":"tools/call","params":{"name":"blocked_action"}}
            ]"#,
    );
    let empty_batch = parse_jsonrpc_body(
        br#"[
                {"jsonrpc":"2.0","id":1,"method":"tools/list"},
                {"jsonrpc":"2.0","id":2,"method":"initialize"}
            ]"#,
    );

    let digest = batch.params_sha256().expect("batch params digest");
    assert_eq!(digest.len(), 64);
    assert!(digest.chars().all(|c| c.is_ascii_hexdigit()));
    assert!(!digest.contains("blocked_action"));
    assert!(empty_batch.params_sha256().is_none());
}
