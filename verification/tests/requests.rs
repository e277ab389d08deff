//! Requests: errors, batches, and digests on given values.

use jsonrpc_l7::digest::{
    canonical_params_map, digest_text, sha256_hex, sha256_json, CanonicalParams,
};
use jsonrpc_l7::json::{parse_json, JsonValue};
use jsonrpc_l7::request::{
    inspect_http_request, parse_jsonrpc_body, parse_jsonrpc_call, parse_jsonrpc_value,
    JsonRpcCallInfo, JsonRpcRequestInfo, DEFAULT_MAX_BODY_BYTES,
};
use std::collections::{BTreeMap, HashMap};

fn text(s: &str) -> JsonValue {
    JsonValue::String(s.to_string())
}

fn object(members: Vec<(&str, JsonValue)>) -> JsonValue {
    JsonValue::Object(
        members
            .into_iter()
            .map(|(name, value)| (name.to_string(), value))
            .collect(),
    )
}

fn call(method: &str, params: &[(&str, &str)]) -> JsonRpcCallInfo {
    JsonRpcCallInfo {
        method: method.to_string(),
        params: params
            .iter()
            .map(|(key, value)| (key.to_string(), value.to_string()))
            .collect(),
    }
}

fn refusal(is_batch: bool, error: &str) -> JsonRpcRequestInfo {
    JsonRpcRequestInfo {
        calls: Vec::new(),
        is_batch,
        error: Some(error.to_string()),
    }
}

#[test]
fn body_limit_is_sixty_four_kibibytes() {
    assert_eq!(DEFAULT_MAX_BODY_BYTES, 65536);
}

#[test]
fn invalid_json_is_refused() {
    assert_eq!(
        parse_jsonrpc_body(b"not valid json {"),
        refusal(false, "invalid JSON")
    );
    assert_eq!(parse_jsonrpc_value(None), refusal(false, "invalid JSON"));
}

#[test]
fn empty_batch_is_refused() {
    assert_eq!(parse_jsonrpc_body(b"[]"), refusal(true, "empty batch"));
}

#[test]
fn value_that_is_no_object_is_refused() {
    let error = "missing or non-string 'jsonrpc' field";
    assert_eq!(parse_jsonrpc_body(b"17"), refusal(false, error));
    assert_eq!(parse_jsonrpc_body(b"null"), refusal(false, error));
    assert_eq!(
        parse_jsonrpc_body(b"[[]]"),
        refusal(true, "batch item invalid: missing or non-string 'jsonrpc' field")
    );
}

#[test]
fn version_that_is_no_string_is_refused() {
    assert_eq!(
        parse_jsonrpc_body(br#"{"jsonrpc":2.0,"method":"m"}"#),
        refusal(false, "missing or non-string 'jsonrpc' field")
    );
}

#[test]
fn method_must_be_a_string() {
    let error = "missing or non-string 'method' field";
    assert_eq!(parse_jsonrpc_body(br#"{"jsonrpc":"2.0"}"#), refusal(false, error));
    assert_eq!(
        parse_jsonrpc_body(br#"{"jsonrpc":"2.0","method":7}"#),
        refusal(false, error)
    );
}

#[test]
fn batch_names_the_first_item_that_is_refused() {
    assert_eq!(
        parse_jsonrpc_body(
            br#"[{"jsonrpc":"2.0","method":"a"},{"jsonrpc":"1.0","method":"b"},{"method":"c"}]"#
        ),
        refusal(true, "batch item invalid: unsupported JSON-RPC version '1.0'")
    );
}

#[test]
fn batch_makes_the_calls_of_its_items_in_order() {
    let first = object(vec![("jsonrpc", text("2.0")), ("method", text("a"))]);
    let second = object(vec![
        ("jsonrpc", text("2.0")),
        ("method", text("b")),
        ("params", object(vec![("k", text("v"))])),
    ]);
    assert_eq!(parse_jsonrpc_call(&first), Ok(call("a", &[])));
    assert_eq!(parse_jsonrpc_call(&second), Ok(call("b", &[("k", "v")])));
    let info = parse_jsonrpc_value(Some(&JsonValue::Array(vec![first, second])));
    assert_eq!(info.calls, vec![call("a", &[]), call("b", &[("k", "v")])]);
    assert!(info.is_batch);
    assert_eq!(info.error, None);
}

#[test]
fn other_members_change_nothing() {
    let plain = parse_jsonrpc_body(br#"{"jsonrpc":"2.0","method":"m","params":{"a":"b"}}"#);
    let more = parse_jsonrpc_body(
        br#"{"jsonrpc":"2.0","id":9,"method":"m","params":{"a":"b"},"extra":[1]}"#,
    );
    assert_eq!(plain, more);
    assert_eq!(plain.calls, vec![call("m", &[("a", "b")])]);
}

#[test]
fn positional_params_are_accepted_without_a_digest() {
    let info = parse_jsonrpc_body(br#"{"jsonrpc":"2.0","method":"m","params":[1,2]}"#);
    assert_eq!(info.calls, vec![call("m", &[])]);
    assert_eq!(info.params_sha256(), None);
}

#[test]
fn params_error_refuses_the_request() {
    assert_eq!(
        parse_jsonrpc_body(br#"{"jsonrpc":"2.0","method":"m","params":{"":{"a":1},"a":2}}"#),
        refusal(false, "ambiguous params key collision at 'a'")
    );
    assert_eq!(
        parse_jsonrpc_body(br#"[{"jsonrpc":"2.0","method":"m","params":{"x.y":1}}]"#),
        refusal(
            true,
            "batch item invalid: ambiguous dotted params key 'x.y' is not allowed"
        )
    );
}

#[test]
fn http_request_is_kept_beside_what_it_calls() {
    let inspected = inspect_http_request(
        "POST /mcp".to_string(),
        br#"{"jsonrpc":"2.0","method":"tools/list"}"#,
    );
    assert_eq!(inspected.request, "POST /mcp");
    assert_eq!(inspected.info.calls, vec![call("tools/list", &[])]);
}

#[test]
fn canonical_map_holds_the_same_entries_in_key_order() {
    let params: HashMap<String, String> =
        call("m", &[("b", "2"), ("a.c", "1"), ("c", "3")]).params;
    let canonical = canonical_params_map(&params);
    let walked: Vec<(&str, &str)> = canonical
        .iter()
        .map(|(key, value)| (key.as_str(), value.as_str()))
        .collect();
    assert_eq!(walked, vec![("a.c", "1"), ("b", "2"), ("c", "3")]);
}

#[test]
fn digest_is_written_in_hexadecimal() {
    let mut bytes = [0u8; 32];
    bytes[0] = 0x0f;
    bytes[1] = 0xa0;
    bytes[31] = 0xff;
    let expected = "0fa0".to_string() + &"00".repeat(29) + "ff";
    assert_eq!(digest_text(&bytes), expected);
}

#[test]
fn sha256_of_known_bytes() {
    assert_eq!(
        sha256_hex(b"abc"),
        "ba7816bf8f01cfea414140de5dae2223b00361a396177a9cb410ff61f20015ad"
    );
}

#[test]
fn digest_of_one_call_is_that_of_its_object() {
    let info = parse_jsonrpc_body(
        br#"{"jsonrpc":"2.0","method":"tools/call","params":{"name":"submit_report","arguments":{"scope":"workspace/main"}}}"#,
    );
    assert_eq!(
        info.params_sha256().as_deref(),
        Some("23194a7cc9658591cbfe4f397dc193c0f6e26f850ddbb072268f1924342be65c")
    );
    assert_eq!(
        info.params_sha256().as_deref(),
        Some(sha256_hex(br#"{"arguments.scope":"workspace/main","name":"submit_report"}"#).as_str())
    );
}

#[test]
fn digest_of_a_batch_is_that_of_its_list() {
    let info = parse_jsonrpc_body(
        br#"[{"jsonrpc":"2.0","method":"tools/list"},{"jsonrpc":"2.0","method":"tools/call","params":{"name":"blocked_action"}}]"#,
    );
    assert_eq!(
        info.params_sha256().as_deref(),
        Some("d34b512a70eeaf449ed8adcacd65a7e0281470140d69dcc85d6516a569c11aaf")
    );
}

#[test]
fn lone_call_and_batch_of_one_have_different_digests() {
    let mut info = JsonRpcRequestInfo {
        calls: vec![call("m", &[("name", "read_status")])],
        is_batch: false,
        error: None,
    };
    assert_eq!(
        info.params_sha256().as_deref(),
        Some("2901a7edb54ddcf8cf3f14d43f54bca15cbc5ddaccdfe303934fbc688108ddfd")
    );
    let alone = info.params_sha256();
    info.is_batch = true;
    assert_ne!(info.params_sha256(), alone);
    assert_eq!(
        info.params_sha256(),
        Some(sha256_hex(br#"[{"name":"read_status"}]"#))
    );
}

#[test]
fn refused_request_has_no_digest() {
    assert_eq!(parse_jsonrpc_body(b"[]").params_sha256(), None);
    assert_eq!(parse_jsonrpc_body(b"{").params_sha256(), None);
}

#[test]
fn digested_text_escapes_as_json_does() {
    let mut params = BTreeMap::new();
    params.insert("t".to_string(), "q\"\n".to_string());
    params.insert("n".to_string(), "2.5".to_string());
    params.insert("flag".to_string(), "true".to_string());
    params.insert("a.b".to_string(), "1".to_string());
    let text = br#"{"a.b":"1","flag":"true","n":"2.5","t":"q\"\n"}"#;
    assert_eq!(
        sha256_json(&CanonicalParams::Single(params)),
        sha256_hex(text)
    );
    assert_eq!(
        sha256_hex(text),
        "4058d2f01786c2b3d619a906d397e69e4ac6f674e9dc8411de22508650f6f9c1"
    );
}

#[test]
fn list_of_no_maps_is_digested_as_empty_brackets() {
    assert_eq!(
        sha256_json(&CanonicalParams::Batch(Vec::new())),
        sha256_hex(b"[]")
    );
}

#[test]
fn different_params_have_different_digests() {
    let one = parse_jsonrpc_body(br#"{"jsonrpc":"2.0","method":"m","params":{"a":"b"}}"#);
    let other = parse_jsonrpc_body(br#"{"jsonrpc":"2.0","method":"m","params":{"a":"c"}}"#);
    assert_ne!(one.params_sha256(), other.params_sha256());
}

#[test]
fn written_params_read_back_as_the_same() {
    let mut params = BTreeMap::new();
    params.insert("".to_string(), "\u{0}\u{1f}\u{7f}\\/\u{2028}".to_string());
    params.insert("a.b".to_string(), "\"quoted\"\t\u{1f600}".to_string());
    let read = object(vec![
        ("", text("\u{0}\u{1f}\u{7f}\\/\u{2028}")),
        ("a.b", text("\"quoted\"\t\u{1f600}")),
    ]);
    let one = serde_json::to_vec(&params).expect("a map of strings is written");
    assert_eq!(parse_json(&one), Some(read));
    let list = serde_json::to_vec(&vec![BTreeMap::<String, String>::new(), params])
        .expect("a list of maps is written");
    let mut expected = b"[{},".to_vec();
    expected.extend_from_slice(&one);
    expected.push(b']');
    assert_eq!(list, expected);
}

#[test]
fn params_must_be_an_object_or_an_array() {
    let error = "'params' field is neither an object nor an array";
    for params in ["\"x\"", "17", "-2.5", "true", "false", "null"] {
        let item = format!(r#"{{"jsonrpc":"2.0","id":1,"method":"m","params":{params}}}"#);
        assert_eq!(parse_jsonrpc_body(item.as_bytes()), refusal(false, error));
        let good = r#"{"jsonrpc":"2.0","id":2,"method":"n","params":{"a":"b"}}"#;
        let batch = format!("[{good},{item}]");
        assert_eq!(
            parse_jsonrpc_body(batch.as_bytes()),
            refusal(
                true,
                "batch item invalid: 'params' field is neither an object nor an array"
            )
        );
    }
}

#[test]
fn version_is_judged_before_method_and_method_before_params() {
    assert_eq!(
        parse_jsonrpc_body(br#"{"jsonrpc":"1.0","method":7,"params":"x"}"#),
        refusal(false, "unsupported JSON-RPC version '1.0'")
    );
    assert_eq!(
        parse_jsonrpc_body(br#"{"jsonrpc":"2.0","method":7,"params":"x"}"#),
        refusal(false, "missing or non-string 'method' field")
    );
}

#[test]
fn digested_keys_stand_in_the_order_of_their_characters() {
    let info = JsonRpcRequestInfo {
        calls: vec![call("m", &[("é", "4"), ("a", "2"), ("Z", "1"), ("ab", "3"), ("", "0")])],
        is_batch: false,
        error: None,
    };
    assert_eq!(
        info.params_sha256(),
        Some(sha256_hex(
            r#"{"":"0","Z":"1","a":"2","ab":"3","é":"4"}"#.as_bytes()
        ))
    );
}

#[test]
fn member_order_does_not_change_which_fault_is_reported() {
    let error = "ambiguous dotted params key 'a.1' is not allowed";
    assert_eq!(
        parse_jsonrpc_body(br#"{"jsonrpc":"2.0","method":"m","params":{"b.2":1,"a.1":2}}"#),
        refusal(false, error)
    );
    assert_eq!(
        parse_jsonrpc_body(br#"{"params":{"a.1":2,"b.2":1},"method":"m","jsonrpc":"2.0"}"#),
        refusal(false, error)
    );
}

#[test]
fn id_must_be_a_string_a_number_or_null() {
    let error = "'id' field is neither a string, a number nor null";
    for id in ["{}", "[]", "[1]", "true", "false"] {
        let item = format!(r#"{{"jsonrpc":"2.0","id":{id},"method":"m"}}"#);
        assert_eq!(parse_jsonrpc_body(item.as_bytes()), refusal(false, error));
        let batch = format!(r#"[{{"jsonrpc":"2.0","id":1,"method":"n"}},{item}]"#);
        assert_eq!(
            parse_jsonrpc_body(batch.as_bytes()),
            refusal(
                true,
                "batch item invalid: 'id' field is neither a string, a number nor null"
            )
        );
    }
    for id in ["\"a\"", "7", "-1.5", "null"] {
        let item = format!(r#"{{"jsonrpc":"2.0","id":{id},"method":"m"}}"#);
        assert_eq!(
            parse_jsonrpc_body(item.as_bytes()).calls,
            vec![call("m", &[])]
        );
    }
}

#[test]
fn params_are_judged_before_the_id() {
    assert_eq!(
        parse_jsonrpc_body(br#"{"jsonrpc":"2.0","id":{},"method":"m","params":"x"}"#),
        refusal(false, "'params' field is neither an object nor an array")
    );
    assert_eq!(
        parse_jsonrpc_body(br#"{"jsonrpc":"2.0","id":{},"method":"m","params":{"a.b":1}}"#),
        refusal(false, "ambiguous dotted params key 'a.b' is not allowed")
    );
}

#[test]
fn digested_strings_are_escaped_where_they_must_be() {
    let info = JsonRpcRequestInfo {
        calls: vec![call(
            "m",
            &[("k\"\\", "\u{8}\t\n\u{c}\r\u{0}\u{b}\u{1f} /\u{7f}é\u{2028}\u{1f600}")],
        )],
        is_batch: false,
        error: None,
    };
    let text = [
        r#"{"k\"\\":"\b\t\n\f\r\u0000\u000b\u001f /"#,
        "\u{7f}é\u{2028}\u{1f600}\"}",
    ]
    .concat();
    assert_eq!(info.params_sha256(), Some(sha256_hex(text.as_bytes())));
}
