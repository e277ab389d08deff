//! Flattening: paths, texts, and what is refused as ambiguous.

use jsonrpc_l7::json::{parse_json, JsonValue};
use jsonrpc_l7::params::{flatten_json_value, flatten_jsonrpc_params, insert_flattened_param};
use std::collections::HashMap;

fn text(s: &str) -> JsonValue {
    JsonValue::String(s.to_string())
}

fn object(members: Vec<(&str, JsonValue)>) -> JsonValue {
    JsonValue::Object(
        members
            .into_iter()
            .map(|(name, value)| (name.to_string(), value))
            .collect(),
    )
}

fn entries(pairs: &[(&str, &str)]) -> HashMap<String, String> {
    pairs
        .iter()
        .map(|(key, value)| (key.to_string(), value.to_string()))
        .collect()
}

#[test]
fn scalars_flatten_to_their_texts() {
    let value = object(vec![
        ("s", text("hello")),
        ("n", JsonValue::Number("2.5".to_string())),
        ("yes", JsonValue::Bool(true)),
        ("no", JsonValue::Bool(false)),
        ("nothing", JsonValue::Null),
        ("list", JsonValue::Array(vec![text("skipped")])),
    ]);
    assert_eq!(
        flatten_jsonrpc_params(&value),
        Ok(entries(&[("s", "hello"), ("n", "2.5"), ("yes", "true"), ("no", "false")]))
    );
}

#[test]
fn nested_members_flatten_to_dotted_paths() {
    let value = object(vec![(
        "a",
        object(vec![("b", object(vec![("c", text("deep"))])), ("d", text("near"))]),
    )]);
    assert_eq!(
        flatten_jsonrpc_params(&value),
        Ok(entries(&[("a.b.c", "deep"), ("a.d", "near")]))
    );
}

#[test]
fn params_that_are_no_object_flatten_to_nothing() {
    assert_eq!(flatten_jsonrpc_params(&text("alone")), Ok(HashMap::new()));
    assert_eq!(flatten_jsonrpc_params(&JsonValue::Null), Ok(HashMap::new()));
    assert_eq!(
        flatten_jsonrpc_params(&JsonValue::Array(vec![text("a")])),
        Ok(HashMap::new())
    );
}

#[test]
fn dotted_name_is_refused_at_any_depth() {
    let value = object(vec![("a", object(vec![("b.c", text("x"))]))]);
    assert_eq!(
        flatten_jsonrpc_params(&value),
        Err("ambiguous dotted params key 'b.c' is not allowed".to_string())
    );
}

#[test]
fn dotted_name_is_refused_whatever_its_value() {
    let value = object(vec![("a.b", JsonValue::Null)]);
    assert_eq!(
        flatten_jsonrpc_params(&value),
        Err("ambiguous dotted params key 'a.b' is not allowed".to_string())
    );
}

#[test]
fn first_fault_is_the_one_reported() {
    let value = object(vec![
        ("x.1", text("first")),
        ("y.2", text("second")),
    ]);
    assert_eq!(
        flatten_jsonrpc_params(&value),
        Err("ambiguous dotted params key 'x.1' is not allowed".to_string())
    );
}

#[test]
fn empty_outermost_name_can_collide() {
    let value = object(vec![
        ("", object(vec![("a", text("inner"))])),
        ("a", text("outer")),
    ]);
    assert_eq!(
        flatten_jsonrpc_params(&value),
        Err("ambiguous params key collision at 'a'".to_string())
    );
}

#[test]
fn scalar_under_the_empty_name_is_passed_over() {
    let value = object(vec![("", text("x")), ("a", text("y"))]);
    assert_eq!(flatten_jsonrpc_params(&value), Ok(entries(&[("a", "y")])));
}

#[test]
fn empty_inner_name_ends_the_path_in_a_dot() {
    let value = object(vec![("a", object(vec![("", text("x")), ("b", text("y"))]))]);
    assert_eq!(
        flatten_jsonrpc_params(&value),
        Ok(entries(&[("a.", "x"), ("a.b", "y")]))
    );
}

#[test]
fn walk_adds_to_what_the_map_holds() {
    let mut out = entries(&[("kept", "old")]);
    let value = object(vec![("b", text("new"))]);
    assert_eq!(flatten_json_value("a", &value, &mut out), Ok(()));
    assert_eq!(out, entries(&[("kept", "old"), ("a.b", "new")]));
}

#[test]
fn abandoned_walk_leaves_what_it_had_written() {
    let mut out = HashMap::new();
    let value = object(vec![
        ("a", text("1")),
        ("b.c", text("2")),
        ("d", text("3")),
    ]);
    assert_eq!(
        flatten_json_value("", &value, &mut out),
        Err("ambiguous dotted params key 'b.c' is not allowed".to_string())
    );
    assert_eq!(out, entries(&[("a", "1")]));
}

#[test]
fn inserting_a_free_path_succeeds() {
    let mut out = HashMap::new();
    assert_eq!(insert_flattened_param(&mut out, "a.b", "x".to_string()), Ok(()));
    assert_eq!(out, entries(&[("a.b", "x")]));
}

#[test]
fn inserting_a_taken_path_fails_and_overwrites() {
    let mut out = entries(&[("a", "old")]);
    assert_eq!(
        insert_flattened_param(&mut out, "a", "new".to_string()),
        Err("ambiguous params key collision at 'a'".to_string())
    );
    assert_eq!(out, entries(&[("a", "new")]));
}

#[test]
fn member_order_does_not_change_the_params() {
    let one = object(vec![
        ("x", object(vec![("p", text("1")), ("q", text("2"))])),
        ("y", text("3")),
    ]);
    let other = object(vec![
        ("y", text("3")),
        ("x", object(vec![("q", text("2")), ("p", text("1"))])),
    ]);
    assert_eq!(flatten_jsonrpc_params(&one), flatten_jsonrpc_params(&other));
    assert_eq!(
        flatten_jsonrpc_params(&one),
        Ok(entries(&[("x.p", "1"), ("x.q", "2"), ("y", "3")]))
    );
}

#[test]
fn json_text_is_read_into_the_tree() {
    let value = parse_json(br#" {"b":[null,true,-3],"a":"xA"} "#);
    assert_eq!(
        value,
        Some(object(vec![
            ("a", text("xA")),
            (
                "b",
                JsonValue::Array(vec![
                    JsonValue::Null,
                    JsonValue::Bool(true),
                    JsonValue::Number("-3".to_string()),
                ])
            ),
        ]))
    );
}

#[test]
fn numbers_are_read_as_the_text_they_print_as() {
    assert_eq!(parse_json(b"2.5"), Some(JsonValue::Number("2.5".to_string())));
    assert_eq!(parse_json(b"1.0"), Some(JsonValue::Number("1.0".to_string())));
    assert_eq!(
        parse_json(b"18446744073709551615"),
        Some(JsonValue::Number("18446744073709551615".to_string()))
    );
}

#[test]
fn later_member_of_one_name_replaces_the_earlier() {
    assert_eq!(
        parse_json(br#"{"a":1,"a":2}"#),
        Some(object(vec![("a", JsonValue::Number("2".to_string()))]))
    );
}

#[test]
fn what_is_not_one_json_value_is_not_read() {
    assert_eq!(parse_json(b""), None);
    assert_eq!(parse_json(b"not valid json {"), None);
    assert_eq!(parse_json(b"{} {}"), None);
    assert_eq!(parse_json(b"\"\xff\""), None);
    let deep = "[".repeat(200) + &"]".repeat(200);
    assert_eq!(parse_json(deep.as_bytes()), None);
}

#[test]
fn member_is_found_by_name() {
    let value = object(vec![("a", text("1")), ("b", text("2"))]);
    assert_eq!(value.get("b"), Some(&text("2")));
    assert_eq!(value.get("c"), None);
    assert_eq!(text("a").get("a"), None);
    assert_eq!(JsonValue::Array(vec![text("a")]).get("0"), None);
}
