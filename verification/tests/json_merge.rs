use peer_cluster::json::{find_key, holds_item, merge_json, merge_values, Json, Member};
use peer_cluster::jsontext::{parse_json, parse_json_within, render_json};
use peer_cluster::sync::{merge_document_text, SyncError};

fn text(s: &str) -> Json {
    Json::Text(s.to_string())
}

fn number(s: &str) -> Json {
    Json::Number(s.to_string())
}

fn object(members: Vec<(&str, Json)>) -> Json {
    Json::Object(members.into_iter().map(|(k, v)| Member { key: k.to_string(), value: v }).collect())
}

#[test]
fn merging_a_document_into_itself_changes_nothing() {
    let a = object(vec![
        ("name", text("x")),
        ("list", Json::Array(vec![number("1"), number("2"), number("1")])),
        ("inner", object(vec![("k", Json::Bool(true)), ("n", Json::Null)])),
    ]);
    let mut merged = a.duplicate();
    merge_json(&mut merged, &a);
    assert!(merged.same_as(&a));
}

#[test]
fn a_scalar_is_overwritten() {
    let mut a = object(vec![("a", number("1"))]);
    merge_json(&mut a, &object(vec![("a", number("2"))]));
    assert!(a.same_as(&object(vec![("a", number("2"))])));
}

#[test]
fn arrays_join_without_repeating() {
    let mut a = object(vec![("list", Json::Array(vec![number("1"), number("2")]))]);
    merge_json(&mut a, &object(vec![("list", Json::Array(vec![number("2"), number("3")]))]));
    let expected = object(vec![("list", Json::Array(vec![number("1"), number("2"), number("3")]))]);
    assert!(a.same_as(&expected));
}

#[test]
fn new_keys_come_last_and_objects_merge_inside() {
    let mut a = object(vec![("a", object(vec![("x", number("1"))])), ("b", text("old"))]);
    let b = object(vec![
        ("c", Json::Null),
        ("a", object(vec![("y", number("2")), ("x", number("9"))])),
    ]);
    merge_json(&mut a, &b);
    let expected = object(vec![
        ("a", object(vec![("x", number("9")), ("y", number("2"))])),
        ("b", text("old")),
        ("c", Json::Null),
    ]);
    assert!(a.same_as(&expected));
}

#[test]
fn mismatched_kinds_are_overwritten() {
    let mut a = object(vec![("a", Json::Array(vec![number("1")]))]);
    merge_json(&mut a, &object(vec![("a", object(vec![("k", number("1"))]))]));
    assert!(a.same_as(&object(vec![("a", object(vec![("k", number("1"))]))])));
    let mut b = Json::Array(vec![number("1")]);
    merge_json(&mut b, &text("t"));
    assert!(b.same_as(&text("t")));
    let mut c = text("t");
    merge_json(&mut c, &Json::Array(vec![]));
    assert!(c.same_as(&Json::Array(vec![])));
}

#[test]
fn repeated_delivery_changes_nothing_more() {
    let a = object(vec![("x", Json::Array(vec![text("a")])), ("n", number("1"))]);
    let b = object(vec![("x", Json::Array(vec![text("b"), text("a")])), ("m", object(vec![]))]);
    let once = merge_values(a, &b);
    let twice = merge_values(once.duplicate(), &b);
    assert!(twice.same_as(&once));
}

#[test]
fn items_are_compared_by_what_they_hold() {
    let items = vec![object(vec![("k", number("1"))]), Json::Array(vec![Json::Null])];
    assert!(holds_item(&items, &object(vec![("k", number("1"))])));
    assert!(holds_item(&items, &Json::Array(vec![Json::Null])));
    assert!(!holds_item(&items, &object(vec![("k", number("2"))])));
    assert!(!holds_item(&items, &object(vec![("j", number("1"))])));
    assert!(!holds_item(&items, &Json::Array(vec![])));
    assert!(!holds_item(&items, &Json::Null));
    assert!(!number("1").same_as(&text("1")));
    assert!(!Json::Bool(true).same_as(&Json::Bool(false)));
}

#[test]
fn keys_are_found_where_they_stand() {
    let members = vec![
        Member { key: "a".to_string(), value: Json::Null },
        Member { key: "b".to_string(), value: Json::Null },
    ];
    assert_eq!(find_key(&members, &"a".to_string()), 0);
    assert_eq!(find_key(&members, &"b".to_string()), 1);
    assert_eq!(find_key(&members, &"c".to_string()), 2);
}

#[test]
fn text_is_read_level_by_level() {
    let value = parse_json(r#"{"b": [1, 2.5, "s", null, true], "a": {"k": -3}}"#).unwrap();
    let expected = object(vec![
        ("a", object(vec![("k", number("-3"))])),
        ("b", Json::Array(vec![number("1"), number("2.5"), text("s"), Json::Null, Json::Bool(true)])),
    ]);
    assert!(value.same_as(&expected));
    assert!(parse_json("42").unwrap().same_as(&number("42")));
    assert!(parse_json("\"a\\nb\"").unwrap().same_as(&text("a\nb")));
}

#[test]
fn text_that_is_not_json_is_refused() {
    assert!(parse_json("").is_none());
    assert!(parse_json("{").is_none());
    assert!(parse_json("{\"a\":}").is_none());
    assert!(parse_json("[1,]").is_none());
    assert!(parse_json("nul").is_none());
    assert!(parse_json("1 2").is_none());
}

#[test]
fn nesting_is_bounded() {
    assert!(parse_json_within("[[1]]", 2).is_some());
    assert!(parse_json_within("[[1]]", 1).is_none());
    assert!(parse_json_within("1", 0).is_some());
    assert!(parse_json_within("[]", 0).is_none());
    let deep = format!("{}{}", "[".repeat(128), "]".repeat(128));
    assert!(parse_json(&deep).is_none());
    let fine = format!("{}{}", "[".repeat(127), "]".repeat(127));
    let read = parse_json(&fine).unwrap();
    assert_eq!(render_json(&read).as_deref(), Some(fine.as_str()));
    assert!(parse_json_within(&fine, 126).is_none());
}

#[test]
fn values_are_written_as_json() {
    let value = object(vec![
        ("b", Json::Array(vec![number("1"), text("q\"x"), Json::Null, Json::Bool(false)])),
        ("a", object(vec![])),
    ]);
    assert_eq!(render_json(&value).as_deref(), Some(r#"{"a":{},"b":[1,"q\"x",null,false]}"#));
    assert_eq!(render_json(&Json::Null).as_deref(), Some("null"));
    assert_eq!(render_json(&number("12.5")).as_deref(), Some("12.5"));
    assert_eq!(render_json(&text("t")).as_deref(), Some("\"t\""));
    assert_eq!(render_json(&Json::Array(vec![])).as_deref(), Some("[]"));
}

#[test]
fn written_text_reads_back() {
    let value = parse_json(r#"{"x":["a",{"y":[1,2,{"z":null}]}],"w":"v"}"#).unwrap();
    let back = parse_json(&render_json(&value).unwrap()).unwrap();
    assert!(back.same_as(&value));
}

#[test]
fn two_peers_converge() {
    let first = r#"{"x":["a"]}"#;
    let second = r#"{"x":["b"]}"#;
    let at_first = merge_document_text(first, second).unwrap();
    let at_second = merge_document_text(second, first).unwrap();
    assert_eq!(at_first, r#"{"x":["a","b"]}"#);
    assert_eq!(at_second, r#"{"x":["b","a"]}"#);
    let again = merge_document_text(&at_first, &at_second).unwrap();
    assert_eq!(again, r#"{"x":["a","b"]}"#);
}

#[test]
fn a_held_text_that_is_not_json_counts_as_empty() {
    assert_eq!(merge_document_text("", r#"{"a":1}"#).unwrap(), r#"{"a":1}"#);
    assert_eq!(merge_document_text("not json", r#"{"a":1}"#).unwrap(), r#"{"a":1}"#);
}

#[test]
fn an_incoming_text_that_is_not_json_is_refused() {
    assert_eq!(merge_document_text(r#"{"a":1}"#, "{oops"), Err(SyncError::InvalidJson));
    assert_eq!(merge_document_text("", ""), Err(SyncError::InvalidJson));
}

#[test]
fn directory_documents_merge() {
    let held = r#"{"clients":{"c1":["img1"],"c2":["img9"]}}"#;
    let incoming = r#"{"clients":{"c1":["img1","img2"],"c3":[]}}"#;
    assert_eq!(
        merge_document_text(held, incoming).unwrap(),
        r#"{"clients":{"c1":["img1","img2"],"c2":["img9"],"c3":[]}}"#
    );
}

#[test]
fn objects_are_the_same_in_any_order_of_members() {
    let a = object(vec![("x", number("1")), ("y", Json::Array(vec![text("p")]))]);
    let b = object(vec![("y", Json::Array(vec![text("p")])), ("x", number("1"))]);
    assert!(a.same_as(&b));
    assert!(b.same_as(&a));
    let c = object(vec![("y", Json::Array(vec![text("q")])), ("x", number("1"))]);
    assert!(!a.same_as(&c));
    let d = object(vec![("x", number("1"))]);
    assert!(!a.same_as(&d));
    assert!(!d.same_as(&a));
    let ordered = Json::Array(vec![number("1"), number("2")]);
    let swapped = Json::Array(vec![number("2"), number("1")]);
    assert!(!ordered.same_as(&swapped));

    let mut list = Json::Array(vec![a.duplicate()]);
    merge_json(&mut list, &Json::Array(vec![b.duplicate(), c.duplicate()]));
    assert!(list.same_as(&Json::Array(vec![a, c])));
}

#[test]
fn what_cannot_be_written_is_not_written() {
    assert_eq!(render_json(&number("abc")), None);
    assert_eq!(render_json(&number("[1]")), None);
    assert_eq!(render_json(&number("\"1\"")), None);
    assert_eq!(render_json(&number("")), None);
    assert_eq!(render_json(&number("1e999")), None);
    assert_eq!(render_json(&Json::Array(vec![number("1"), number("x")])), None);
    assert_eq!(render_json(&object(vec![("k", Json::Array(vec![number("--1")]))])), None);
    assert_eq!(render_json(&number("-0.5e1")).as_deref(), Some("-5.0"));
    assert_eq!(render_json(&number("007")), None);
    let mut deep = Json::Null;
    for _ in 0..128 {
        deep = Json::Array(vec![deep]);
    }
    let written = format!("{}null{}", "[".repeat(128), "]".repeat(128));
    assert_eq!(render_json(&deep).as_deref(), Some(written.as_str()));
    deep = Json::Array(vec![deep]);
    assert_eq!(render_json(&deep), None);
}

#[test]
fn what_is_read_has_no_key_twice() {
    let value = parse_json(r#"{"a":1,"b":{"c":1,"c":2},"a":[{"d":1,"d":{"e":1}}]}"#).unwrap();
    let expected = object(vec![
        ("a", Json::Array(vec![object(vec![("d", object(vec![("e", number("1"))]))])])),
        ("b", object(vec![("c", number("2"))])),
    ]);
    assert!(value.same_as(&expected));
    let mut merged = value.duplicate();
    merge_json(&mut merged, &value);
    assert!(merged.same_as(&value));
}

#[test]
fn numbers_deep_in_a_document_are_the_numbers_of_the_text() {
    let text = r#"[[[[[[0.1,1e-7,123456789.12345678,5e-324,1.7976931348623157e308,0.30000000000000004]]]]]]"#;
    let value = parse_json(text).unwrap();
    assert_eq!(
        render_json(&value).as_deref(),
        Some("[[[[[[0.1,1e-7,123456789.12345678,5e-324,1.7976931348623157e+308,0.30000000000000004]]]]]]")
    );
    let flat = parse_json("[0.1,1e-7,123456789.12345678,5e-324,1.7976931348623157e308,0.30000000000000004]")
        .unwrap();
    let mut inner = value;
    for _ in 0..5 {
        inner = match inner {
            Json::Array(mut items) => items.remove(0),
            other => panic!("expected an array, got {:?}", other),
        };
    }
    assert!(inner.same_as(&flat));
}
