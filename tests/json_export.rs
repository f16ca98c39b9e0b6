use unfold::builder::build_tree;
use unfold::json_export::{
    escape_json_string, format_node_value_for_copy, node_to_json_string, node_to_json_string_minified,
};
use unfold::value::ParsedValue;

fn text(s: &str) -> ParsedValue {
    ParsedValue::String(s.to_string())
}

fn num(s: &str) -> ParsedValue {
    ParsedValue::Number(s.to_string())
}

fn object(members: Vec<(&str, ParsedValue)>) -> ParsedValue {
    ParsedValue::Object(members.into_iter().map(|(k, v)| (k.to_string(), v)).collect())
}

#[test]
fn test_node_to_json_string_primitives() {
    let value = object(vec![
        ("str", text("hello")),
        ("num", num("42")),
        ("bool", ParsedValue::Bool(true)),
        ("null", ParsedValue::Null),
    ]);
    let tree = build_tree(&value);

    if let Some(root) = tree.get_node(tree.root_index()) {
        for &child_idx in &root.children {
            let json_str = node_to_json_string(&tree, child_idx);
            assert!(!json_str.is_empty());
        }
    }
}

#[test]
fn test_node_to_json_string_nested() {
    let value = object(vec![("nested", object(vec![("key", text("value"))]))]);
    let tree = build_tree(&value);

    let json_str = node_to_json_string(&tree, tree.root_index());
    assert!(json_str.contains("nested"));
    assert!(json_str.contains("key"));
    assert!(json_str.contains("value"));
}

#[test]
fn test_node_to_json_string_minified() {
    let value = object(vec![
        ("key", text("value")),
        ("nested", object(vec![("a", num("1")), ("b", num("2"))])),
    ]);
    let tree = build_tree(&value);

    let minified = node_to_json_string_minified(&tree, tree.root_index());

    assert!(!minified.contains(": "), "Minified should not have ': ' (colon-space)");
    assert!(!minified.contains(", "), "Minified should not have ', ' (comma-space)");

    assert!(minified.contains(":"), "Should contain colons");
    assert!(minified.contains(","), "Should contain commas");
}

#[test]
fn test_node_to_json_string_regular_vs_minified() {
    let value = object(vec![("a", num("1")), ("b", num("2"))]);
    let tree = build_tree(&value);

    let regular = node_to_json_string(&tree, tree.root_index());
    let minified = node_to_json_string_minified(&tree, tree.root_index());

    assert!(regular.len() > minified.len(), "Regular should be longer than minified");

    assert!(regular.starts_with('{'));
    assert!(regular.ends_with('}'));
    assert!(minified.starts_with('{'));
    assert!(minified.ends_with('}'));
}

#[test]
fn test_minified_json_array() {
    let value = ParsedValue::Array(vec![num("1"), num("2"), num("3"), text("test")]);
    let tree = build_tree(&value);

    let minified = node_to_json_string_minified(&tree, tree.root_index());

    assert!(!minified.contains(", "));
    assert!(minified.starts_with('['));
    assert!(minified.ends_with(']'));
}

#[test]
fn test_minified_json_with_special_chars() {
    let value = object(vec![("text", text("line1\nline2\ttab"))]);
    let tree = build_tree(&value);

    let minified = node_to_json_string_minified(&tree, tree.root_index());

    assert!(minified.contains("\\n"), "Should escape newlines");
    assert!(minified.contains("\\t"), "Should escape tabs");
}

#[test]
fn test_minified_json_with_quotes() {
    let value = object(vec![("text", text("he said \"hello\""))]);
    let tree = build_tree(&value);

    let minified = node_to_json_string_minified(&tree, tree.root_index());

    assert!(minified.contains("\\\""), "Should escape quotes");
}

#[test]
fn test_json_primitives_minified() {
    let null_tree = build_tree(&ParsedValue::Null);
    let bool_tree = build_tree(&ParsedValue::Bool(true));
    let num_tree = build_tree(&num("42"));
    let str_tree = build_tree(&text("hello"));

    assert_eq!(node_to_json_string_minified(&null_tree, null_tree.root_index()), "null");
    assert_eq!(node_to_json_string_minified(&bool_tree, bool_tree.root_index()), "true");
    assert_eq!(node_to_json_string_minified(&num_tree, num_tree.root_index()), "42");
    assert_eq!(node_to_json_string_minified(&str_tree, str_tree.root_index()), "\"hello\"");
}

#[test]
fn test_format_node_value_for_copy() {
    let value = object(vec![("str", text("hello")), ("num", num("42"))]);
    let tree = build_tree(&value);

    if let Some(root) = tree.get_node(tree.root_index()) {
        for &child_idx in &root.children {
            let copy_value = format_node_value_for_copy(&tree, child_idx);
            assert!(!copy_value.is_empty());
        }
    }
}

#[test]
fn test_deeply_nested_minified() {
    let value = object(vec![(
        "level1",
        object(vec![(
            "level2",
            object(vec![(
                "level3",
                object(vec![("value", ParsedValue::Array(vec![num("1"), num("2"), num("3")]))]),
            )]),
        )]),
    )]);
    let tree = build_tree(&value);

    let minified = node_to_json_string_minified(&tree, tree.root_index());

    assert!(!minified.contains(": "));
    assert!(!minified.contains(", "));

    assert!(minified.contains("level1"));
    assert!(minified.contains("level2"));
    assert!(minified.contains("level3"));
    assert!(minified.contains("value"));
}

#[test]
fn test_empty_object_and_array() {
    let obj_tree = build_tree(&object(vec![]));
    let arr_tree = build_tree(&ParsedValue::Array(vec![]));

    assert_eq!(node_to_json_string_minified(&obj_tree, obj_tree.root_index()), "{}");
    assert_eq!(node_to_json_string_minified(&arr_tree, arr_tree.root_index()), "[]");
}

#[test]
fn minified_array_scenario_is_exact() {
    let value = ParsedValue::Array(vec![num("1"), num("2"), num("3"), text("x")]);
    let tree = build_tree(&value);
    assert_eq!(node_to_json_string_minified(&tree, tree.root_index()), "[1,2,3,\"x\"]");
}

#[test]
fn spaced_and_minified_exact_texts() {
    let value = object(vec![
        ("a", ParsedValue::Array(vec![num("1"), ParsedValue::Null])),
        ("b", object(vec![("c", ParsedValue::Bool(false))])),
    ]);
    let tree = build_tree(&value);
    let root = tree.root_index();
    assert_eq!(node_to_json_string(&tree, root), "{\"a\": [1, null], \"b\": {\"c\": false}}");
    assert_eq!(node_to_json_string_minified(&tree, root), "{\"a\":[1,null],\"b\":{\"c\":false}}");
}

#[test]
fn minified_and_spaced_parse_to_the_same_value() {
    let value = object(vec![
        ("k, v", text("a: b, c")),
        ("list", ParsedValue::Array(vec![num("1.5"), text("q\"uote"), object(vec![])])),
    ]);
    let tree = build_tree(&value);
    let root = tree.root_index();
    let spaced: serde_json::Value = serde_json::from_str(&node_to_json_string(&tree, root)).unwrap();
    let minified: serde_json::Value =
        serde_json::from_str(&node_to_json_string_minified(&tree, root)).unwrap();
    assert_eq!(spaced, minified);
}

#[test]
fn escape_handles_each_special_character() {
    assert_eq!(escape_json_string("a\\b\"c\nd\re\tf"), "a\\\\b\\\"c\\nd\\re\\tf");
    assert_eq!(escape_json_string("plain é"), "plain é");
    assert_eq!(escape_json_string(""), "");
}

#[test]
fn copy_text_of_scalars_and_containers() {
    let value = object(vec![
        ("s", text("hi \"there\"")),
        ("n", num("7")),
        ("b", ParsedValue::Bool(false)),
        ("z", ParsedValue::Null),
        ("o", object(vec![("x", num("1"))])),
    ]);
    let tree = build_tree(&value);
    let root = tree.get_node(tree.root_index()).unwrap();
    let kids = root.children.clone();
    assert_eq!(format_node_value_for_copy(&tree, kids[0]), "hi \"there\"");
    assert_eq!(format_node_value_for_copy(&tree, kids[1]), "7");
    assert_eq!(format_node_value_for_copy(&tree, kids[2]), "false");
    assert_eq!(format_node_value_for_copy(&tree, kids[3]), "null");
    assert_eq!(format_node_value_for_copy(&tree, kids[4]), "{\"x\": 1}");
    assert_eq!(format_node_value_for_copy(&tree, 1000), "");
}
