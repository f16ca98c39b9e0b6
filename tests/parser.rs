use unfold::builder::build_tree;
use unfold::node::{JsonNode, JsonValue};
use unfold::tree::JsonTree;
use unfold::value::ParsedValue;

fn text(s: &str) -> ParsedValue {
    ParsedValue::String(s.to_string())
}

fn object(members: Vec<(&str, ParsedValue)>) -> ParsedValue {
    ParsedValue::Object(members.into_iter().map(|(k, v)| (k.to_string(), v)).collect())
}

#[test]
fn test_create_null_node() {
    let node = JsonNode {
        key: None,
        value: JsonValue::Null,
        depth: 0,
        children: vec![],
        expanded: false,
    };

    assert_eq!(node.value, JsonValue::Null);
    assert_eq!(node.depth, 0);
    assert!(node.children.is_empty());
}

#[test]
fn test_create_string_node() {
    let node = JsonNode {
        key: Some(String::from("greeting")),
        value: JsonValue::String(String::from("Hello, Rust!")),
        depth: 1,
        children: vec![],
        expanded: false,
    };

    assert_eq!(node.key, Some(String::from("greeting")));

    match &node.value {
        JsonValue::String(s) => assert_eq!(s, "Hello, Rust!"),
        _ => panic!("Expected a String variant"),
    }
}

#[test]
fn test_create_number_node() {
    let node = JsonNode {
        key: Some(String::from("count")),
        value: JsonValue::Number(String::from("42")),
        depth: 1,
        children: vec![],
        expanded: false,
    };

    match node.value {
        JsonValue::Number(n) => assert_eq!(n, "42"),
        _ => panic!("Expected a Number variant"),
    }
}

#[test]
fn test_create_bool_node() {
    let node = JsonNode {
        key: Some(String::from("active")),
        value: JsonValue::Bool(true),
        depth: 1,
        children: vec![],
        expanded: false,
    };

    assert_eq!(node.value, JsonValue::Bool(true));
}

#[test]
fn test_create_object_node_with_children() {
    let node = JsonNode {
        key: Some(String::from("user")),
        value: JsonValue::Object,
        depth: 1,
        children: vec![2, 3, 4],
        expanded: false,
    };

    assert_eq!(node.value, JsonValue::Object);
    assert_eq!(node.children.len(), 3);
    assert_eq!(node.children[0], 2);
}

#[test]
fn test_create_array_node() {
    let node = JsonNode {
        key: Some(String::from("items")),
        value: JsonValue::Array,
        depth: 1,
        children: vec![5, 6, 7, 8],
        expanded: false,
    };

    assert_eq!(node.value, JsonValue::Array);
    assert_eq!(node.children.len(), 4);
}

#[test]
fn test_create_empty_tree() {
    let tree = JsonTree::new();

    assert_eq!(tree.node_count(), 0);
    assert!(tree.root().is_none());
}

#[test]
fn test_add_single_node() {
    let mut tree = JsonTree::new();

    let node = JsonNode {
        key: None,
        value: JsonValue::Object,
        depth: 0,
        children: vec![],
        expanded: true,
    };

    let index = tree.add_node(node);

    assert_eq!(index, 0);
    assert_eq!(tree.node_count(), 1);
    assert!(tree.root().is_some());
}

#[test]
fn test_build_simple_tree() {
    let mut tree = JsonTree::new();

    let name_node = JsonNode {
        key: Some(String::from("name")),
        value: JsonValue::String(String::from("Unfold")),
        depth: 1,
        children: vec![],
        expanded: false,
    };
    let name_index = tree.add_node(name_node);

    let root_node = JsonNode {
        key: None,
        value: JsonValue::Object,
        depth: 0,
        children: vec![name_index],
        expanded: true,
    };
    tree.add_node(root_node);

    assert_eq!(tree.node_count(), 2);

    let root = tree.get_node(1).unwrap();
    assert_eq!(root.value, JsonValue::Object);
    assert_eq!(root.children.len(), 1);

    let child = tree.get_node(root.children[0]).unwrap();
    assert_eq!(child.key, Some(String::from("name")));
}

// A freshly built tree starts with every container collapsed, so the first
// toggle opens the root and the second closes it again.
#[test]
fn test_toggle_expanded() {
    let value = object(vec![("name", text("Unfold"))]);
    let mut tree = build_tree(&value);

    let root_idx = tree.root_index();

    assert!(!tree.get_node(root_idx).unwrap().expanded);

    tree.toggle_expanded(root_idx);
    assert!(tree.get_node(root_idx).unwrap().expanded);

    tree.toggle_expanded(root_idx);
    assert!(!tree.get_node(root_idx).unwrap().expanded);
}

// The root starts collapsed; it is opened so that the dump shows the members.
#[test]
fn test_print_tree() {
    let value = object(vec![("name", text("Unfold")), ("version", text("0.1.0"))]);

    let mut tree = build_tree(&value);
    let root = tree.root_index();
    tree.set_expanded(root, true);
    let output = tree.print_tree();

    println!("{}", output);

    assert!(output.contains("name"));
    assert!(output.contains("Unfold"));
    assert!(output.contains("version"));
}

#[test]
fn print_tree_exact_lines() {
    let value = object(vec![
        ("name", text("Unfold")),
        ("tags", ParsedValue::Array(vec![text("a"), text("b")])),
    ]);
    let mut tree = build_tree(&value);
    let root = tree.root_index();
    assert_eq!(tree.print_tree(), "▶ {2 fields}\n");
    tree.set_expanded(root, true);
    assert_eq!(
        tree.print_tree(),
        "▼ {2 fields}\n    \"name\": \"Unfold\"\n  ▶ \"tags\": [2 items]\n"
    );
}

#[test]
fn test_build_null() {
    let tree = build_tree(&ParsedValue::Null);

    assert_eq!(tree.node_count(), 1);

    let root = tree.root().unwrap();
    assert_eq!(root.value, JsonValue::Null);
}

#[test]
fn test_build_simple_object() {
    let value = object(vec![("name", text("Unfold"))]);
    let tree = build_tree(&value);

    assert_eq!(tree.node_count(), 2);
}

#[test]
fn test_build_nested_object() {
    let value = object(vec![(
        "app",
        object(vec![("name", text("Unfold")), ("version", text("0.1.0"))]),
    )]);
    let tree = build_tree(&value);

    assert_eq!(tree.node_count(), 4);
}

#[test]
fn test_build_array() {
    let value = ParsedValue::Array(vec![text("a"), text("b"), text("c")]);
    let tree = build_tree(&value);

    assert_eq!(tree.node_count(), 4);

    let root = tree.root().unwrap();
    assert_eq!(root.value, JsonValue::Array);
    assert_eq!(root.children.len(), 3);
}

#[test]
fn build_assigns_depths_keys_and_collapses() {
    let value = object(vec![("list", ParsedValue::Array(vec![ParsedValue::Bool(true)]))]);
    let tree = build_tree(&value);
    assert_eq!(tree.node_count(), 3);
    assert_eq!(tree.root_index(), 0);
    let root = tree.root().unwrap();
    assert_eq!(root.depth, 0);
    assert!(!root.expanded);
    let list = tree.get_node(root.children[0]).unwrap();
    assert_eq!(list.key, Some("list".to_string()));
    assert_eq!(list.depth, 1);
    assert!(!list.expanded);
    let item = tree.get_node(list.children[0]).unwrap();
    assert_eq!(item.key, None);
    assert_eq!(item.depth, 2);
    assert_eq!(item.value, JsonValue::Bool(true));
}

#[test]
fn toggle_ignores_scalars_and_bad_indices() {
    let value = object(vec![("n", ParsedValue::Number("1".to_string()))]);
    let mut tree = build_tree(&value);
    tree.toggle_expanded(1);
    assert!(!tree.get_node(1).unwrap().expanded);
    tree.toggle_expanded(99);
    tree.set_expanded(99, true);
    tree.set_expanded(1, true);
    assert!(!tree.get_node(1).unwrap().expanded);
    assert!(tree.get_node(99).is_none());
}

#[test]
fn toggle_twice_restores() {
    let value = object(vec![("a", object(vec![]))]);
    let mut tree = build_tree(&value);
    let before = tree.get_node(0).unwrap().expanded;
    tree.toggle_expanded(0);
    assert_ne!(tree.get_node(0).unwrap().expanded, before);
    tree.toggle_expanded(0);
    assert_eq!(tree.get_node(0).unwrap().expanded, before);
}

#[test]
fn get_node_mut_changes_in_place() {
    let mut tree = build_tree(&object(vec![("a", text("x"))]));
    if let Some(node) = tree.get_node_mut(1) {
        node.key = Some("b".to_string());
    }
    assert_eq!(tree.get_node(1).unwrap().key, Some("b".to_string()));
    assert!(tree.get_node_mut(5).is_none());
}

#[test]
fn nodes_are_numbered_in_document_order() {
    let value = object(vec![
        ("a", object(vec![("b", text("x"))])),
        ("c", ParsedValue::Array(vec![text("y"), text("z")])),
    ]);
    let tree = build_tree(&value);
    let keys: Vec<Option<String>> = (0..tree.node_count()).map(|i| tree.get_node(i).unwrap().key.clone()).collect();
    let name = |s: &str| Some(s.to_string());
    assert_eq!(keys, vec![None, name("a"), name("b"), name("c"), None, None]);
    assert_eq!(tree.get_node(0).unwrap().children, vec![1, 3]);
    assert_eq!(tree.get_node(3).unwrap().children, vec![4, 5]);
}
