use unfold::builder::build_tree;
use unfold::search::search_nodes;
use unfold::value::ParsedValue;

fn text(s: &str) -> ParsedValue {
    ParsedValue::String(s.to_string())
}

fn object(members: Vec<(&str, ParsedValue)>) -> ParsedValue {
    ParsedValue::Object(members.into_iter().map(|(k, v)| (k.to_string(), v)).collect())
}

#[test]
fn test_search_nodes_basic() {
    let value = object(vec![("name", text("Unfold")), ("version", text("1.0"))]);
    let tree = build_tree(&value);

    let (results, error) = search_nodes(&tree, "Unfold", false, false);
    assert!(error.is_none());
    assert!(!results.is_empty(), "Should find 'Unfold'");

    let (results, error) = search_nodes(&tree, "nonexistent", false, false);
    assert!(error.is_none());
    assert!(results.is_empty());
}

#[test]
fn test_search_nodes_case_sensitive() {
    let value = object(vec![("Name", text("Test"))]);
    let tree = build_tree(&value);

    let (results, _) = search_nodes(&tree, "name", false, false);
    assert!(!results.is_empty());

    let (results, _) = search_nodes(&tree, "name", true, false);
    assert!(results.is_empty());

    let (results, _) = search_nodes(&tree, "Name", true, false);
    assert!(!results.is_empty());
}

#[test]
fn test_search_nodes_regex() {
    let value = object(vec![("email", text("test@example.com"))]);
    let tree = build_tree(&value);

    let (results, error) = search_nodes(&tree, r".*@.*\.com", false, true);
    assert!(error.is_none());
    assert!(!results.is_empty());

    let (results, error) = search_nodes(&tree, r"[invalid", false, true);
    assert!(error.is_some());
    assert!(results.is_empty());
}

#[test]
fn search_case_scenario_counts() {
    let tree = build_tree(&object(vec![("name", text("Unfold"))]));
    let (results, error) = search_nodes(&tree, "Unfold", false, false);
    assert_eq!(results, vec![1]);
    assert!(error.is_none());
    let (results, error) = search_nodes(&tree, "unfold", true, false);
    assert!(results.is_empty());
    assert!(error.is_none());
}

#[test]
fn search_invalid_pattern_reports_error() {
    let tree = build_tree(&object(vec![("name", text("Unfold"))]));
    let (results, error) = search_nodes(&tree, "[invalid", true, true);
    assert!(results.is_empty());
    let message = error.unwrap();
    assert!(message.starts_with("Invalid regex: "));
    assert!(message.len() > "Invalid regex: ".len());
}

#[test]
fn search_empty_query_finds_nothing() {
    let tree = build_tree(&object(vec![("a", text("b"))]));
    let (results, error) = search_nodes(&tree, "", false, true);
    assert!(results.is_empty());
    assert!(error.is_none());
}

#[test]
fn search_matches_scalars_by_text_in_index_order() {
    let value = object(vec![
        ("x", ParsedValue::Number("10".to_string())),
        ("flag", ParsedValue::Bool(true)),
        ("nothing", ParsedValue::Null),
        ("list", ParsedValue::Array(vec![text("true story")])),
    ]);
    let tree = build_tree(&value);
    // Nodes: 0 root, 1 x, 2 flag, 3 nothing, 4 list, 5 list item.
    assert_eq!(search_nodes(&tree, "true", true, false).0, vec![2, 5]);
    assert_eq!(search_nodes(&tree, "NULL", false, false).0, vec![3]);
    assert_eq!(search_nodes(&tree, "1", true, false).0, vec![1]);
    assert_eq!(search_nodes(&tree, "LIST", false, false).0, vec![4]);
    assert_eq!(search_nodes(&tree, "^t", true, true).0, vec![2, 5]);
    assert_eq!(search_nodes(&tree, "^T", false, true).0, vec![2, 5]);
}

#[test]
fn search_twice_gives_same_results() {
    let tree = build_tree(&object(vec![("a", text("abc")), ("b", text("cab"))]));
    let first = search_nodes(&tree, "ab", false, false);
    let second = search_nodes(&tree, "ab", false, false);
    assert_eq!(first, second);
    assert_eq!(first.0, vec![1, 2]);
    let bad_first = search_nodes(&tree, "(", false, true);
    let bad_second = search_nodes(&tree, "(", false, true);
    assert_eq!(bad_first, bad_second);
    assert!(bad_first.1.is_some());
}

#[test]
fn search_results_come_top_to_bottom() {
    let tree = build_tree(&object(vec![("a", object(vec![("a", ParsedValue::Number("1".to_string()))]))]));
    assert_eq!(search_nodes(&tree, "a", true, false).0, vec![1, 2]);
}
