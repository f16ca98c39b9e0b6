use unfold::builder::build_tree;
use unfold::dump::max_line_chars;
use unfold::flat_row::{FlatRow, ValueType};
use unfold::flatten::flatten_visible_nodes;
use unfold::navigation::{expand_to_node, path_to_node};
use unfold::parse_error::{nth_line, ErrorCategory, ParseError};
use unfold::session::{Preferences, Viewer};
use unfold::tree::JsonTree;
use unfold::value::ParsedValue;
use unfold::viewport::{rows_to_draw, scroll_offset_for, visible_range};

fn text(s: &str) -> ParsedValue {
    ParsedValue::String(s.to_string())
}

fn num(s: &str) -> ParsedValue {
    ParsedValue::Number(s.to_string())
}

fn object(members: Vec<(&str, ParsedValue)>) -> ParsedValue {
    ParsedValue::Object(members.into_iter().map(|(k, v)| (k.to_string(), v)).collect())
}

fn expand_all(tree: &mut JsonTree) {
    for i in 0..tree.node_count() {
        tree.set_expanded(i, true);
    }
}

#[test]
fn flatten_two_members_scenario() {
    let tree = build_tree(&object(vec![("a", num("1")), ("b", num("2"))]));
    assert_eq!(tree.node_count(), 3);
    let rows = flatten_visible_nodes(&tree);
    let paths: Vec<&str> = rows.iter().map(|r| r.path.as_str()).collect();
    assert_eq!(paths, vec!["a", "b"]);
    assert_eq!(rows[0].prefix, "├");
    assert_eq!(rows[1].prefix, "└");
    assert_eq!(rows[0].key, Some("a".to_string()));
    assert_eq!(rows[0].value_display, "1");
    assert_eq!(rows[1].row_index, 1);
}

#[test]
fn flatten_paths_prefixes_and_displays() {
    let value = object(vec![(
        "users",
        ParsedValue::Array(vec![
            object(vec![("email", text("a@x.org"))]),
            object(vec![]),
            object(vec![("email", text("c@x.org")), ("ok", ParsedValue::Bool(true))]),
        ]),
    )]);
    let mut tree = build_tree(&value);
    expand_all(&mut tree);
    let rows = flatten_visible_nodes(&tree);
    let paths: Vec<&str> = rows.iter().map(|r| r.path.as_str()).collect();
    assert_eq!(
        paths,
        vec!["users", "users[0]", "users[0].email", "users[1]", "users[2]", "users[2].email", "users[2].ok"]
    );
    let prefixes: Vec<&str> = rows.iter().map(|r| r.prefix.as_str()).collect();
    assert_eq!(prefixes, vec!["└", "   ├", "   │  └", "   ├", "   └", "      ├", "      └"]);
    assert_eq!(rows[0].value_display, ":");
    assert_eq!(rows[0].value_type, ValueType::Bracket);
    assert_eq!(rows[2].value_display, "\"a@x.org\"");
    assert_eq!(rows[2].value_type, ValueType::String);
    assert_eq!(rows[6].value_display, "true");
    assert_eq!(rows[1].key, None);
    for (i, r) in rows.iter().enumerate() {
        assert_eq!(r.row_index, i);
    }
}

#[test]
fn collapsed_containers_show_previews() {
    let value = object(vec![("o", object(vec![("x", num("1"))])), ("l", ParsedValue::Array(vec![]))]);
    let tree = build_tree(&value);
    let rows = flatten_visible_nodes(&tree);
    assert_eq!(rows.len(), 2);
    assert_eq!(rows[0].value_display, "{...}");
    assert_eq!(rows[1].value_display, "[...]");
    assert_eq!(rows[0].value_type, ValueType::Key);
    assert!(rows[0].is_expandable && !rows[0].is_expanded);
}

#[test]
fn empty_containers_have_no_rows() {
    assert!(flatten_visible_nodes(&build_tree(&object(vec![]))).is_empty());
    assert!(flatten_visible_nodes(&build_tree(&ParsedValue::Array(vec![]))).is_empty());
}

#[test]
fn rows_follow_expansion_of_every_ancestor() {
    let value = object(vec![("a", object(vec![("b", object(vec![("c", num("1"))]))]))]);
    let mut tree = build_tree(&value);
    // Nodes: 0 root, 1 a, 2 b, 3 c.
    let shown = |t: &JsonTree| -> Vec<usize> { flatten_visible_nodes(t).iter().map(|r| r.node_index).collect() };
    assert_eq!(shown(&tree), vec![1]);
    tree.set_expanded(2, true);
    assert_eq!(shown(&tree), vec![1]);
    tree.set_expanded(1, true);
    assert_eq!(shown(&tree), vec![1, 2, 3]);
    tree.set_expanded(1, false);
    assert_eq!(shown(&tree), vec![1]);
}

#[test]
fn row_paths_resolve_in_the_document() {
    let doc: serde_json::Value =
        serde_json::from_str(r#"{"users": [{"email": "a"}, {"email": "b", "tags": ["x", "y"]}]}"#).unwrap();
    let value = object(vec![(
        "users",
        ParsedValue::Array(vec![
            object(vec![("email", text("a"))]),
            object(vec![("email", text("b")), ("tags", ParsedValue::Array(vec![text("x"), text("y")]))]),
        ]),
    )]);
    let mut tree = build_tree(&value);
    expand_all(&mut tree);
    for row in flatten_visible_nodes(&tree) {
        let pointer: String = row
            .path
            .replace('[', ".")
            .replace(']', "")
            .split('.')
            .map(|s| format!("/{}", s))
            .collect();
        let found = doc.pointer(&pointer).unwrap();
        if let Some(s) = found.as_str() {
            assert_eq!(row.value_display, format!("\"{}\"", s));
        }
    }
}

#[test]
fn flat_row_new_keeps_fields() {
    let r = FlatRow::new(3, "├".to_string(), None, "1".to_string(), ValueType::Number, false, false, 7, "[3]".to_string());
    assert_eq!(r.node_index, 3);
    assert_eq!(r.row_index, 7);
    assert_eq!(r.path, "[3]");
}

#[test]
fn window_formula_values() {
    // 100 rows, offset 160 px, 64 px viewport, 16 px rows, 5 buffer rows.
    assert_eq!(visible_range(100, 160, 64, 16, 5), (5, 20));
    assert_eq!(visible_range(100, 0, 64, 16, 5), (0, 10));
    assert_eq!(visible_range(12, 160, 70, 16, 5), (5, 12));
    assert_eq!(visible_range(0, 0, 600, 16, 5), (0, 0));
}

#[test]
fn window_size_is_bounded() {
    for total in [0usize, 10, 1000, 1_000_000] {
        for offset in [0usize, 17, 1600, 1_000_000] {
            let (start, end) = visible_range(total, offset, 640, 16, 5);
            assert!(end <= start || end - start <= 640 / 16 + 2 * 5 + 1);
        }
    }
}

#[test]
fn scroll_offset_centres_first_row() {
    let tree = {
        let mut t = build_tree(&ParsedValue::Array((0..50).map(|i| num(&i.to_string())).collect()));
        let root = t.root_index();
        t.set_expanded(root, true);
        t
    };
    let rows = flatten_visible_nodes(&tree);
    assert_eq!(scroll_offset_for(&rows, rows[40].node_index, 200, 16), Some(40 * 16 - 100));
    assert_eq!(scroll_offset_for(&rows, rows[2].node_index, 200, 16), Some(0));
    assert_eq!(scroll_offset_for(&rows, 9999, 200, 16), None);
}

fn deep_document() -> ParsedValue {
    object(vec![
        ("a", object(vec![("b", object(vec![("c", object(vec![("d", num("1"))]))]))])),
        ("side", object(vec![("s", num("2"))])),
    ])
}

#[test]
fn reveal_expands_exactly_the_ancestors() {
    let mut tree = build_tree(&deep_document());
    // Nodes: 0 root, 1 a, 2 b, 3 c, 4 d, 5 side, 6 s.
    assert_eq!(path_to_node(&tree, 4), vec![0, 1, 2, 3, 4]);
    expand_to_node(&mut tree, 4);
    let expanded: Vec<usize> = (0..tree.node_count()).filter(|&i| tree.get_node(i).unwrap().expanded).collect();
    assert_eq!(expanded, vec![0, 1, 2, 3]);
    let shown: Vec<usize> = flatten_visible_nodes(&tree).iter().map(|r| r.node_index).collect();
    assert!(shown.contains(&4));
    assert!(!shown.contains(&6));
    expand_to_node(&mut tree, 4);
    let again: Vec<usize> = (0..tree.node_count()).filter(|&i| tree.get_node(i).unwrap().expanded).collect();
    assert_eq!(again, expanded);
}

#[test]
fn path_to_missing_node_is_empty() {
    let tree = build_tree(&deep_document());
    assert!(path_to_node(&tree, 42).is_empty());
    assert_eq!(path_to_node(&tree, 0), vec![0]);
}

#[test]
fn viewer_search_navigation_wraps() {
    let value = object(vec![
        ("x", object(vec![("name", text("one"))])),
        ("y", object(vec![("name", text("two"))])),
    ]);
    let mut viewer = Viewer::new(build_tree(&value));
    assert_eq!(viewer.rows().len(), 2);
    let (first, error) = viewer.run_search("name", false, false);
    assert!(error.is_none());
    // Nodes: 0 root, 1 x, 2 name(one), 3 y, 4 name(two).
    assert_eq!(first, Some(2));
    assert_eq!(viewer.search().results(), &vec![2, 4]);
    assert_eq!(viewer.search().cursor(), Some(0));
    assert!(viewer.rows().iter().any(|r| r.node_index == 2));
    assert!(viewer.search().is_match(4));
    assert!(!viewer.search().is_match(1));
    assert!(viewer.search().is_current(2));
    assert_eq!(viewer.search_next(), Some(4));
    assert_eq!(viewer.search().cursor(), Some(1));
    assert!(viewer.rows().iter().any(|r| r.node_index == 4));
    assert_eq!(viewer.search_next(), Some(2));
    assert_eq!(viewer.search_prev(), Some(4));
    assert_eq!(viewer.search_prev(), Some(2));
    assert!(viewer.scroll_target(2, 32, 16).is_some());
}

#[test]
fn viewer_keeps_results_on_bad_pattern() {
    let mut viewer = Viewer::new(build_tree(&object(vec![("name", text("Unfold"))])));
    viewer.run_search("Unfold", false, false);
    assert_eq!(viewer.search().results(), &vec![1]);
    let (target, error) = viewer.run_search("[invalid", false, true);
    assert!(target.is_none());
    assert!(!error.unwrap().is_empty());
    assert_eq!(viewer.search().results(), &vec![1]);
    assert_eq!(viewer.search().cursor(), Some(0));
    let (target, error) = viewer.run_search("", false, false);
    assert!(target.is_none() && error.is_none());
    assert!(viewer.search().results().is_empty());
    assert_eq!(viewer.search_next(), None);
}

#[test]
fn viewer_toggle_rebuilds_rows() {
    let mut viewer = Viewer::new(build_tree(&object(vec![("o", object(vec![("k", num("1"))]))])));
    assert_eq!(viewer.rows().len(), 1);
    viewer.toggle_node(1);
    assert_eq!(viewer.rows().len(), 2);
    viewer.toggle_node(1);
    assert_eq!(viewer.rows().len(), 1);
}

#[test]
fn preferences_default() {
    let p = Preferences::default();
    assert_eq!(p.indent_size, 2);
    assert!(p.show_tree_lines);
}

#[test]
fn widest_line_estimate() {
    let value = object(vec![("name", text("Unfold")), ("n", num("12"))]);
    let mut tree = build_tree(&value);
    let root = tree.root_index();
    // Root alone: marker and ":".
    assert_eq!(max_line_chars(&tree, root, 0), 3);
    tree.set_expanded(root, true);
    // "name" line: 3 + 2 + (4 + 3) + (6 + 2) = 20.
    assert_eq!(max_line_chars(&tree, root, 0), 20);
}

#[test]
fn lines_follow_str_lines() {
    let contents = "first\r\nsecond\n\nfourth\r";
    for n in 0..6 {
        assert_eq!(nth_line(contents, n), contents.lines().nth(n).map(|s| s.to_string()));
    }
    assert_eq!(nth_line("a\n", 1), None);
    assert_eq!(nth_line("", 0), None);
}

#[test]
fn parse_error_messages() {
    let e = ParseError::from_parts(ErrorCategory::Syntax, "expected value at line 2 column 3", 2, 3, "{\n  x\n}", "f.json");
    assert_eq!(e.message, "expected value");
    assert_eq!(e.line, Some(2));
    assert_eq!(e.column, Some(3));
    assert_eq!(e.context_line, Some("  x".to_string()));
    assert_eq!(e.filename, "f.json");
    let e = ParseError::from_parts(ErrorCategory::Eof, "EOF while parsing", 1, 1, "", "g");
    assert_eq!(e.message, "Unexpected end of file");
    assert_eq!(e.context_line, None);
    let e = ParseError::from_parts(ErrorCategory::Data, "bad", 1, 1, "x", "g");
    assert_eq!(e.message, "Data error: bad");
}

#[test]
fn parse_error_from_serde() {
    let contents = "{\n  \"a\": ,\n}";
    let err = serde_json::from_str::<serde_json::Value>(contents).unwrap_err();
    let e = ParseError::from_serde_error(&err, contents, "doc.json");
    assert_eq!(e.line, Some(2));
    assert_eq!(e.context_line, Some("  \"a\": ,".to_string()));
    assert!(!e.message.contains(" at line "));
    assert_eq!(e.filename, "doc.json");
}

#[test]
fn viewer_expands_and_collapses_children() {
    let value = object(vec![
        ("a", object(vec![("x", object(vec![])), ("y", num("1")), ("z", ParsedValue::Array(vec![]))])),
    ]);
    let mut viewer = Viewer::new(build_tree(&value));
    // Nodes: 0 root, 1 a, 2 x, 3 y, 4 z.
    viewer.toggle_node(1);
    viewer.set_children_expanded(1, true);
    let open: Vec<usize> = (0..5).filter(|&i| viewer.tree().get_node(i).unwrap().expanded).collect();
    assert_eq!(open, vec![1, 2, 4]);
    viewer.set_children_expanded(1, false);
    let open: Vec<usize> = (0..5).filter(|&i| viewer.tree().get_node(i).unwrap().expanded).collect();
    assert_eq!(open, vec![1]);
    viewer.set_children_expanded(99, true);
    assert_eq!(viewer.rows().len(), 4);
}

#[test]
fn draw_range_never_inverts() {
    assert_eq!(visible_range(12, 1600, 64, 16, 5), (95, 12));
    assert_eq!(rows_to_draw(12, 1600, 64, 16, 5), (12, 12));
    assert_eq!(rows_to_draw(100, 160, 64, 16, 5), (5, 20));
}
