use vstd::prelude::*;
use crate::flat_row::{FlatRow, RowModel, ValueType, opt_view};
use crate::node::{JsonNode, JsonValue, is_container};
use crate::text::{decimal, owned, push_decimal};
use crate::tree::JsonTree;

verus! {

pub open spec fn connector(is_last: bool) -> Seq<char> {
    if is_last { "└"@ } else { "├"@ }
}

pub open spec fn continuation(is_last: bool) -> Seq<char> {
    if is_last { "   "@ } else { "│  "@ }
}

/// The value as a row shows it.
pub open spec fn display_of(n: JsonNode) -> Seq<char> {
    match n.value {
        JsonValue::Null => "null"@,
        JsonValue::Bool(b) => if b { "true"@ } else { "false"@ },
        JsonValue::Number(t) => t@,
        JsonValue::String(s) => "\""@ + s@ + "\""@,
        JsonValue::Array => if n.expanded { ":"@ } else { "[...]"@ },
        JsonValue::Object => if n.expanded { ":"@ } else { "{...}"@ },
    }
}

pub open spec fn type_of(n: JsonNode) -> ValueType {
    match n.value {
        JsonValue::Null => ValueType::Null,
        JsonValue::Bool(_) => ValueType::Bool,
        JsonValue::Number(_) => ValueType::Number,
        JsonValue::String(_) => ValueType::String,
        _ => if n.expanded { ValueType::Bracket } else { ValueType::Key },
    }
}

/// The member name of a node, or nothing.
pub open spec fn key_text(n: JsonNode) -> Seq<char> {
    match n.key {
        Some(k) => k@,
        None => Seq::empty(),
    }
}

/// The path of the `k`-th child of `p`: an array item appends `[k]`, an
/// object member `.key`, or only `key` where the parent path is empty.
pub open spec fn child_path(ns: Seq<JsonNode>, p: int, k: int, parent_path: Seq<char>) -> Seq<char> {
    let c = ns[p].children@[k] as int;
    if ns[p].value is Array {
        parent_path + "["@ + decimal(k as nat) + "]"@
    } else if parent_path.len() == 0 {
        key_text(ns[c])
    } else {
        parent_path + "."@ + key_text(ns[c])
    }
}

/// The row of node `i`.
pub open spec fn row_of(ns: Seq<JsonNode>, i: int, prefix: Seq<char>, is_last: bool, path: Seq<char>) -> RowModel {
    RowModel {
        node_index: i as usize,
        prefix: prefix + connector(is_last),
        key: opt_view(ns[i].key),
        value_display: display_of(ns[i]),
        value_type: type_of(ns[i]),
        is_expandable: is_container(ns[i].value),
        is_expanded: ns[i].expanded,
        path,
    }
}

/// Whether the `k`-th child of `p` names a node one level deeper.
pub open spec fn child_ok(ns: Seq<JsonNode>, p: int, k: int) -> bool {
    let c = ns[p].children@[k] as int;
    0 <= c < ns.len() && ns[c].depth == ns[p].depth + 1
}

/// The rows of node `i` and of its visible descendants, in pre-order.
pub open spec fn node_rows(
    ns: Seq<JsonNode>,
    i: int,
    prefix: Seq<char>,
    is_last: bool,
    path: Seq<char>,
) -> Seq<RowModel>
    decreases usize::MAX - ns[i].depth, ns[i].children@.len() + 1,
{
    if !(0 <= i < ns.len()) {
        Seq::empty()
    } else if ns[i].expanded {
        seq![row_of(ns, i, prefix, is_last, path)] + children_rows(
            ns,
            i,
            ns[i].children@.len() as int,
            prefix + continuation(is_last),
            path,
        )
    } else {
        seq![row_of(ns, i, prefix, is_last, path)]
    }
}

/// The rows of the first `k` children of `p` and of their visible
/// descendants.
pub open spec fn children_rows(
    ns: Seq<JsonNode>,
    p: int,
    k: int,
    prefix: Seq<char>,
    path: Seq<char>,
) -> Seq<RowModel>
    decreases usize::MAX - ns[p].depth, k,
{
    if k <= 0 || k > ns[p].children@.len() {
        Seq::empty()
    } else if child_ok(ns, p, k - 1) {
        children_rows(ns, p, k - 1, prefix, path) + node_rows(
            ns,
            ns[p].children@[k - 1] as int,
            prefix,
            k == ns[p].children@.len(),
            child_path(ns, p, k - 1, path),
        )
    } else {
        children_rows(ns, p, k - 1, prefix, path)
    }
}

/// The rows of a tree: the root itself is not shown, its children always are.
pub open spec fn visible_rows(ns: Seq<JsonNode>, root: int) -> Seq<RowModel> {
    if 0 <= root < ns.len() {
        children_rows(ns, root, ns[root].children@.len() as int, Seq::empty(), Seq::empty())
    } else {
        Seq::empty()
    }
}

pub open spec fn models(rows: Seq<FlatRow>) -> Seq<RowModel> {
    rows.map_values(|r: FlatRow| r@)
}

/// Each row knows its own position.
pub open spec fn numbered(rows: Seq<FlatRow>) -> bool {
    forall|p: int| 0 <= p < rows.len() ==> #[trigger] rows[p].row_index == p
}

fn display_value(node: &JsonNode) -> (r: String)
    ensures
        r@ == display_of(*node),
{
    match &node.value {
        JsonValue::Null => owned("null"),
        JsonValue::Bool(b) => if *b { owned("true") } else { owned("false") },
        JsonValue::Number(t) => t.clone(),
        JsonValue::String(s) => {
            let mut d = owned("\"");
            d.append(s.as_str());
            d.append("\"");
            d
        },
        JsonValue::Array => if node.expanded { owned(":") } else { owned("[...]") },
        JsonValue::Object => if node.expanded { owned(":") } else { owned("{...}") },
    }
}

fn value_type_of(node: &JsonNode) -> (r: ValueType)
    ensures
        r == type_of(*node),
{
    match &node.value {
        JsonValue::Null => ValueType::Null,
        JsonValue::Bool(_) => ValueType::Bool,
        JsonValue::Number(_) => ValueType::Number,
        JsonValue::String(_) => ValueType::String,
        _ => if node.expanded { ValueType::Bracket } else { ValueType::Key },
    }
}

fn copy_key(key: &Option<String>) -> (r: Option<String>)
    ensures
        r == *key,
{
    match key {
        Some(k) => Some(k.clone()),
        None => None,
    }
}

/// The path of the `k`-th child of node `p`.
pub fn path_of_child(tree: &JsonTree, p: usize, k: usize, parent_path: &str) -> (r: String)
    requires
        tree.wf(),
        p < tree.spec_nodes().len(),
        k < tree.spec_nodes()[p as int].children@.len(),
    ensures
        r@ == child_path(tree.spec_nodes(), p as int, k as int, parent_path@),
{
    let parent = match tree.get_node(p) {
        Some(n) => n,
        None => { return String::new(); },
    };
    let c = parent.children[k];
    let child = match tree.get_node(c) {
        Some(n) => n,
        None => { return String::new(); },
    };
    let mut r = owned(parent_path);
    match parent.value {
        JsonValue::Array => {
            r.append("[");
            push_decimal(&mut r, k);
            r.append("]");
        },
        _ => {
            if parent_path.unicode_len() > 0 {
                r.append(".");
            }
            match &child.key {
                Some(key) => r.append(key.as_str()),
                None => {},
            }
        },
    }
    proof {
        let ns = tree.spec_nodes();
        if !(ns[p as int].value is Array) {
            if parent_path@.len() == 0 {
                assert(r@ =~= key_text(ns[c as int]));
            } else {
                assert(r@ =~= parent_path@ + "."@ + key_text(ns[c as int]));
            }
        }
    }
    r
}

fn flatten_node(
    tree: &JsonTree,
    index: usize,
    rows: &mut Vec<FlatRow>,
    prefix: &str,
    is_last: bool,
    path: &str,
)
    requires
        tree.wf(),
        index < tree.spec_nodes().len(),
        numbered(old(rows)@),
    ensures
        numbered(final(rows)@),
        models(final(rows)@) == models(old(rows)@) + node_rows(
            tree.spec_nodes(),
            index as int,
            prefix@,
            is_last,
            path@,
        ),
    decreases usize::MAX - tree.spec_nodes()[index as int].depth,
{
    let ghost ns = tree.spec_nodes();
    let node = match tree.get_node(index) {
        Some(n) => n,
        None => { return; },
    };
    let mut current = owned(prefix);
    current.append(if is_last { "└" } else { "├" });
    let row_index = rows.len();
    let row = FlatRow::new(
        index,
        current,
        copy_key(&node.key),
        display_value(node),
        value_type_of(node),
        node.is_expandable(),
        node.expanded,
        row_index,
        owned(path),
    );
    assert(row@ == row_of(ns, index as int, prefix@, is_last, path@));
    rows.push(row);
    proof {
        assert(models(rows@) =~= models(old(rows)@) + seq![row_of(ns, index as int, prefix@, is_last, path@)]);
    }
    if node.expanded {
        let mut child_prefix = owned(prefix);
        child_prefix.append(if is_last { "   " } else { "│  " });
        let n = node.children.len();
        let ghost base = models(rows@);
        let mut k: usize = 0;
        while k < n
            invariant
                tree.wf(),
                ns == tree.spec_nodes(),
                index < ns.len(),
                *node == ns[index as int],
                n == node.children@.len(),
                k <= n,
                numbered(rows@),
                child_prefix@ == prefix@ + continuation(is_last),
                base == models(old(rows)@) + seq![row_of(ns, index as int, prefix@, is_last, path@)],
                models(rows@) == base + children_rows(ns, index as int, k as int, child_prefix@, path@),
            decreases n - k,
        {
            let c = node.children[k];
            assert(child_ok(ns, index as int, k as int));
            let child_path_text = path_of_child(tree, index, k, path);
            flatten_node(tree, c, rows, child_prefix.as_str(), k + 1 == n, child_path_text.as_str());
            proof {
                assert(models(rows@) =~= base + children_rows(ns, index as int, k + 1, child_prefix@, path@));
            }
            k = k + 1;
        }
    }
}

/// The rows of every visible node, in display order: the root's children,
/// and below each expanded container its children, recursively.
pub fn flatten_visible_nodes(tree: &JsonTree) -> (rows: Vec<FlatRow>)
    requires
        tree.wf(),
    ensures
        numbered(rows@),
        models(rows@) == visible_rows(tree.spec_nodes(), tree.spec_root() as int),
{
    let ghost ns = tree.spec_nodes();
    let mut rows: Vec<FlatRow> = Vec::new();
    let root_index = tree.root_index();
    let root = match tree.get_node(root_index) {
        Some(n) => n,
        None => {
            assert(models(rows@) =~= Seq::empty());
            return rows;
        },
    };
    let n = root.children.len();
    let mut k: usize = 0;
    assert(models(rows@) =~= Seq::empty());
    while k < n
        invariant
            tree.wf(),
            ns == tree.spec_nodes(),
            root_index == tree.spec_root(),
            root_index < ns.len(),
            *root == ns[root_index as int],
            n == root.children@.len(),
            k <= n,
            numbered(rows@),
            models(rows@) == children_rows(ns, root_index as int, k as int, Seq::empty(), Seq::empty()),
        decreases n - k,
    {
        let c = root.children[k];
        assert(child_ok(ns, root_index as int, k as int));
        let child_path_text = path_of_child(tree, root_index, k, "");
        proof {
            reveal_strlit("");
            assert(""@ =~= Seq::<char>::empty());
        }
        flatten_node(tree, c, &mut rows, "", k + 1 == n, child_path_text.as_str());
        proof {
            assert(models(rows@) =~= children_rows(ns, root_index as int, k + 1, Seq::empty(), Seq::empty()));
        }
        k = k + 1;
    }
    rows
}

} // verus!
