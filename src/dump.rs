use vstd::prelude::*;
use crate::flatten::child_ok;
use crate::node::{JsonNode, JsonValue, is_container};
use crate::text::{decimal, push_decimal};
use crate::tree::JsonTree;

verus! {

/// `n` copies of two spaces.
pub open spec fn indent_text(n: nat) -> Seq<char>
    decreases n,
{
    if n == 0 { Seq::empty() } else { indent_text((n - 1) as nat) + "  "@ }
}

/// How a node's value is written in a dump: containers show their size.
pub open spec fn dump_value(n: JsonNode) -> Seq<char> {
    match n.value {
        JsonValue::Null => "null"@,
        JsonValue::Bool(b) => if b { "true"@ } else { "false"@ },
        JsonValue::Number(t) => t@,
        JsonValue::String(s) => "\""@ + s@ + "\""@,
        JsonValue::Array => "["@ + decimal(n.children@.len()) + " items]"@,
        JsonValue::Object => "{"@ + decimal(n.children@.len()) + " fields}"@,
    }
}

/// One line of a dump: indentation, an open or closed marker for
/// containers, the quoted key, the value.
pub open spec fn dump_line(n: JsonNode, indent: nat) -> Seq<char> {
    let marker = if is_container(n.value) {
        if n.expanded { "▼ "@ } else { "▶ "@ }
    } else {
        "  "@
    };
    let key = match n.key {
        Some(k) => "\""@ + k@ + "\": "@,
        None => Seq::empty(),
    };
    indent_text(indent) + marker + key + dump_value(n) + "\n"@
}

/// The dump of node `i` and of its children where it is expanded.
pub open spec fn dump_node(ns: Seq<JsonNode>, i: int, indent: nat) -> Seq<char>
    decreases usize::MAX - ns[i].depth, ns[i].children@.len() + 1,
{
    if !(0 <= i < ns.len()) {
        Seq::empty()
    } else if ns[i].expanded {
        dump_line(ns[i], indent) + dump_children(ns, i, ns[i].children@.len() as int, indent + 1)
    } else {
        dump_line(ns[i], indent)
    }
}

/// The dumps of the first `k` children of `p`.
pub open spec fn dump_children(ns: Seq<JsonNode>, p: int, k: int, indent: nat) -> Seq<char>
    decreases usize::MAX - ns[p].depth, k,
{
    if k <= 0 || k > ns[p].children@.len() {
        Seq::empty()
    } else if child_ok(ns, p, k - 1) {
        dump_children(ns, p, k - 1, indent) + dump_node(ns, ns[p].children@[k - 1] as int, indent)
    } else {
        dump_children(ns, p, k - 1, indent)
    }
}

fn dump_one(node: &JsonNode, indent: usize) -> (r: String)
    ensures
        r@ == dump_line(*node, indent as nat),
{
    let mut out = String::new();
    let mut k: usize = 0;
    while k < indent
        invariant
            k <= indent,
            out@ == indent_text(k as nat),
        decreases indent - k,
    {
        out.append("  ");
        k = k + 1;
    }
    if node.is_expandable() {
        out.append(if node.expanded { "▼ " } else { "▶ " });
    } else {
        out.append("  ");
    }
    match &node.key {
        Some(key) => {
            out.append("\"");
            out.append(key.as_str());
            out.append("\": ");
        },
        None => {},
    }
    match &node.value {
        JsonValue::Null => out.append("null"),
        JsonValue::Bool(b) => out.append(if *b { "true" } else { "false" }),
        JsonValue::Number(t) => out.append(t.as_str()),
        JsonValue::String(s) => {
            out.append("\"");
            out.append(s.as_str());
            out.append("\"");
        },
        JsonValue::Array => {
            out.append("[");
            push_decimal(&mut out, node.children.len());
            out.append(" items]");
        },
        JsonValue::Object => {
            out.append("{");
            push_decimal(&mut out, node.children.len());
            out.append(" fields}");
        },
    }
    out.append("\n");
    assert(out@ =~= dump_line(*node, indent as nat));
    out
}

impl JsonTree {
    /// A text picture of the tree: one line per node from the root down,
    /// children of expanded nodes indented below them.
    pub fn print_tree(&self) -> (r: String)
        requires
            self.wf(),
        ensures
            r@ == dump_node(self.spec_nodes(), self.spec_root() as int, 0),
    {
        let mut output = String::new();
        if self.root_index() < self.node_count() {
            self.print_node(&mut output, self.root_index(), 0);
        }
        output
    }

    fn print_node(&self, output: &mut String, index: usize, indent: usize)
        requires
            self.wf(),
            index < self.spec_nodes().len(),
            indent <= self.spec_nodes()[index as int].depth,
        ensures
            final(output)@ == old(output)@ + dump_node(self.spec_nodes(), index as int, indent as nat),
        decreases usize::MAX - self.spec_nodes()[index as int].depth,
    {
        let ghost ns = self.spec_nodes();
        let node = match self.get_node(index) {
            Some(n) => n,
            None => { return; },
        };
        let line = dump_one(node, indent);
        output.append(line.as_str());
        if node.expanded {
            let ghost base = output@;
            let n = node.children.len();
            let mut k: usize = 0;
            while k < n
                invariant
                    self.wf(),
                    ns == self.spec_nodes(),
                    index < ns.len(),
                    *node == ns[index as int],
                    indent <= ns[index as int].depth,
                    n == node.children@.len(),
                    k <= n,
                    output@ == base + dump_children(ns, index as int, k as int, (indent + 1) as nat),
                decreases n - k,
            {
                let c = node.children[k];
                assert(child_ok(ns, index as int, k as int));
                self.print_node(output, c, indent + 1);
                proof {
                    assert(output@ =~= base + dump_children(ns, index as int, k + 1, (indent + 1) as nat));
                }
                k = k + 1;
            }
            assert(output@ =~= old(output)@ + dump_node(ns, index as int, indent as nat));
        }
    }
}

/// `x`, or `usize::MAX` where it is larger.
pub open spec fn capped(x: int) -> int {
    if x > usize::MAX { usize::MAX as int } else { x }
}

/// The estimated width, in characters, of a node's line at `depth`: three
/// per level, two for the marker, the key with `": "`, and the value.
pub open spec fn own_width(n: JsonNode, depth: int) -> int {
    let key = match n.key {
        Some(k) => k@.len() + 3int,
        None => 0,
    };
    let value = match n.value {
        JsonValue::Null => 4,
        JsonValue::Bool(b) => if b { 4 } else { 5 },
        JsonValue::Number(t) => t@.len() as int,
        JsonValue::String(s) => s@.len() + 2int,
        _ => 1,
    };
    capped(3 * depth + 2 + key + value)
}

/// The widest line among a node and its visible descendants.
pub open spec fn width_of(ns: Seq<JsonNode>, i: int, depth: int) -> int
    decreases usize::MAX - ns[i].depth, ns[i].children@.len() + 1,
{
    if !(0 <= i < ns.len()) {
        0
    } else if ns[i].expanded {
        let below = children_width(ns, i, ns[i].children@.len() as int, capped(depth + 1));
        if below > own_width(ns[i], depth) { below } else { own_width(ns[i], depth) }
    } else {
        own_width(ns[i], depth)
    }
}

/// The widest line below the first `k` children of `p`.
pub open spec fn children_width(ns: Seq<JsonNode>, p: int, k: int, depth: int) -> int
    decreases usize::MAX - ns[p].depth, k,
{
    if k <= 0 || k > ns[p].children@.len() {
        0
    } else {
        let before = children_width(ns, p, k - 1, depth);
        let here = if child_ok(ns, p, k - 1) {
            width_of(ns, ns[p].children@[k - 1] as int, depth)
        } else {
            0
        };
        if here > before { here } else { before }
    }
}

/// Estimates the widest line, in characters, that the visible part of the
/// tree below `index` needs when `index` is drawn at `depth`; saturates at
/// `usize::MAX`.
pub fn max_line_chars(tree: &JsonTree, index: usize, depth: usize) -> (r: usize)
    requires
        tree.wf(),
    ensures
        r == width_of(tree.spec_nodes(), index as int, depth as int),
    decreases usize::MAX - tree.spec_nodes()[index as int].depth,
{
    let ghost ns = tree.spec_nodes();
    let node = match tree.get_node(index) {
        Some(n) => n,
        None => { return 0; },
    };
    let key_len: usize = match &node.key {
        Some(k) => k.as_str().unicode_len().saturating_add(3),
        None => 0,
    };
    let value_len: usize = match &node.value {
        JsonValue::Null => 4,
        JsonValue::Bool(b) => if *b { 4 } else { 5 },
        JsonValue::Number(t) => t.as_str().unicode_len(),
        JsonValue::String(s) => s.as_str().unicode_len().saturating_add(2),
        _ => 1,
    };
    let this_line = depth.saturating_add(depth).saturating_add(depth).saturating_add(2).saturating_add(
        key_len,
    ).saturating_add(value_len);
    assert(this_line == own_width(*node, depth as int));
    if !node.expanded {
        return this_line;
    }
    let child_depth = depth.saturating_add(1);
    let n = node.children.len();
    let mut widest: usize = 0;
    let mut k: usize = 0;
    while k < n
        invariant
            tree.wf(),
            ns == tree.spec_nodes(),
            index < ns.len(),
            *node == ns[index as int],
            n == node.children@.len(),
            k <= n,
            child_depth == capped(depth + 1),
            widest == children_width(ns, index as int, k as int, child_depth as int),
        decreases n - k,
    {
        let c = node.children[k];
        assert(child_ok(ns, index as int, k as int));
        let w = max_line_chars(tree, c, child_depth);
        if w > widest {
            widest = w;
        }
        k = k + 1;
    }
    if widest > this_line { widest } else { this_line }
}

} // verus!
