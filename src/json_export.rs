use vstd::prelude::*;
use crate::node::{JsonNode, JsonValue};
use crate::text::{chars_of, push_char};
use crate::tree::JsonTree;
use crate::flatten::{child_ok, key_text};

verus! {

/// A character as it stands inside a JSON string literal.
pub open spec fn escape_char(c: char) -> Seq<char> {
    if c == '\\' {
        seq!['\\', '\\']
    } else if c == '"' {
        seq!['\\', '"']
    } else if c == '\n' {
        seq!['\\', 'n']
    } else if c == '\r' {
        seq!['\\', 'r']
    } else if c == '\t' {
        seq!['\\', 't']
    } else {
        seq![c]
    }
}

/// A text with backslash, double quote, newline, carriage return and tab
/// escaped.
pub open spec fn escaped(s: Seq<char>) -> Seq<char>
    decreases s.len(),
{
    if s.len() == 0 {
        Seq::empty()
    } else {
        escaped(s.drop_last()) + escape_char(s.last())
    }
}

/// A JSON string literal.
pub open spec fn quoted(s: Seq<char>) -> Seq<char> {
    seq!['"'] + escaped(s) + seq!['"']
}

pub open spec fn item_sep(minified: bool) -> Seq<char> {
    if minified { ","@ } else { ", "@ }
}

pub open spec fn key_sep(minified: bool) -> Seq<char> {
    if minified { ":"@ } else { ": "@ }
}

pub open spec fn scalar_text(v: JsonValue) -> Seq<char> {
    match v {
        JsonValue::Null => "null"@,
        JsonValue::Bool(b) => if b { "true"@ } else { "false"@ },
        JsonValue::Number(t) => t@,
        JsonValue::String(s) => quoted(s@),
        _ => Seq::empty(),
    }
}

/// The JSON text of node `i` and everything below it.
pub open spec fn json_text(ns: Seq<JsonNode>, i: int, minified: bool) -> Seq<char>
    decreases usize::MAX - ns[i].depth, ns[i].children@.len() + 1,
{
    if !(0 <= i < ns.len()) {
        Seq::empty()
    } else {
        match ns[i].value {
            JsonValue::Array => "["@ + entries_text(ns, i, ns[i].children@.len() as int, minified) + "]"@,
            JsonValue::Object => "{"@ + entries_text(ns, i, ns[i].children@.len() as int, minified) + "}"@,
            _ => scalar_text(ns[i].value),
        }
    }
}

/// The first `k` entries of container `p`, joined by the item separator;
/// an object entry is the quoted key, the key separator and the value.
pub open spec fn entries_text(ns: Seq<JsonNode>, p: int, k: int, minified: bool) -> Seq<char>
    decreases usize::MAX - ns[p].depth, k,
{
    if k <= 0 || k > ns[p].children@.len() {
        Seq::empty()
    } else {
        let c = ns[p].children@[k - 1] as int;
        let entry = if !child_ok(ns, p, k - 1) {
            Seq::empty()
        } else if ns[p].value is Object {
            quoted(key_text(ns[c])) + key_sep(minified) + json_text(ns, c, minified)
        } else {
            json_text(ns, c, minified)
        };
        if k == 1 {
            entry
        } else {
            entries_text(ns, p, k - 1, minified) + item_sep(minified) + entry
        }
    }
}

/// Escapes backslash, double quote, newline, carriage return and tab for a
/// JSON string literal.
pub fn escape_json_string(s: &str) -> (r: String)
    ensures
        r@ == escaped(s@),
{
    let cs = chars_of(s);
    let mut r = String::new();
    let mut k: usize = 0;
    while k < cs.len()
        invariant
            cs@ == s@,
            k <= cs@.len(),
            r@ == escaped(s@.take(k as int)),
        decreases cs@.len() - k,
    {
        let c = cs[k];
        if c == '\\' {
            push_char(&mut r, '\\');
            push_char(&mut r, '\\');
        } else if c == '"' {
            push_char(&mut r, '\\');
            push_char(&mut r, '"');
        } else if c == '\n' {
            push_char(&mut r, '\\');
            push_char(&mut r, 'n');
        } else if c == '\r' {
            push_char(&mut r, '\\');
            push_char(&mut r, 'r');
        } else if c == '\t' {
            push_char(&mut r, '\\');
            push_char(&mut r, 't');
        } else {
            push_char(&mut r, c);
        }
        proof {
            assert(s@.take(k + 1).drop_last() =~= s@.take(k as int));
            assert(r@ =~= escaped(s@.take(k + 1)));
        }
        k = k + 1;
    }
    assert(s@.take(k as int) =~= s@);
    r
}

fn append_quoted(out: &mut String, s: &str)
    ensures
        final(out)@ == old(out)@ + quoted(s@),
{
    out.append("\"");
    let e = escape_json_string(s);
    out.append(e.as_str());
    out.append("\"");
    proof {
        reveal_strlit("\"");
        assert(final(out)@ =~= old(out)@ + quoted(s@));
    }
}

fn node_text(tree: &JsonTree, node_index: usize, minified: bool) -> (r: String)
    requires
        tree.wf(),
    ensures
        r@ == json_text(tree.spec_nodes(), node_index as int, minified),
    decreases usize::MAX - tree.spec_nodes()[node_index as int].depth,
{
    let ghost ns = tree.spec_nodes();
    let node = match tree.get_node(node_index) {
        Some(n) => n,
        None => { return String::new(); },
    };
    let mut out = String::new();
    match &node.value {
        JsonValue::Null => out.append("null"),
        JsonValue::Bool(b) => out.append(if *b { "true" } else { "false" }),
        JsonValue::Number(t) => out.append(t.as_str()),
        JsonValue::String(s) => append_quoted(&mut out, s.as_str()),
        JsonValue::Array | JsonValue::Object => {
            let is_object = match &node.value {
                JsonValue::Object => true,
                _ => false,
            };
            out.append(if is_object { "{" } else { "[" });
            let ghost opening = out@;
            let n = node.children.len();
            let mut k: usize = 0;
            while k < n
                invariant
                    tree.wf(),
                    ns == tree.spec_nodes(),
                    node_index < ns.len(),
                    *node == ns[node_index as int],
                    is_object == (ns[node_index as int].value is Object),
                    n == node.children@.len(),
                    k <= n,
                    out@ == opening + entries_text(ns, node_index as int, k as int, minified),
                decreases n - k,
            {
                if k > 0 {
                    out.append(if minified { "," } else { ", " });
                }
                let c = node.children[k];
                assert(child_ok(ns, node_index as int, k as int));
                if is_object {
                    let child = match tree.get_node(c) {
                        Some(cn) => cn,
                        None => { return String::new(); },
                    };
                    match &child.key {
                        Some(key) => append_quoted(&mut out, key.as_str()),
                        None => {
                            proof {
                                reveal_strlit("");
                            }
                            append_quoted(&mut out, "");
                            assert(""@ =~= key_text(ns[c as int]));
                        },
                    }
                    out.append(if minified { ":" } else { ": " });
                }
                let sub = node_text(tree, c, minified);
                out.append(sub.as_str());
                proof {
                    assert(out@ =~= opening + entries_text(ns, node_index as int, k + 1, minified));
                }
                k = k + 1;
            }
            out.append(if is_object { "}" } else { "]" });
        },
    }
    proof {
        assert(out@ =~= json_text(ns, node_index as int, minified));
    }
    out
}

/// The JSON text of a node and its descendants, with `", "` and `": "`
/// separators.
pub fn node_to_json_string(tree: &JsonTree, node_index: usize) -> (r: String)
    requires
        tree.wf(),
    ensures
        r@ == json_text(tree.spec_nodes(), node_index as int, false),
{
    node_text(tree, node_index, false)
}

/// The JSON text of a node and its descendants, with `","` and `":"`
/// separators.
pub fn node_to_json_string_minified(tree: &JsonTree, node_index: usize) -> (r: String)
    requires
        tree.wf(),
    ensures
        r@ == json_text(tree.spec_nodes(), node_index as int, true),
{
    node_text(tree, node_index, true)
}

/// What copying a node yields: a scalar's plain text (a string without
/// quotes), a container's spaced JSON text, nothing for a missing node.
pub open spec fn copy_text(ns: Seq<JsonNode>, i: int) -> Seq<char> {
    if !(0 <= i < ns.len()) {
        Seq::empty()
    } else {
        match ns[i].value {
            JsonValue::String(s) => s@,
            JsonValue::Array | JsonValue::Object => json_text(ns, i, false),
            _ => scalar_text(ns[i].value),
        }
    }
}

/// The text to put on the clipboard for a node.
pub fn format_node_value_for_copy(tree: &JsonTree, node_index: usize) -> (r: String)
    requires
        tree.wf(),
    ensures
        r@ == copy_text(tree.spec_nodes(), node_index as int),
{
    match tree.get_node(node_index) {
        Some(node) => {
            let mut out = String::new();
            match &node.value {
                JsonValue::Null => out.append("null"),
                JsonValue::Bool(b) => out.append(if *b { "true" } else { "false" }),
                JsonValue::Number(t) => out.append(t.as_str()),
                JsonValue::String(s) => out.append(s.as_str()),
                JsonValue::Array | JsonValue::Object => {
                    return node_to_json_string(tree, node_index);
                },
            }
            out
        },
        None => String::new(),
    }
}

/// A lexical unit of JSON text: literal text (a scalar, a quoted key, a
/// bracket), or one of the two separators.
pub enum Token {
    Text(Seq<char>),
    Comma,
    Colon,
}

pub open spec fn render_token(t: Token, minified: bool) -> Seq<char> {
    match t {
        Token::Text(s) => s,
        Token::Comma => item_sep(minified),
        Token::Colon => key_sep(minified),
    }
}

/// The text of a token sequence, separators in the chosen style.
pub open spec fn layout(ts: Seq<Token>, minified: bool) -> Seq<char>
    decreases ts.len(),
{
    if ts.len() == 0 {
        Seq::empty()
    } else {
        layout(ts.drop_last(), minified) + render_token(ts.last(), minified)
    }
}

/// The tokens of node `i` and everything below it.
pub open spec fn json_tokens(ns: Seq<JsonNode>, i: int) -> Seq<Token>
    decreases usize::MAX - ns[i].depth, ns[i].children@.len() + 1,
{
    if !(0 <= i < ns.len()) {
        Seq::empty()
    } else {
        match ns[i].value {
            JsonValue::Array => seq![Token::Text("["@)] + entries_tokens(ns, i, ns[i].children@.len() as int)
                + seq![Token::Text("]"@)],
            JsonValue::Object => seq![Token::Text("{"@)] + entries_tokens(ns, i, ns[i].children@.len() as int)
                + seq![Token::Text("}"@)],
            _ => seq![Token::Text(scalar_text(ns[i].value))],
        }
    }
}

/// The tokens of the first `k` entries of container `p`.
pub open spec fn entries_tokens(ns: Seq<JsonNode>, p: int, k: int) -> Seq<Token>
    decreases usize::MAX - ns[p].depth, k,
{
    if k <= 0 || k > ns[p].children@.len() {
        Seq::empty()
    } else {
        let c = ns[p].children@[k - 1] as int;
        let entry = if !child_ok(ns, p, k - 1) {
            Seq::empty()
        } else if ns[p].value is Object {
            seq![Token::Text(quoted(key_text(ns[c]))), Token::Colon] + json_tokens(ns, c)
        } else {
            json_tokens(ns, c)
        };
        if k == 1 {
            entry
        } else {
            entries_tokens(ns, p, k - 1) + seq![Token::Comma] + entry
        }
    }
}

proof fn lemma_layout_concat(a: Seq<Token>, b: Seq<Token>, minified: bool)
    ensures
        layout(a + b, minified) == layout(a, minified) + layout(b, minified),
    decreases b.len(),
{
    if b.len() == 0 {
        assert(a + b =~= a);
    } else {
        lemma_layout_concat(a, b.drop_last(), minified);
        assert((a + b).drop_last() =~= a + b.drop_last());
        assert(layout(a + b, minified) =~= layout(a, minified) + layout(b, minified));
    }
}

proof fn lemma_layout_one(t: Token, minified: bool)
    ensures
        layout(seq![t], minified) == render_token(t, minified),
{
    assert(seq![t].drop_last() =~= Seq::<Token>::empty());
    assert(seq![t].last() == t);
    assert(layout(Seq::<Token>::empty(), minified) == Seq::<char>::empty());
    assert(layout(seq![t], minified) == layout(seq![t].drop_last(), minified) + render_token(t, minified));
    assert(layout(seq![t], minified) =~= render_token(t, minified));
}

proof fn lemma_text_is_layout(ns: Seq<JsonNode>, i: int, minified: bool)
    ensures
        json_text(ns, i, minified) == layout(json_tokens(ns, i), minified),
    decreases usize::MAX - ns[i].depth, ns[i].children@.len() + 1,
{
    if 0 <= i < ns.len() {
        let len = ns[i].children@.len() as int;
        match ns[i].value {
            JsonValue::Array | JsonValue::Object => {
                let (open, close) = if ns[i].value is Array { ("["@, "]"@) } else { ("{"@, "}"@) };
                let inner = entries_tokens(ns, i, len);
                lemma_entries_text_is_layout(ns, i, len, minified);
                lemma_layout_concat(seq![Token::Text(open)], inner, minified);
                lemma_layout_concat(seq![Token::Text(open)] + inner, seq![Token::Text(close)], minified);
                lemma_layout_one(Token::Text(open), minified);
                lemma_layout_one(Token::Text(close), minified);
            },
            _ => {
                lemma_layout_one(Token::Text(scalar_text(ns[i].value)), minified);
            },
        }
    }
}

proof fn lemma_entries_text_is_layout(ns: Seq<JsonNode>, p: int, k: int, minified: bool)
    ensures
        entries_text(ns, p, k, minified) == layout(entries_tokens(ns, p, k), minified),
    decreases usize::MAX - ns[p].depth, k,
{
    if k <= 0 || k > ns[p].children@.len() {
    } else {
        let c = ns[p].children@[k - 1] as int;
        if child_ok(ns, p, k - 1) {
            lemma_text_is_layout(ns, c, minified);
            if ns[p].value is Object {
                let pre = seq![Token::Text(quoted(key_text(ns[c]))), Token::Colon];
                lemma_layout_concat(pre, json_tokens(ns, c), minified);
                assert(pre.drop_last() =~= seq![Token::Text(quoted(key_text(ns[c])))]);
                lemma_layout_one(Token::Text(quoted(key_text(ns[c]))), minified);
            }
        }
        let entry = if !child_ok(ns, p, k - 1) {
            Seq::empty()
        } else if ns[p].value is Object {
            seq![Token::Text(quoted(key_text(ns[c]))), Token::Colon] + json_tokens(ns, c)
        } else {
            json_tokens(ns, c)
        };
        if k > 1 {
            let before = entries_tokens(ns, p, k - 1);
            lemma_entries_text_is_layout(ns, p, k - 1, minified);
            lemma_layout_concat(before, seq![Token::Comma], minified);
            lemma_layout_concat(before + seq![Token::Comma], entry, minified);
            lemma_layout_one(Token::Comma, minified);
        }
    }
}

/// The minified and the spaced text of a node lay out one and the same
/// token sequence: they differ only in the space after each separator,
/// which a JSON parser skips, so both parse to the same value.
pub proof fn lemma_minified_spaced_same_tokens(ns: Seq<JsonNode>, i: int)
    ensures
        json_text(ns, i, true) == layout(json_tokens(ns, i), true),
        json_text(ns, i, false) == layout(json_tokens(ns, i), false),
{
    lemma_text_is_layout(ns, i, true);
    lemma_text_is_layout(ns, i, false);
}

} // verus!
