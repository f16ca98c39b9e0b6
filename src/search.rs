use vstd::prelude::*;
use crate::flat_row::opt_view;
use crate::node::{JsonNode, JsonValue};
use crate::text::{contains, contains_text};
use crate::tree::JsonTree;

verus! {

/// The regex crate's compiled expression, carried as an opaque value.
#[verifier::external_type_specification]
#[verifier::external_body]
pub struct ExRegex(regex::Regex);

/// Whether the regex crate accepts a pattern.
pub uninterp spec fn regex_compiles(pattern: Seq<char>) -> bool;

/// Whether a pattern matches somewhere in a text.
pub uninterp spec fn regex_finds(pattern: Seq<char>, text: Seq<char>) -> bool;

/// The description the regex crate gives of why it refuses a pattern.
pub uninterp spec fn regex_error_message(pattern: Seq<char>) -> Seq<char>;

/// The lower-case form of a text.
pub uninterp spec fn lower_of(s: Seq<char>) -> Seq<char>;

/// A compiled regular expression together with the pattern it came from.
pub struct CompiledPattern {
    re: regex::Regex,
    source: String,
}

/// Relies on regex::Regex::new: it fails exactly on the patterns that the
/// crate refuses, and the Display of the error it returns; both depend on
/// the pattern alone.
#[verifier::external_body]
fn compile_pattern(source: String) -> (r: Result<CompiledPattern, String>)
    ensures
        r is Ok <==> regex_compiles(source@),
        r matches Ok(p) ==> p.source@ == source@,
        r matches Err(m) ==> m@ == regex_error_message(source@),
{
    match regex::Regex::new(&source) {
        Ok(re) => Ok(CompiledPattern { re, source }),
        Err(e) => Err(e.to_string()),
    }
}

/// Relies on regex::Regex::is_match: whether the pattern matches anywhere in
/// the text.
#[verifier::external_body]
fn pattern_is_match(p: &CompiledPattern, text: &str) -> (r: bool)
    ensures
        r == regex_finds(p.source@, text@),
{
    p.re.is_match(text)
}

/// Relies on str::to_lowercase, whose result depends on the text alone.
#[verifier::external_body]
fn lowercase(s: &str) -> (r: String)
    ensures
        r@ == lower_of(s@),
{
    s.to_lowercase()
}

/// The pattern compiled for a regex query: case-insensitive ones get the
/// `(?i)` flag in front.
pub open spec fn pattern_source(query: Seq<char>, case_sensitive: bool) -> Seq<char> {
    if case_sensitive { query } else { "(?i)"@ + query }
}

/// Whether a text matches the query under the given options.
pub open spec fn text_matches(query: Seq<char>, case_sensitive: bool, use_regex: bool, text: Seq<char>) -> bool {
    if use_regex {
        regex_finds(pattern_source(query, case_sensitive), text)
    } else if case_sensitive {
        contains_text(text, query)
    } else {
        contains_text(lower_of(text), lower_of(query))
    }
}

/// The text a scalar is searched by; containers have none.
pub open spec fn value_text(v: JsonValue) -> Option<Seq<char>> {
    match v {
        JsonValue::Null => Some("null"@),
        JsonValue::Bool(b) => Some(if b { "true"@ } else { "false"@ }),
        JsonValue::Number(t) => Some(t@),
        JsonValue::String(s) => Some(s@),
        _ => None,
    }
}

/// A node matches by its key or by the text of its scalar value.
pub open spec fn node_matches(n: JsonNode, query: Seq<char>, case_sensitive: bool, use_regex: bool) -> bool {
    (n.key matches Some(k) && text_matches(query, case_sensitive, use_regex, k@))
    || (value_text(n.value) matches Some(t) && text_matches(query, case_sensitive, use_regex, t))
}

/// The indices below `k` of the matching nodes, in ascending order.
pub open spec fn matching_nodes(
    ns: Seq<JsonNode>,
    k: int,
    query: Seq<char>,
    case_sensitive: bool,
    use_regex: bool,
) -> Seq<usize>
    decreases k,
{
    if k <= 0 {
        Seq::empty()
    } else if node_matches(ns[k - 1], query, case_sensitive, use_regex) {
        matching_nodes(ns, k - 1, query, case_sensitive, use_regex).push((k - 1) as usize)
    } else {
        matching_nodes(ns, k - 1, query, case_sensitive, use_regex)
    }
}

/// Whether a query is a regex query whose pattern the regex crate refuses.
pub open spec fn pattern_refused(query: Seq<char>, case_sensitive: bool, use_regex: bool) -> bool {
    query.len() > 0 && use_regex && !regex_compiles(pattern_source(query, case_sensitive))
}

/// The message for a refused pattern.
pub open spec fn refusal_message(query: Seq<char>, case_sensitive: bool) -> Seq<char> {
    "Invalid regex: "@ + regex_error_message(pattern_source(query, case_sensitive))
}

/// What a search returns: nothing for an empty query, nothing and an error
/// message for a refused pattern, else the matching nodes in index order.
pub open spec fn search_outcome(
    ns: Seq<JsonNode>,
    query: Seq<char>,
    case_sensitive: bool,
    use_regex: bool,
    r: (Seq<usize>, Option<Seq<char>>),
) -> bool {
    if query.len() == 0 {
        r.0 == Seq::<usize>::empty() && r.1 is None
    } else if pattern_refused(query, case_sensitive, use_regex) {
        r.0 == Seq::<usize>::empty() && r.1 == Some(refusal_message(query, case_sensitive))
    } else {
        r.0 == matching_nodes(ns, ns.len() as int, query, case_sensitive, use_regex) && r.1 is None
    }
}

enum TextMatcher {
    Pattern(CompiledPattern),
    Exact,
    Folded(String),
}

fn accepts(
    m: &TextMatcher,
    query: &str,
    case_sensitive: bool,
    use_regex: bool,
    text: &str,
) -> (r: bool)
    requires
        match m {
            TextMatcher::Pattern(p) => use_regex && p.source@ == pattern_source(query@, case_sensitive),
            TextMatcher::Exact => !use_regex && case_sensitive,
            TextMatcher::Folded(q) => !use_regex && !case_sensitive && q@ == lower_of(query@),
        },
    ensures
        r == text_matches(query@, case_sensitive, use_regex, text@),
{
    match m {
        TextMatcher::Pattern(p) => pattern_is_match(p, text),
        TextMatcher::Exact => contains(text, query),
        TextMatcher::Folded(q) => {
            let t = lowercase(text);
            contains(t.as_str(), q.as_str())
        },
    }
}

fn value_matches(
    m: &TextMatcher,
    query: &str,
    case_sensitive: bool,
    use_regex: bool,
    v: &JsonValue,
) -> (r: bool)
    requires
        match m {
            TextMatcher::Pattern(p) => use_regex && p.source@ == pattern_source(query@, case_sensitive),
            TextMatcher::Exact => !use_regex && case_sensitive,
            TextMatcher::Folded(q) => !use_regex && !case_sensitive && q@ == lower_of(query@),
        },
    ensures
        r == (value_text(*v) matches Some(t) && text_matches(query@, case_sensitive, use_regex, t)),
{
    match v {
        JsonValue::Null => accepts(m, query, case_sensitive, use_regex, "null"),
        JsonValue::Bool(b) => if *b {
            accepts(m, query, case_sensitive, use_regex, "true")
        } else {
            accepts(m, query, case_sensitive, use_regex, "false")
        },
        JsonValue::Number(t) => accepts(m, query, case_sensitive, use_regex, t.as_str()),
        JsonValue::String(s) => accepts(m, query, case_sensitive, use_regex, s.as_str()),
        _ => false,
    }
}

/// Searches every node, in ascending index order, for the query in its key
/// or in the text of its scalar value. Returns the matching indices and,
/// for a regex that does not compile, an error message instead.
pub fn search_nodes(
    tree: &JsonTree,
    query: &str,
    case_sensitive: bool,
    use_regex: bool,
) -> (r: (Vec<usize>, Option<String>))
    ensures
        search_outcome(tree.spec_nodes(), query@, case_sensitive, use_regex, (r.0@, opt_view(r.1))),
{
    let ghost ns = tree.spec_nodes();
    if query.unicode_len() == 0 {
        return (Vec::new(), None);
    }
    let m = if use_regex {
        let mut source = String::new();
        if !case_sensitive {
            source.append("(?i)");
        }
        source.append(query);
        proof {
            if case_sensitive {
                assert(source@ =~= query@);
            }
        }
        match compile_pattern(source) {
            Ok(p) => TextMatcher::Pattern(p),
            Err(detail) => {
                let mut msg = String::new();
                msg.append("Invalid regex: ");
                msg.append(detail.as_str());
                return (Vec::new(), Some(msg));
            },
        }
    } else if case_sensitive {
        TextMatcher::Exact
    } else {
        TextMatcher::Folded(lowercase(query))
    };
    let mut results: Vec<usize> = Vec::new();
    let n = tree.node_count();
    let mut i: usize = 0;
    while i < n
        invariant
            ns == tree.spec_nodes(),
            n == ns.len(),
            i <= n,
            match m {
                TextMatcher::Pattern(p) => use_regex && p.source@ == pattern_source(query@, case_sensitive),
                TextMatcher::Exact => !use_regex && case_sensitive,
                TextMatcher::Folded(q) => !use_regex && !case_sensitive && q@ == lower_of(query@),
            },
            results@ == matching_nodes(ns, i as int, query@, case_sensitive, use_regex),
        decreases n - i,
    {
        match tree.get_node(i) {
            Some(node) => {
                let key_hit = match &node.key {
                    Some(k) => accepts(&m, query, case_sensitive, use_regex, k.as_str()),
                    None => false,
                };
                if key_hit {
                    results.push(i);
                } else if value_matches(&m, query, case_sensitive, use_regex, &node.value) {
                    results.push(i);
                }
            },
            None => {},
        }
        i = i + 1;
    }
    (results, None)
}

/// Searching twice with the same arguments on an unchanged tree gives the
/// same ordered results and the same error message, if any.
pub proof fn lemma_search_deterministic(
    ns: Seq<JsonNode>,
    query: Seq<char>,
    case_sensitive: bool,
    use_regex: bool,
    first: (Seq<usize>, Option<Seq<char>>),
    second: (Seq<usize>, Option<Seq<char>>),
)
    requires
        search_outcome(ns, query, case_sensitive, use_regex, first),
        search_outcome(ns, query, case_sensitive, use_regex, second),
    ensures
        first == second,
{
}

} // verus!
