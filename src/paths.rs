use vstd::prelude::*;
use crate::builder::encodes;
use crate::flat_row::RowModel;
use crate::flatten::{child_ok, child_path, children_rows, key_text, node_rows, row_of, visible_rows, continuation};
use crate::node::JsonNode;
use crate::text::{decimal, lemma_decimal_digits, lemma_parse_decimal, parse_decimal};
use crate::tree::nodes_wf;
use crate::value::ParsedValue;

verus! {

/// One step of an accessor expression.
pub enum Segment {
    /// `.name`, or `name` at the start.
    Member(Seq<char>),
    /// `[i]`.
    Index(nat),
}

/// The accessor notation of a sequence of steps, such as `users[2].email`.
pub open spec fn render(segs: Seq<Segment>) -> Seq<char>
    decreases segs.len(),
{
    if segs.len() == 0 {
        Seq::empty()
    } else {
        let front = render(segs.drop_last());
        match segs.last() {
            Segment::Index(i) => front + "["@ + decimal(i) + "]"@,
            Segment::Member(k) => if front.len() == 0 { k } else { front + "."@ + k },
        }
    }
}

/// The value one step leads to: an array item by position, an object
/// member by name.
pub open spec fn step(v: ParsedValue, s: Segment) -> Option<ParsedValue> {
    match (v, s) {
        (ParsedValue::Array(items), Segment::Index(i)) => if i < items.len() {
            Some(items[i as int])
        } else {
            None
        },
        (ParsedValue::Object(members), Segment::Member(k)) => if exists|m: int|
            0 <= m < members.len() && (#[trigger] members[m]).0@ == k {
            let m = choose|m: int| 0 <= m < members.len() && (#[trigger] members[m]).0@ == k;
            Some(members[m].1)
        } else {
            None
        },
        _ => None,
    }
}

/// The value an accessor expression leads to in a document.
pub open spec fn resolve(doc: ParsedValue, segs: Seq<Segment>) -> Option<ParsedValue>
    decreases segs.len(),
{
    if segs.len() == 0 {
        Some(doc)
    } else {
        match resolve(doc, segs.drop_last()) {
            Some(v) => step(v, segs.last()),
            None => None,
        }
    }
}

pub open spec fn is_delim(c: char) -> bool {
    c == '.' || c == '[' || c == ']'
}

/// The last position at or before `k` that holds a delimiter, or -1.
pub open spec fn last_delim(s: Seq<char>, k: int) -> int
    decreases k + 1,
{
    if k < 0 {
        -1
    } else if is_delim(s[k]) {
        k
    } else {
        last_delim(s, k - 1)
    }
}

/// The last position at or before `k` that holds `'['`, or -1.
pub open spec fn last_open(s: Seq<char>, k: int) -> int
    decreases k + 1,
{
    if k < 0 {
        -1
    } else if s[k] == '[' {
        k
    } else {
        last_open(s, k - 1)
    }
}

/// Reads an accessor expression from its end: `[digits]` is an index, a
/// name after the last `.` (or a whole undelimited text) is a member.
pub open spec fn parse_path(s: Seq<char>) -> Seq<Segment>
    decreases s.len(),
{
    if s.len() == 0 {
        Seq::empty()
    } else if s.last() == ']' {
        let j = last_open(s, s.len() - 2);
        if j < 0 || j >= s.len() {
            seq![Segment::Member(s)]
        } else {
            parse_path(s.take(j)).push(Segment::Index(parse_decimal(s.subrange(j + 1, s.len() - 1))))
        }
    } else {
        let j = last_delim(s, s.len() - 1);
        if j < 0 || j >= s.len() {
            seq![Segment::Member(s)]
        } else {
            parse_path(s.take(j)).push(Segment::Member(s.skip(j + 1)))
        }
    }
}

/// A member name that the notation can carry: not empty, and without `.`,
/// `[` or `]`.
pub open spec fn plain_key(k: Seq<char>) -> bool {
    k.len() > 0 && forall|i: int| 0 <= i < k.len() ==> !is_delim(#[trigger] k[i])
}

pub open spec fn segs_plain(segs: Seq<Segment>) -> bool {
    forall|i: int| 0 <= i < segs.len() ==> (#[trigger] segs[i] matches Segment::Member(k) ==> plain_key(k))
}

/// Every member name in the document is plain.
pub open spec fn keys_plain(v: ParsedValue) -> bool
    decreases v,
{
    match v {
        ParsedValue::Array(items) => forall|k: int| 0 <= k < items.len() ==> keys_plain(#[trigger] items[k]),
        ParsedValue::Object(members) => forall|k: int|
            0 <= k < members.len() ==> plain_key((#[trigger] members[k]).0@) && keys_plain(members[k].1),
        _ => true,
    }
}

proof fn lemma_last_delim(s: Seq<char>, k: int, j: int)
    requires
        -1 <= j <= k < s.len(),
        j >= 0 ==> is_delim(s[j]),
        forall|m: int| j < m <= k ==> !is_delim(#[trigger] s[m]),
    ensures
        last_delim(s, k) == j,
    decreases k - j,
{
    if k > j {
        lemma_last_delim(s, k - 1, j);
    }
}

proof fn lemma_last_open(s: Seq<char>, k: int, j: int)
    requires
        0 <= j <= k < s.len(),
        s[j] == '[',
        forall|m: int| j < m <= k ==> (#[trigger] s[m]) != '[',
    ensures
        last_open(s, k) == j,
    decreases k - j,
{
    if k > j {
        lemma_last_open(s, k - 1, j);
    }
}

proof fn lemma_render_empty(segs: Seq<Segment>)
    requires
        segs_plain(segs),
        render(segs).len() == 0,
    ensures
        segs.len() == 0,
{
    if segs.len() > 0 {
        let front = render(segs.drop_last());
        assert(segs[segs.len() - 1] == segs.last());
        match segs.last() {
            Segment::Index(i) => {
                assert((front + "["@ + decimal(i) + "]"@).len() > 0) by {
                    reveal_strlit("]");
                }
            },
            Segment::Member(k) => {
                assert(plain_key(k));
            },
        }
    }
}

/// The notation of plain steps reads back as those steps.
pub proof fn lemma_parse_render(segs: Seq<Segment>)
    requires
        segs_plain(segs),
    ensures
        parse_path(render(segs)) == segs,
    decreases segs.len(),
{
    if segs.len() == 0 {
        return;
    }
    let init = segs.drop_last();
    assert(segs_plain(init)) by {
        assert forall|i: int| 0 <= i < init.len() implies (#[trigger] init[i] matches Segment::Member(k) ==> plain_key(k)) by {
            assert(init[i] == segs[i]);
        }
    }
    lemma_parse_render(init);
    let front = render(init);
    let s = render(segs);
    assert(segs[segs.len() - 1] == segs.last());
    reveal_strlit("[");
    reveal_strlit("]");
    reveal_strlit(".");
    match segs.last() {
        Segment::Index(i) => {
            let d = decimal(i);
            lemma_decimal_digits(i);
            lemma_parse_decimal(i);
            assert(s == front + "["@ + d + "]"@);
            let j = front.len() as int;
            assert(s[j] == '[');
            assert(s.last() == ']');
            assert forall|m: int| j < m <= s.len() - 2 implies (#[trigger] s[m]) != '[' by {
                assert(s[m] == d[m - j - 1]);
            }
            lemma_last_open(s, s.len() - 2, j);
            assert(s.take(j) =~= front);
            assert(s.subrange(j + 1, s.len() - 1) =~= d);
            assert(segs =~= init.push(Segment::Index(i)));
        },
        Segment::Member(k) => {
            assert(plain_key(k));
            assert(!is_delim(k[k.len() - 1]));
            if front.len() == 0 {
                lemma_render_empty(init);
                assert(s == k);
                lemma_last_delim(s, s.len() - 1, -1);
                assert(segs =~= seq![Segment::Member(k)]);
            } else {
                assert(s == front + "."@ + k);
                let j = front.len() as int;
                assert(s[j] == '.');
                assert(s.last() == k.last());
                assert forall|m: int| j < m <= s.len() - 1 implies !is_delim(#[trigger] s[m]) by {
                    assert(s[m] == k[m - j - 1]);
                }
                lemma_last_delim(s, s.len() - 1, j);
                assert(s.take(j) =~= front);
                assert(s.skip(j + 1) =~= k);
                assert(segs =~= init.push(Segment::Member(k)));
            }
        },
    }
}

/// No object in the document names two members alike.
pub open spec fn keys_unique(v: ParsedValue) -> bool
    decreases v,
{
    match v {
        ParsedValue::Array(items) => forall|k: int| 0 <= k < items.len() ==> keys_unique(#[trigger] items[k]),
        ParsedValue::Object(members) => {
            &&& forall|a: int, b: int|
                0 <= a < b < members.len() ==> (#[trigger] members[a]).0@ != (#[trigger] members[b]).0@
            &&& forall|k: int| 0 <= k < members.len() ==> keys_unique(#[trigger] members[k].1)
        },
        _ => true,
    }
}

/// The row's path, read as an accessor expression, leads in the document to
/// the value that the row's node stands for.
pub open spec fn path_resolves(ns: Seq<JsonNode>, doc: ParsedValue, r: RowModel) -> bool {
    exists|segs: Seq<Segment>, v: ParsedValue, key: Option<String>, d: int|
        #![trigger resolve(doc, segs), encodes(ns, r.node_index as int, v, key, d)]
        parse_path(r.path) == segs && r.path == render(segs) && resolve(doc, segs) == Some(v)
        && encodes(ns, r.node_index as int, v, key, d)
}

pub open spec fn all_resolve(ns: Seq<JsonNode>, doc: ParsedValue, rows: Seq<RowModel>) -> bool {
    forall|k: int| 0 <= k < rows.len() ==> path_resolves(ns, doc, #[trigger] rows[k])
}

proof fn lemma_child_resolves(
    ns: Seq<JsonNode>,
    doc: ParsedValue,
    p: int,
    j: int,
    path: Seq<char>,
    segs: Seq<Segment>,
    v: ParsedValue,
    key: Option<String>,
    d: int,
) -> (r: (Seq<Segment>, ParsedValue, Option<String>))
    requires
        nodes_wf(ns),
        0 <= p < ns.len(),
        0 <= j < ns[p].children@.len(),
        path == render(segs),
        resolve(doc, segs) == Some(v),
        keys_unique(v),
        keys_plain(v),
        segs_plain(segs),
        encodes(ns, p, v, key, d),
        v is Array || v is Object,
    ensures
        child_path(ns, p, j, path) == render(r.0),
        resolve(doc, r.0) == Some(r.1),
        keys_unique(r.1),
        keys_plain(r.1),
        segs_plain(r.0),
        encodes(ns, ns[p].children@[j] as int, r.1, r.2, d + 1),
{
    let c = ns[p].children@[j] as int;
    match v {
        ParsedValue::Array(items) => {
            let s2 = segs.push(Segment::Index(j as nat));
            assert(s2.drop_last() =~= segs);
            assert forall|i: int| 0 <= i < s2.len() implies (#[trigger] s2[i] matches Segment::Member(k) ==> plain_key(k)) by {
                if i < segs.len() {
                    assert(s2[i] == segs[i]);
                }
            }
            assert(encodes(ns, c, items[j], None, d + 1));
            (s2, items[j], None)
        },
        ParsedValue::Object(members) => {
            let k = members[j].0@;
            let s2 = segs.push(Segment::Member(k));
            assert(s2.drop_last() =~= segs);
            assert(plain_key((members[j]).0@));
            assert forall|i: int| 0 <= i < s2.len() implies (#[trigger] s2[i] matches Segment::Member(k) ==> plain_key(k)) by {
                if i < segs.len() {
                    assert(s2[i] == segs[i]);
                }
            }
            assert(encodes(ns, c, members[j].1, Some(members[j].0), d + 1));
            assert(key_text(ns[c]) == k);
            assert(members[j].0@ == k);
            let m = choose|m: int| 0 <= m < members.len() && (#[trigger] members[m]).0@ == k;
            if m != j {
                if m < j {
                    assert(members[m].0@ != members[j].0@);
                } else {
                    assert(members[j].0@ != members[m].0@);
                }
            }
            assert(keys_unique(members[j].1));
            assert(keys_plain(members[j].1));
            (s2, members[j].1, Some(members[j].0))
        },
        _ => { (segs, v, key) },
    }
}

proof fn lemma_node_rows_resolve(
    ns: Seq<JsonNode>,
    doc: ParsedValue,
    i: int,
    prefix: Seq<char>,
    is_last: bool,
    path: Seq<char>,
    segs: Seq<Segment>,
    v: ParsedValue,
    key: Option<String>,
    d: int,
)
    requires
        nodes_wf(ns),
        ns.len() <= usize::MAX,
        0 <= i < ns.len(),
        path == render(segs),
        resolve(doc, segs) == Some(v),
        keys_unique(v),
        keys_plain(v),
        segs_plain(segs),
        encodes(ns, i, v, key, d),
    ensures
        all_resolve(ns, doc, node_rows(ns, i, prefix, is_last, path)),
    decreases usize::MAX - ns[i].depth, ns[i].children@.len() + 1,
{
    let head = seq![row_of(ns, i, prefix, is_last, path)];
    lemma_parse_render(segs);
    assert(head[0].node_index as int == i);
    assert(head[0].path == render(segs));
    assert(encodes(ns, head[0].node_index as int, v, key, d));
    assert(resolve(doc, segs) == Some(v));
    assert(path_resolves(ns, doc, head[0]));
    if ns[i].expanded {
        let len = ns[i].children@.len() as int;
        let cp = prefix + continuation(is_last);
        let rest = children_rows(ns, i, len, cp, path);
        if len > 0 {
            assert(v is Array || v is Object) by {
                match v {
                    ParsedValue::Array(_) => {},
                    ParsedValue::Object(_) => {},
                    _ => { assert(ns[i].children@.len() == 0); },
                }
            }
            lemma_children_rows_resolve(ns, doc, i, len, cp, path, segs, v, key, d);
        }
        let rows = head + rest;
        assert forall|k: int| 0 <= k < rows.len() implies path_resolves(ns, doc, #[trigger] rows[k]) by {
            if k > 0 {
                assert(rows[k] == rest[k - 1]);
            }
        }
    }
}

proof fn lemma_children_rows_resolve(
    ns: Seq<JsonNode>,
    doc: ParsedValue,
    p: int,
    k: int,
    prefix: Seq<char>,
    path: Seq<char>,
    segs: Seq<Segment>,
    v: ParsedValue,
    key: Option<String>,
    d: int,
)
    requires
        nodes_wf(ns),
        ns.len() <= usize::MAX,
        0 <= p < ns.len(),
        0 <= k <= ns[p].children@.len(),
        path == render(segs),
        resolve(doc, segs) == Some(v),
        keys_unique(v),
        keys_plain(v),
        segs_plain(segs),
        encodes(ns, p, v, key, d),
        v is Array || v is Object,
    ensures
        all_resolve(ns, doc, children_rows(ns, p, k, prefix, path)),
    decreases usize::MAX - ns[p].depth, k,
{
    if k > 0 {
        let c = ns[p].children@[k - 1] as int;
        assert(child_ok(ns, p, k - 1));
        let before = children_rows(ns, p, k - 1, prefix, path);
        lemma_children_rows_resolve(ns, doc, p, k - 1, prefix, path, segs, v, key, d);
        let r = lemma_child_resolves(ns, doc, p, k - 1, path, segs, v, key, d);
        let cpath = child_path(ns, p, k - 1, path);
        let last = node_rows(ns, c, prefix, k == ns[p].children@.len(), cpath);
        lemma_node_rows_resolve(ns, doc, c, prefix, k == ns[p].children@.len(), cpath, r.0, r.1, r.2, d + 1);
        let rows = before + last;
        assert(children_rows(ns, p, k, prefix, path) == rows);
        assert forall|m: int| 0 <= m < rows.len() implies path_resolves(ns, doc, #[trigger] rows[m]) by {
            if m < before.len() {
                assert(rows[m] == before[m]);
            } else {
                assert(rows[m] == last[m - before.len()]);
            }
        }
    }
}

/// In a tree that stands for a document whose objects have distinct,
/// non-empty member names free of `.`, `[` and `]`, the path of every
/// visible row, read as an accessor expression, leads in the document to the
/// value that the row's node stands for.
pub proof fn lemma_row_paths_resolve(ns: Seq<JsonNode>, root: int, doc: ParsedValue)
    requires
        nodes_wf(ns),
        ns.len() <= usize::MAX,
        0 <= root < ns.len(),
        encodes(ns, root, doc, None, 0),
        keys_unique(doc),
        keys_plain(doc),
    ensures
        all_resolve(ns, doc, visible_rows(ns, root)),
{
    let len = ns[root].children@.len() as int;
    assert(render(Seq::<Segment>::empty()) == Seq::<char>::empty());
    assert(resolve(doc, Seq::<Segment>::empty()) == Some(doc));
    assert(segs_plain(Seq::<Segment>::empty()));
    if len > 0 {
        assert(doc is Array || doc is Object) by {
            match doc {
                ParsedValue::Array(_) => {},
                ParsedValue::Object(_) => {},
                _ => { assert(ns[root].children@.len() == 0); },
            }
        }
        lemma_children_rows_resolve(ns, doc, root, len, Seq::empty(), Seq::empty(), Seq::empty(), doc, None, 0);
    }
}

} // verus!
