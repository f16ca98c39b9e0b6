use vstd::prelude::*;
use crate::flat_row::RowModel;
use crate::flatten::{child_ok, child_path, children_rows, node_rows, visible_rows};
use crate::builder::single_parent;
use crate::navigation::{is_path, lemma_path_unique, on_path_above, revealed, step_ok};
use crate::node::{JsonNode, is_container};
use crate::tree::{is_child, nodes_wf};

verus! {

/// Some row shows node `n`.
pub open spec fn shows(rows: Seq<RowModel>, n: int) -> bool {
    exists|k: int| 0 <= k < rows.len() && rows[k].node_index as int == n
}

/// Every node on `p` but the last is expanded.
pub open spec fn open_above(ns: Seq<JsonNode>, p: Seq<usize>) -> bool {
    forall|m: int| 0 <= m < p.len() - 1 ==> #[trigger] ns[p[m] as int].expanded
}

/// Some path leads from `from` down to `to` through expanded nodes only.
pub open spec fn reaches_open(ns: Seq<JsonNode>, from: int, to: int) -> bool {
    exists|p: Seq<usize>| is_path(ns, p, from, to) && open_above(ns, p)
}

proof fn lemma_shows_concat(a: Seq<RowModel>, b: Seq<RowModel>, n: int)
    ensures
        shows(a + b, n) <==> (shows(a, n) || shows(b, n)),
{
    if shows(a + b, n) {
        let k = choose|k: int| 0 <= k < (a + b).len() && (a + b)[k].node_index as int == n;
        if k >= a.len() {
            assert(b[k - a.len()] == (a + b)[k]);
        }
    }
    if shows(a, n) {
        let k = choose|k: int| 0 <= k < a.len() && a[k].node_index as int == n;
        assert((a + b)[k] == a[k]);
    }
    if shows(b, n) {
        let k = choose|k: int| 0 <= k < b.len() && b[k].node_index as int == n;
        assert((a + b)[k + a.len()] == b[k]);
    }
}

proof fn lemma_prepend(ns: Seq<JsonNode>, i: int, j: int, n: int)
    requires
        nodes_wf(ns),
        ns.len() <= usize::MAX,
        0 <= i < ns.len(),
        ns[i].expanded,
        0 <= j < ns[i].children@.len(),
        reaches_open(ns, ns[i].children@[j] as int, n),
    ensures
        reaches_open(ns, i, n),
{
    let c = ns[i].children@[j] as int;
    let p = choose|p: Seq<usize>| is_path(ns, p, c, n) && open_above(ns, p);
    let q = seq![i as usize] + p;
    assert(is_child(ns, i, c)) by {
        assert(ns[i].children@[j] == c as usize);
    }
    assert forall|m: int| 0 <= m < q.len() - 1 implies #[trigger] step_ok(ns, q, m) by {
        if m > 0 {
            assert(step_ok(ns, p, m - 1));
        }
    }
    assert forall|m: int| 0 <= m < q.len() - 1 implies #[trigger] ns[q[m] as int].expanded by {
        if m > 0 {
            assert(q[m] == p[m - 1]);
            assert(ns[p[m - 1] as int].expanded);
        }
    }
    assert(is_path(ns, q, i, n) && open_above(ns, q));
}

proof fn lemma_first_step(ns: Seq<JsonNode>, i: int, n: int)
    requires
        nodes_wf(ns),
        0 <= i < ns.len(),
        i != n,
        reaches_open(ns, i, n),
    ensures
        ns[i].expanded,
        exists|j: int| 0 <= j < ns[i].children@.len() && reaches_open(ns, #[trigger] ns[i].children@[j] as int, n),
{
    let p = choose|p: Seq<usize>| is_path(ns, p, i, n) && open_above(ns, p);
    assert(p.len() >= 2);
    assert(ns[p[0] as int].expanded);
    assert(step_ok(ns, p, 0));
    let j = ns[i].children@.index_of(p[1]);
    let t = p.subrange(1, p.len() as int);
    assert forall|m: int| 0 <= m < t.len() - 1 implies #[trigger] step_ok(ns, t, m) by {
        assert(step_ok(ns, p, m + 1));
    }
    assert forall|m: int| 0 <= m < t.len() - 1 implies #[trigger] ns[t[m] as int].expanded by {
        assert(t[m] == p[m + 1]);
        assert(ns[p[m + 1] as int].expanded);
    }
    assert(ns[i].children@[j] == p[1]);
    assert(is_path(ns, t, p[1] as int, n) && open_above(ns, t));
    assert(reaches_open(ns, ns[i].children@[j] as int, n));
}

proof fn lemma_node_rows_show(
    ns: Seq<JsonNode>,
    i: int,
    prefix: Seq<char>,
    is_last: bool,
    path: Seq<char>,
    n: int,
)
    requires
        nodes_wf(ns),
        ns.len() <= usize::MAX,
        0 <= i < ns.len(),
    ensures
        shows(node_rows(ns, i, prefix, is_last, path), n) <==> reaches_open(ns, i, n),
    decreases usize::MAX - ns[i].depth, ns[i].children@.len() + 1,
{
    let rows = node_rows(ns, i, prefix, is_last, path);
    let len = ns[i].children@.len() as int;
    let cp = prefix + crate::flatten::continuation(is_last);
    let head = seq![crate::flatten::row_of(ns, i, prefix, is_last, path)];
    assert(head[0].node_index as int == i);
    if n == i {
        let single = seq![i as usize];
        assert(rows[0] == head[0]);
        assert(is_path(ns, single, i, n));
        assert(open_above(ns, single));
        return;
    }
    assert(!shows(head, n)) by {
        if shows(head, n) {
            let k = choose|k: int| 0 <= k < head.len() && head[k].node_index as int == n;
            assert(k == 0);
        }
    }
    if ns[i].expanded {
        let rest = children_rows(ns, i, len, cp, path);
        assert(rows == head + rest);
        lemma_shows_concat(head, rest, n);
        lemma_children_rows_show(ns, i, len, cp, path, n);
        if shows(rows, n) {
            let j = choose|j: int| 0 <= j < len && reaches_open(ns, #[trigger] ns[i].children@[j] as int, n);
            lemma_prepend(ns, i, j, n);
        }
        if reaches_open(ns, i, n) {
            lemma_first_step(ns, i, n);
        }
    } else {
        assert(rows == head);
        if reaches_open(ns, i, n) {
            lemma_first_step(ns, i, n);
        }
    }
}

proof fn lemma_children_rows_show(
    ns: Seq<JsonNode>,
    p: int,
    k: int,
    prefix: Seq<char>,
    path: Seq<char>,
    n: int,
)
    requires
        nodes_wf(ns),
        ns.len() <= usize::MAX,
        0 <= p < ns.len(),
        0 <= k <= ns[p].children@.len(),
    ensures
        shows(children_rows(ns, p, k, prefix, path), n) <==> exists|j: int|
            0 <= j < k && reaches_open(ns, #[trigger] ns[p].children@[j] as int, n),
    decreases usize::MAX - ns[p].depth, k,
{
    if k == 0 {
        return;
    }
    let c = ns[p].children@[k - 1] as int;
    assert(child_ok(ns, p, k - 1));
    let before = children_rows(ns, p, k - 1, prefix, path);
    let last = node_rows(ns, c, prefix, k == ns[p].children@.len(), child_path(ns, p, k - 1, path));
    assert(children_rows(ns, p, k, prefix, path) == before + last);
    lemma_shows_concat(before, last, n);
    lemma_children_rows_show(ns, p, k - 1, prefix, path, n);
    lemma_node_rows_show(ns, c, prefix, k == ns[p].children@.len(), child_path(ns, p, k - 1, path), n);
    if exists|j: int| 0 <= j < k && reaches_open(ns, #[trigger] ns[p].children@[j] as int, n) {
        let j = choose|j: int| 0 <= j < k && reaches_open(ns, #[trigger] ns[p].children@[j] as int, n);
        if j < k - 1 {
            assert(exists|j2: int| 0 <= j2 < k - 1 && reaches_open(ns, #[trigger] ns[p].children@[j2] as int, n));
        }
    }
}

/// A node appears among the flattened rows exactly when a path leads to it
/// from the root through nodes that are all expanded, the root excepted.
pub proof fn lemma_flatten_visibility(ns: Seq<JsonNode>, root: int, n: int)
    requires
        nodes_wf(ns),
        ns.len() <= usize::MAX,
        0 <= root < ns.len(),
    ensures
        shows(visible_rows(ns, root), n) <==> exists|p: Seq<usize>|
            #[trigger] is_path(ns, p, root, n) && p.len() >= 2 && open_above(ns, p.subrange(1, p.len() as int)),
{
    let len = ns[root].children@.len() as int;
    lemma_children_rows_show(ns, root, len, Seq::empty(), Seq::empty(), n);
    if shows(visible_rows(ns, root), n) {
        let j = choose|j: int| 0 <= j < len && reaches_open(ns, #[trigger] ns[root].children@[j] as int, n);
        let c = ns[root].children@[j] as int;
        let p = choose|p: Seq<usize>| is_path(ns, p, c, n) && open_above(ns, p);
        let q = seq![root as usize] + p;
        assert(is_child(ns, root, c)) by {
            assert(ns[root].children@[j] == c as usize);
        }
        assert forall|m: int| 0 <= m < q.len() - 1 implies #[trigger] step_ok(ns, q, m) by {
            if m > 0 {
                assert(step_ok(ns, p, m - 1));
            }
        }
        assert(q.subrange(1, q.len() as int) =~= p);
        assert(is_path(ns, q, root, n));
    }
    if exists|p: Seq<usize>| #[trigger] is_path(ns, p, root, n) && p.len() >= 2 && open_above(ns, p.subrange(1, p.len() as int)) {
        let p = choose|p: Seq<usize>| #[trigger] is_path(ns, p, root, n) && p.len() >= 2 && open_above(ns, p.subrange(1, p.len() as int));
        assert(step_ok(ns, p, 0));
        let j = ns[root].children@.index_of(p[1]);
        let t = p.subrange(1, p.len() as int);
        assert forall|m: int| 0 <= m < t.len() - 1 implies #[trigger] step_ok(ns, t, m) by {
            assert(step_ok(ns, p, m + 1));
        }
        assert(ns[root].children@[j] == p[1]);
        assert(is_path(ns, t, p[1] as int, n));
        assert(reaches_open(ns, ns[root].children@[j] as int, n));
    }
}

/// Only containers have children.
pub open spec fn leaves_childless(ns: Seq<JsonNode>) -> bool {
    forall|i: int| 0 <= i < ns.len() && (#[trigger] ns[i]).children@.len() > 0 ==> is_container(ns[i].value)
}

/// Revealing a node below the root along a path from the root makes it
/// appear among the flattened rows.
pub proof fn lemma_reveal_shows(ns: Seq<JsonNode>, root: int, p: Seq<usize>, target: int)
    requires
        nodes_wf(ns),
        ns.len() <= usize::MAX,
        leaves_childless(ns),
        is_path(ns, p, root, target),
        p.len() >= 2,
    ensures
        shows(visible_rows(revealed(ns, p), root), target),
{
    let r = revealed(ns, p);
    assert forall|i: int| 0 <= i < ns.len() implies (#[trigger] r[i]).children == ns[i].children
        && r[i].depth == ns[i].depth by {}
    assert(nodes_wf(r)) by {
        assert forall|i: int, j: int|
            #![trigger r[i].children@[j]]
            0 <= i < r.len() && 0 <= j < r[i].children@.len() implies {
                let c = r[i].children@[j] as int;
                &&& 0 <= c < r.len()
                &&& r[c].depth == r[i].depth + 1
            } by {
            assert(r[i].children == ns[i].children);
            assert(ns[i].children@[j] == r[i].children@[j]);
            let c = r[i].children@[j] as int;
            assert(r[c].depth == ns[c].depth);
        }
    }
    assert forall|m: int| 0 <= m < p.len() - 1 implies #[trigger] step_ok(r, p, m) by {
        assert(step_ok(ns, p, m));
        assert(r[p[m] as int].children == ns[p[m] as int].children);
    }
    assert(is_path(r, p, root, target));
    let t = p.subrange(1, p.len() as int);
    assert forall|m: int| 0 <= m < t.len() - 1 implies #[trigger] r[t[m] as int].expanded by {
        let q = p[m + 1] as int;
        assert(t[m] == p[m + 1]);
        assert(on_path_above(p, q));
        assert(step_ok(ns, p, m + 1));
        assert(ns[q].children@.contains(p[m + 2]));
        assert(ns[q].children@.len() > 0);
        assert(is_container(ns[q].value));
    }
    assert(open_above(r, t));
    lemma_flatten_visibility(r, root, target);
}

/// Changing only `expanded` flags keeps children on containers only.
pub proof fn lemma_childless_reflag(ns: Seq<JsonNode>, ns2: Seq<JsonNode>)
    requires
        leaves_childless(ns),
        ns2.len() == ns.len(),
        forall|i: int| 0 <= i < ns.len() ==> (#[trigger] ns2[i]).children == ns[i].children && ns2[i].value == ns[i].value,
    ensures
        leaves_childless(ns2),
{
    assert forall|i: int| 0 <= i < ns2.len() && (#[trigger] ns2[i]).children@.len() > 0 implies is_container(ns2[i].value) by {
        assert(ns2[i].children == ns[i].children);
    }
}

/// No two rows show the same node.
pub open spec fn distinct_nodes(rows: Seq<RowModel>) -> bool {
    forall|a: int, b: int| 0 <= a < b < rows.len() ==> rows[a].node_index != rows[b].node_index
}

proof fn lemma_distinct_concat(x: Seq<RowModel>, y: Seq<RowModel>)
    requires
        distinct_nodes(x),
        distinct_nodes(y),
        forall|n: int| !(shows(x, n) && shows(y, n)),
    ensures
        distinct_nodes(x + y),
{
    let z = x + y;
    assert forall|a: int, b: int| 0 <= a < b < z.len() implies z[a].node_index != z[b].node_index by {
        if a < x.len() && b >= x.len() {
            let n = z[a].node_index as int;
            assert(x[a] == z[a]);
            assert(y[b - x.len()] == z[b]);
            if z[a].node_index == z[b].node_index {
                assert(shows(x, n));
                assert(shows(y, n));
            }
        } else if b < x.len() {
            assert(x[a] == z[a] && x[b] == z[b]);
        } else {
            assert(y[a - x.len()] == z[a] && y[b - x.len()] == z[b]);
        }
    }
}

/// A path from a child of `p` extends to a path from `p`.
proof fn lemma_prepend_path(ns: Seq<JsonNode>, p: int, j: int, q: Seq<usize>, n: int) -> (r: Seq<usize>)
    requires
        nodes_wf(ns),
        ns.len() <= usize::MAX,
        0 <= p < ns.len(),
        0 <= j < ns[p].children@.len(),
        is_path(ns, q, ns[p].children@[j] as int, n),
    ensures
        is_path(ns, r, p, n),
        r.len() >= 2,
        r[1] == ns[p].children@[j],
{
    let c = ns[p].children@[j] as int;
    let r = seq![p as usize] + q;
    assert(is_child(ns, p, c)) by {
        assert(ns[p].children@[j] == c as usize);
    }
    assert forall|m: int| 0 <= m < r.len() - 1 implies #[trigger] step_ok(ns, r, m) by {
        if m > 0 {
            assert(step_ok(ns, q, m - 1));
        }
    }
    r
}

proof fn lemma_node_rows_distinct(ns: Seq<JsonNode>, i: int, prefix: Seq<char>, is_last: bool, path: Seq<char>)
    requires
        nodes_wf(ns),
        single_parent(ns),
        ns.len() <= usize::MAX,
        0 <= i < ns.len(),
    ensures
        distinct_nodes(node_rows(ns, i, prefix, is_last, path)),
    decreases usize::MAX - ns[i].depth, ns[i].children@.len() + 1,
{
    let head = seq![crate::flatten::row_of(ns, i, prefix, is_last, path)];
    if ns[i].expanded {
        let len = ns[i].children@.len() as int;
        let cp = prefix + crate::flatten::continuation(is_last);
        let rest = children_rows(ns, i, len, cp, path);
        lemma_children_rows_distinct(ns, i, len, cp, path);
        assert forall|n: int| !(shows(head, n) && shows(rest, n)) by {
            if shows(head, n) && shows(rest, n) {
                let k = choose|k: int| 0 <= k < head.len() && head[k].node_index as int == n;
                assert(n == i);
                lemma_children_rows_show(ns, i, len, cp, path, n);
                let j = choose|j: int| 0 <= j < len && reaches_open(ns, #[trigger] ns[i].children@[j] as int, n);
                let c = ns[i].children@[j] as int;
                let q = choose|q: Seq<usize>| is_path(ns, q, c, n) && open_above(ns, q);
                crate::navigation::lemma_path_depth(ns, q, c, n, q.len() - 1);
                assert(q[q.len() - 1] == q.last());
            }
        }
        lemma_distinct_concat(head, rest);
    }
}

proof fn lemma_children_rows_distinct(ns: Seq<JsonNode>, p: int, k: int, prefix: Seq<char>, path: Seq<char>)
    requires
        nodes_wf(ns),
        single_parent(ns),
        ns.len() <= usize::MAX,
        0 <= p < ns.len(),
        0 <= k <= ns[p].children@.len(),
    ensures
        distinct_nodes(children_rows(ns, p, k, prefix, path)),
    decreases usize::MAX - ns[p].depth, k,
{
    if k > 0 {
        let c = ns[p].children@[k - 1] as int;
        assert(child_ok(ns, p, k - 1));
        let before = children_rows(ns, p, k - 1, prefix, path);
        let last = node_rows(ns, c, prefix, k == ns[p].children@.len(), child_path(ns, p, k - 1, path));
        lemma_children_rows_distinct(ns, p, k - 1, prefix, path);
        lemma_node_rows_distinct(ns, c, prefix, k == ns[p].children@.len(), child_path(ns, p, k - 1, path));
        assert forall|n: int| !(shows(before, n) && shows(last, n)) by {
            if shows(before, n) && shows(last, n) {
                lemma_children_rows_show(ns, p, k - 1, prefix, path, n);
                lemma_node_rows_show(ns, c, prefix, k == ns[p].children@.len(), child_path(ns, p, k - 1, path), n);
                let j = choose|j: int| 0 <= j < k - 1 && reaches_open(ns, #[trigger] ns[p].children@[j] as int, n);
                let qa = choose|q: Seq<usize>| is_path(ns, q, ns[p].children@[j] as int, n) && open_above(ns, q);
                let qb = choose|q: Seq<usize>| is_path(ns, q, c, n) && open_above(ns, q);
                let ra = lemma_prepend_path(ns, p, j, qa, n);
                let rb = lemma_prepend_path(ns, p, k - 1, qb, n);
                lemma_path_unique(ns, ra, rb, p, n);
                assert(ns[p].children@[j] == ns[p].children@[k - 1]);
            }
        }
        lemma_distinct_concat(before, last);
    }
}

/// No node appears twice among the flattened rows of a tree where no node
/// is listed twice as a child.
pub proof fn lemma_flatten_distinct(ns: Seq<JsonNode>, root: int)
    requires
        nodes_wf(ns),
        single_parent(ns),
        ns.len() <= usize::MAX,
    ensures
        distinct_nodes(visible_rows(ns, root)),
{
    if 0 <= root < ns.len() {
        lemma_children_rows_distinct(ns, root, ns[root].children@.len() as int, Seq::empty(), Seq::empty());
    }
}

} // verus!
