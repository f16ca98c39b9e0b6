use vstd::prelude::*;
use crate::builder::single_parent;
use crate::node::{JsonNode, is_container};
use crate::tree::{JsonTree, is_child, nodes_wf};

verus! {

/// Step `j` of `p` goes from a node to one of its listed children.
pub open spec fn step_ok(ns: Seq<JsonNode>, p: Seq<usize>, j: int) -> bool {
    is_child(ns, p[j] as int, p[j + 1] as int)
}

/// `p` leads from node `from` down to `to`, each step going to a listed
/// child.
pub open spec fn is_path(ns: Seq<JsonNode>, p: Seq<usize>, from: int, to: int) -> bool {
    &&& 0 <= from < ns.len()
    &&& p.len() >= 1
    &&& p[0] == from
    &&& p.last() == to
    &&& forall|j: int| 0 <= j < p.len() - 1 ==> #[trigger] step_ok(ns, p, j)
}

/// No path leads from `from` down to `to`.
pub open spec fn no_path(ns: Seq<JsonNode>, from: int, to: int) -> bool {
    forall|p: Seq<usize>| !#[trigger] is_path(ns, p, from, to)
}

/// What a search for the path to `target` may return: a path from the root,
/// or nothing where there is none.
pub open spec fn path_result(ns: Seq<JsonNode>, root: int, target: int, p: Seq<usize>) -> bool {
    if p.len() == 0 {
        no_path(ns, root, target)
    } else {
        is_path(ns, p, root, target)
    }
}

proof fn lemma_path_tail(ns: Seq<JsonNode>, p: Seq<usize>, from: int, to: int)
    requires
        nodes_wf(ns),
        is_path(ns, p, from, to),
        p.len() >= 2,
    ensures
        is_path(ns, p.subrange(1, p.len() as int), p[1] as int, to),
        is_child(ns, from, p[1] as int),
{
    let t = p.subrange(1, p.len() as int);
    assert forall|j: int| 0 <= j < t.len() - 1 implies #[trigger] step_ok(ns, t, j) by {
        assert(step_ok(ns, p, j + 1));
    }
    assert(step_ok(ns, p, 0));
    let m = ns[from].children@.index_of(p[1]);
    assert(ns[from].children@[m] == p[1]);
}

fn find_path(tree: &JsonTree, from: usize, target: usize) -> (r: Option<Vec<usize>>)
    requires
        tree.wf(),
        from < tree.spec_nodes().len(),
    ensures
        match r {
            Some(p) => is_path(tree.spec_nodes(), p@, from as int, target as int),
            None => no_path(tree.spec_nodes(), from as int, target as int),
        },
    decreases usize::MAX - tree.spec_nodes()[from as int].depth,
{
    let ghost ns = tree.spec_nodes();
    if from == target {
        let mut p: Vec<usize> = Vec::new();
        p.push(from);
        return Some(p);
    }
    let node = match tree.get_node(from) {
        Some(n) => n,
        None => { return None; },
    };
    let n = node.children.len();
    let mut k: usize = 0;
    while k < n
        invariant
            tree.wf(),
            ns == tree.spec_nodes(),
            from < ns.len(),
            from != target,
            *node == ns[from as int],
            n == node.children@.len(),
            k <= n,
            forall|m: int| 0 <= m < k ==> no_path(ns, #[trigger] node.children@[m] as int, target as int),
        decreases n - k,
    {
        let c = node.children[k];
        assert(node.children@[k as int] == c);
        match find_path(tree, c, target) {
            Some(rest) => {
                let mut p = rest;
                p.insert(0, from);
                proof {
                    assert(ns[from as int].children@.contains(c));
                    assert forall|j: int| 0 <= j < p@.len() - 1 implies #[trigger] step_ok(ns, p@, j) by {
                        if j > 0 {
                            assert(step_ok(ns, rest@, j - 1));
                        }
                    }
                }
                return Some(p);
            },
            None => {},
        }
        k = k + 1;
    }
    proof {
        assert forall|p: Seq<usize>| !#[trigger] is_path(ns, p, from as int, target as int) by {
            if is_path(ns, p, from as int, target as int) {
                lemma_path_tail(ns, p, from as int, target as int);
                let m = ns[from as int].children@.index_of(p[1]);
                assert(!is_path(ns, p.subrange(1, p.len() as int), node.children@[m] as int, target as int));
            }
        }
    }
    None
}

/// Along a path, each step goes one level deeper.
pub proof fn lemma_path_depth(ns: Seq<JsonNode>, p: Seq<usize>, from: int, to: int, m: int)
    requires
        nodes_wf(ns),
        is_path(ns, p, from, to),
        0 <= m < p.len(),
    ensures
        0 <= p[m] < ns.len(),
        ns[p[m] as int].depth == ns[from].depth + m,
    decreases m,
{
    if m > 0 {
        lemma_path_depth(ns, p, from, to, m - 1);
        assert(step_ok(ns, p, m - 1));
        let q = p[m - 1] as int;
        let j = ns[q].children@.index_of(p[m]);
        assert(ns[q].children@[j] == p[m]);
    }
}

/// Where no node is listed twice as a child, only one path leads from a
/// node down to another: the nodes a reveal expands are exactly the
/// target's ancestors.
pub proof fn lemma_path_unique(ns: Seq<JsonNode>, p1: Seq<usize>, p2: Seq<usize>, from: int, to: int)
    requires
        nodes_wf(ns),
        single_parent(ns),
        is_path(ns, p1, from, to),
        is_path(ns, p2, from, to),
    ensures
        p1 == p2,
{
    lemma_path_depth(ns, p1, from, to, p1.len() - 1);
    lemma_path_depth(ns, p2, from, to, p2.len() - 1);
    assert(p1.len() == p2.len());
    let n = p1.len() as int;
    assert forall|m: int| 0 <= m < n implies p1[m] == p2[m] by {
        lemma_same_from(ns, p1, p2, from, to, m);
    }
    assert(p1 =~= p2);
}

proof fn lemma_same_from(ns: Seq<JsonNode>, p1: Seq<usize>, p2: Seq<usize>, from: int, to: int, m: int)
    requires
        nodes_wf(ns),
        single_parent(ns),
        is_path(ns, p1, from, to),
        is_path(ns, p2, from, to),
        p1.len() == p2.len(),
        0 <= m < p1.len(),
    ensures
        p1[m] == p2[m],
    decreases p1.len() - m,
{
    if m == p1.len() - 1 {
        assert(p1[m] == p1.last());
        assert(p2[m] == p2.last());
    } else {
        lemma_same_from(ns, p1, p2, from, to, m + 1);
        assert(step_ok(ns, p1, m));
        assert(step_ok(ns, p2, m));
        let a = p1[m] as int;
        let b = p2[m] as int;
        let ja = ns[a].children@.index_of(p1[m + 1]);
        let jb = ns[b].children@.index_of(p2[m + 1]);
        assert(ns[a].children@[ja] == ns[b].children@[jb]);
    }
}

/// The nodes from the root down to `target`, both included; empty where
/// `target` cannot be reached from the root.
pub fn path_to_node(tree: &JsonTree, target: usize) -> (r: Vec<usize>)
    requires
        tree.wf(),
    ensures
        path_result(tree.spec_nodes(), tree.spec_root() as int, target as int, r@),
{
    let root = tree.root_index();
    if root >= tree.node_count() {
        let ghost ns = tree.spec_nodes();
        assert forall|p: Seq<usize>| !#[trigger] is_path(ns, p, root as int, target as int) by {
        }
        return Vec::new();
    }
    match find_path(tree, root, target) {
        Some(p) => p,
        None => Vec::new(),
    }
}

/// Whether node `j` stands on `p` before its last place.
pub open spec fn on_path_above(p: Seq<usize>, j: int) -> bool {
    exists|m: int| 0 <= m < p.len() - 1 && p[m] == j
}

/// The nodes after every container on `p` above its end was expanded.
pub open spec fn revealed(ns: Seq<JsonNode>, p: Seq<usize>) -> Seq<JsonNode> {
    Seq::new(
        ns.len(),
        |j: int|
            if on_path_above(p, j) && is_container(ns[j].value) {
                JsonNode { expanded: true, ..ns[j] }
            } else {
                ns[j]
            },
    )
}

/// Revealing along the same path a second time changes nothing.
pub proof fn lemma_reveal_idempotent(ns: Seq<JsonNode>, p: Seq<usize>)
    ensures
        revealed(revealed(ns, p), p) == revealed(ns, p),
{
    let once = revealed(ns, p);
    assert(revealed(once, p) =~= once);
}

/// Expands every ancestor of `target` on the path from the root, leaving the
/// target itself and every other node as they were.
pub fn expand_to_node(tree: &mut JsonTree, target: usize)
    requires
        old(tree).wf(),
    ensures
        final(tree).wf(),
        final(tree).spec_root() == old(tree).spec_root(),
        exists|p: Seq<usize>|
            path_result(old(tree).spec_nodes(), old(tree).spec_root() as int, target as int, p)
            && final(tree).spec_nodes() == revealed(old(tree).spec_nodes(), p),
{
    let ghost ns0 = tree.spec_nodes();
    let path = path_to_node(tree, target);
    let n = path.len();
    let last = if n > 0 { n - 1 } else { 0 };
    let mut k: usize = 0;
    while k < last
        invariant
            last == if n > 0 { n - 1 } else { 0 },
            k <= last,
            tree.wf(),
            tree.spec_root() == old(tree).spec_root(),
            ns0 == old(tree).spec_nodes(),
            path_result(ns0, old(tree).spec_root() as int, target as int, path@),
            n == path@.len(),
            k <= n,
            n == 0 ==> k == 0,
            tree.spec_nodes() == revealed(ns0, path@.subrange(0, k as int).push(0)),
        decreases n - k,
    {
        let j = path[k];
        tree.set_expanded(j, true);
        proof {
            let a = path@.subrange(0, k as int).push(0);
            let b = path@.subrange(0, k + 1).push(0);
            let ns = tree.spec_nodes();
            assert forall|i: int| 0 <= i < ns0.len() implies #[trigger] ns[i] == revealed(ns0, b)[i] by {
                if i == j {
                    assert(b[k as int] == j);
                    assert(on_path_above(b, i));
                } else {
                    assert(on_path_above(a, i) == on_path_above(b, i)) by {
                        if on_path_above(b, i) {
                            let m = choose|m: int| 0 <= m < b.len() - 1 && b[m] == i;
                            assert(a[m] == i);
                        }
                        if on_path_above(a, i) {
                            let m = choose|m: int| 0 <= m < a.len() - 1 && a[m] == i;
                            assert(b[m] == i);
                        }
                    }
                }
            }
            assert(ns =~= revealed(ns0, b));
        }
        k = k + 1;
    }
    proof {
        let a = path@.subrange(0, k as int).push(0);
        assert forall|i: int| 0 <= i < ns0.len() implies on_path_above(a, i) == on_path_above(path@, i) by {
            if on_path_above(a, i) {
                let m = choose|m: int| 0 <= m < a.len() - 1 && a[m] == i;
                assert(path@[m] == i);
            }
            if on_path_above(path@, i) {
                let m = choose|m: int| 0 <= m < path@.len() - 1 && path@[m] == i;
                assert(a[m] == i);
            }
        }
        assert(revealed(ns0, a) =~= revealed(ns0, path@));
    }
}

} // verus!
