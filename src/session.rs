use vstd::prelude::*;
use std::collections::HashSet;
use crate::flat_row::{FlatRow, opt_view};
use crate::flatten::{flatten_visible_nodes, models, numbered, visible_rows};
use crate::navigation::{expand_to_node, path_result, revealed, no_path};
use crate::node::{JsonNode, is_container};
use crate::visibility::{leaves_childless, lemma_childless_reflag, lemma_reveal_shows, shows};
use crate::search::{search_nodes, search_outcome};
use crate::tree::{JsonTree, toggled};
use crate::viewport::{centred_offset, scroll_offset_for};

verus! {

/// Display preferences.
#[derive(Debug, Clone)]
pub struct Preferences {
    pub indent_size: usize,
    pub show_tree_lines: bool,
}

impl Default for Preferences {
    fn default() -> (r: Self)
        ensures
            r.indent_size == 2,
            r.show_tree_lines,
    {
        Preferences { indent_size: 2, show_tree_lines: true }
    }
}

/// The results of the last search, a set of them for quick lookups while
/// rendering, and the selected result.
pub struct SearchState {
    results: Vec<usize>,
    matches: HashSet<usize>,
    cursor: Option<usize>,
}

/// The cursor after a step forward: the next result, wrapping to the first.
pub open spec fn cursor_after_next(cursor: Option<usize>, len: nat) -> Option<usize> {
    if len == 0 {
        cursor
    } else {
        match cursor {
            Some(i) => Some(((i + 1) % (len as int)) as usize),
            None => Some(0),
        }
    }
}

/// The cursor after a step back: the previous result, wrapping to the last.
pub open spec fn cursor_after_prev(cursor: Option<usize>, len: nat) -> Option<usize> {
    if len == 0 {
        cursor
    } else {
        match cursor {
            Some(i) => Some(if i == 0 { (len - 1) as usize } else { (i - 1) as usize }),
            None => Some((len - 1) as usize),
        }
    }
}

impl SearchState {
    pub closed spec fn spec_results(&self) -> Seq<usize> {
        self.results@
    }

    pub closed spec fn spec_cursor(&self) -> Option<usize> {
        self.cursor
    }

    pub closed spec fn wf(&self) -> bool {
        &&& self.matches@ == self.results@.to_set()
        &&& self.cursor matches Some(i) ==> i < self.results@.len()
    }

    /// No results, no selection.
    pub fn new() -> (r: Self)
        ensures
            r.wf(),
            r.spec_results() == Seq::<usize>::empty(),
            r.spec_cursor() is None,
    {
        let r = SearchState { results: Vec::new(), matches: HashSet::new(), cursor: None };
        assert(r.results@.to_set() =~= Set::<usize>::empty());
        r
    }

    /// Replaces the results; the first one, if any, becomes the selection.
    pub fn set_results(&mut self, results: Vec<usize>) -> (first: Option<usize>)
        ensures
            final(self).wf(),
            final(self).spec_results() == results@,
            final(self).spec_cursor() == if results@.len() > 0 { Some(0usize) } else { None },
            first == if results@.len() > 0 { Some(results@[0]) } else { None },
    {
        broadcast use vstd::std_specs::hash::group_hash_axioms;
        let mut matches: HashSet<usize> = HashSet::new();
        let mut k: usize = 0;
        while k < results.len()
            invariant
                k <= results@.len(),
                matches@ == results@.subrange(0, k as int).to_set(),
            decreases results@.len() - k,
        {
            matches.insert(results[k]);
            proof {
                assert(results@.subrange(0, k + 1) =~= results@.subrange(0, k as int).push(results@[k as int]));
                results@.subrange(0, k as int).lemma_push_to_set_commute(results@[k as int]);
            }
            k = k + 1;
        }
        assert(results@.subrange(0, k as int) =~= results@);
        let first = if results.len() > 0 { Some(results[0]) } else { None };
        let cursor = if results.len() > 0 { Some(0) } else { None };
        *self = SearchState { results, matches, cursor };
        first
    }

    /// Whether node `node` is among the results.
    pub fn is_match(&self, node: usize) -> (r: bool)
        requires
            self.wf(),
        ensures
            r == self.spec_results().contains(node),
    {
        broadcast use vstd::std_specs::hash::group_hash_axioms;
        self.matches.contains(&node)
    }

    /// Whether node `node` is the selected result.
    pub fn is_current(&self, node: usize) -> (r: bool)
        requires
            self.wf(),
        ensures
            r == (self.spec_cursor() matches Some(i) && self.spec_results()[i as int] == node),
    {
        match self.cursor {
            Some(i) => self.results[i] == node,
            None => false,
        }
    }

    /// The results, in ascending node order.
    pub fn results(&self) -> (r: &Vec<usize>)
        ensures
            r@ == self.spec_results(),
    {
        &self.results
    }

    /// The position of the selected result.
    pub fn cursor(&self) -> (r: Option<usize>)
        ensures
            r == self.spec_cursor(),
    {
        self.cursor
    }

    /// Selects the next result, wrapping round; returns its node.
    pub fn select_next(&mut self) -> (r: Option<usize>)
        requires
            old(self).wf(),
        ensures
            final(self).wf(),
            final(self).spec_results() == old(self).spec_results(),
            final(self).spec_cursor() == cursor_after_next(old(self).spec_cursor(), old(self).spec_results().len()),
            r == match final(self).spec_cursor() {
                Some(i) => if old(self).spec_results().len() > 0 { Some(old(self).spec_results()[i as int]) } else { None },
                None => None,
            },
    {
        let len = self.results.len();
        if len == 0 {
            return None;
        }
        let next = match self.cursor {
            Some(i) => (i + 1) % len,
            None => 0,
        };
        self.cursor = Some(next);
        Some(self.results[next])
    }

    /// Selects the previous result, wrapping round; returns its node.
    pub fn select_prev(&mut self) -> (r: Option<usize>)
        requires
            old(self).wf(),
        ensures
            final(self).wf(),
            final(self).spec_results() == old(self).spec_results(),
            final(self).spec_cursor() == cursor_after_prev(old(self).spec_cursor(), old(self).spec_results().len()),
            r == match final(self).spec_cursor() {
                Some(i) => if old(self).spec_results().len() > 0 { Some(old(self).spec_results()[i as int]) } else { None },
                None => None,
            },
    {
        let len = self.results.len();
        if len == 0 {
            return None;
        }
        let prev = match self.cursor {
            Some(i) => if i == 0 { len - 1 } else { i - 1 },
            None => len - 1,
        };
        self.cursor = Some(prev);
        Some(self.results[prev])
    }
}

/// A node that can be reached from the root, other than the root itself, is
/// shown by one of the rows.
pub open spec fn shown_if_reachable(tree: JsonTree, target: usize, rows: Seq<FlatRow>) -> bool {
    (target as int != tree.spec_root() && !no_path(tree.spec_nodes(), tree.spec_root() as int, target as int))
        ==> shows(models(rows), target as int)
}

/// The nodes after every container listed in `kids` got the flag `e`.
pub open spec fn with_listed_expanded(ns: Seq<JsonNode>, kids: Seq<usize>, e: bool) -> Seq<JsonNode> {
    Seq::new(
        ns.len(),
        |j: int|
            if kids.contains(j as usize) && is_container(ns[j].value) {
                JsonNode { expanded: e, ..ns[j] }
            } else {
                ns[j]
            },
    )
}

/// One loaded document: its tree, the rows currently visible, and the search
/// state. Every change of the tree rebuilds the rows.
pub struct Viewer {
    tree: JsonTree,
    rows: Vec<FlatRow>,
    search: SearchState,
}

impl Viewer {
    pub closed spec fn spec_tree(&self) -> JsonTree {
        self.tree
    }

    pub closed spec fn spec_rows(&self) -> Seq<FlatRow> {
        self.rows@
    }

    pub closed spec fn spec_search(&self) -> SearchState {
        self.search
    }

    /// The tree is well formed with children on containers only, the rows
    /// are its visible rows, the search state is consistent.
    pub open spec fn wf(&self) -> bool {
        &&& self.spec_tree().wf()
        &&& leaves_childless(self.spec_tree().spec_nodes())
        &&& numbered(self.spec_rows())
        &&& models(self.spec_rows()) == visible_rows(
            self.spec_tree().spec_nodes(),
            self.spec_tree().spec_root() as int,
        )
        &&& self.spec_search().wf()
    }

    pub fn new(tree: JsonTree) -> (r: Self)
        requires
            tree.wf(),
            leaves_childless(tree.spec_nodes()),
        ensures
            r.wf(),
            r.spec_tree() == tree,
            r.spec_search().spec_results() == Seq::<usize>::empty(),
            r.spec_search().spec_cursor() is None,
    {
        let rows = flatten_visible_nodes(&tree);
        Viewer { tree, rows, search: SearchState::new() }
    }

    pub fn tree(&self) -> (r: &JsonTree)
        ensures
            *r == self.spec_tree(),
    {
        &self.tree
    }

    pub fn rows(&self) -> (r: &Vec<FlatRow>)
        ensures
            r@ == self.spec_rows(),
    {
        &self.rows
    }

    pub fn search(&self) -> (r: &SearchState)
        ensures
            *r == self.spec_search(),
    {
        &self.search
    }

    /// Expands or collapses a container and rebuilds the rows.
    pub fn toggle_node(&mut self, index: usize)
        requires
            old(self).wf(),
        ensures
            final(self).wf(),
            final(self).spec_tree().spec_nodes() == toggled(old(self).spec_tree().spec_nodes(), index as int),
            final(self).spec_tree().spec_root() == old(self).spec_tree().spec_root(),
            final(self).spec_search() == old(self).spec_search(),
    {
        let ghost before = self.tree.spec_nodes();
        self.tree.toggle_expanded(index);
        proof {
            lemma_childless_reflag(before, self.tree.spec_nodes());
        }
        self.rows = flatten_visible_nodes(&self.tree);
    }

    /// Reveals a node: expands its ancestors and rebuilds the rows.
    pub fn reveal_node(&mut self, target: usize)
        requires
            old(self).wf(),
        ensures
            final(self).wf(),
            final(self).spec_tree().spec_root() == old(self).spec_tree().spec_root(),
            exists|p: Seq<usize>|
                path_result(
                    old(self).spec_tree().spec_nodes(),
                    old(self).spec_tree().spec_root() as int,
                    target as int,
                    p,
                ) && final(self).spec_tree().spec_nodes() == revealed(old(self).spec_tree().spec_nodes(), p),
            final(self).spec_search() == old(self).spec_search(),
            shown_if_reachable(old(self).spec_tree(), target, final(self).spec_rows()),
    {
        let ghost before = self.tree.spec_nodes();
        let ghost root = self.tree.spec_root() as int;
        expand_to_node(&mut self.tree, target);
        self.rows = flatten_visible_nodes(&self.tree);
        proof {
            let p = choose|p: Seq<usize>|
                path_result(before, root, target as int, p) && self.tree.spec_nodes() == revealed(before, p);
            lemma_childless_reflag(before, self.tree.spec_nodes());
            if target as int != root && !no_path(before, root, target as int) {
                old(self).spec_tree().lemma_len_fits();
                assert(p.len() >= 2) by {
                    if p.len() == 1 {
                        assert(p[0] == p.last());
                    }
                }
                lemma_reveal_shows(before, root, p, target as int);
            }
        }
    }

    /// Expands or collapses every container among the children of `node`
    /// and rebuilds the rows; does nothing for an index out of range.
    pub fn set_children_expanded(&mut self, node: usize, expanded: bool)
        requires
            old(self).wf(),
        ensures
            final(self).wf(),
            final(self).spec_tree().spec_root() == old(self).spec_tree().spec_root(),
            final(self).spec_search() == old(self).spec_search(),
            final(self).spec_tree().spec_nodes() == if node < old(self).spec_tree().spec_nodes().len() {
                with_listed_expanded(
                    old(self).spec_tree().spec_nodes(),
                    old(self).spec_tree().spec_nodes()[node as int].children@,
                    expanded,
                )
            } else {
                old(self).spec_tree().spec_nodes()
            },
    {
        let ghost ns0 = self.tree.spec_nodes();
        if node >= self.tree.node_count() {
            return;
        }
        let ghost kids = ns0[node as int].children@;
        let n = match self.tree.get_node(node) {
            Some(nd) => nd.children.len(),
            None => { return; },
        };
        let mut k: usize = 0;
        assert(with_listed_expanded(ns0, kids.take(0), expanded) =~= ns0);
        while k < n
            invariant
                self.tree.wf(),
                leaves_childless(self.tree.spec_nodes()),
                self.tree.spec_root() == old(self).spec_tree().spec_root(),
                self.search == old(self).spec_search(),
                ns0 == old(self).spec_tree().spec_nodes(),
                node < ns0.len(),
                kids == ns0[node as int].children@,
                n == kids.len(),
                k <= n,
                self.tree.spec_nodes() == with_listed_expanded(ns0, kids.take(k as int), expanded),
            decreases n - k,
        {
            let ghost before = self.tree.spec_nodes();
            assert(before[node as int].children == ns0[node as int].children);
            let c = match self.tree.get_node(node) {
                Some(nd) => nd.children[k],
                None => { return; },
            };
            self.tree.set_expanded(c, expanded);
            proof {
                let now = self.tree.spec_nodes();
                let a = kids.take(k as int);
                let b = kids.take(k + 1);
                assert(b =~= a.push(c));
                assert forall|j: int| 0 <= j < ns0.len() implies #[trigger] now[j] == with_listed_expanded(ns0, b, expanded)[j] by {
                    if j != c as int {
                        assert(b.contains(j as usize) == a.contains(j as usize)) by {
                            if b.contains(j as usize) {
                                let m = choose|m: int| 0 <= m < b.len() && b[m] == j as usize;
                                old(self).spec_tree().lemma_len_fits();
                                assert(b[k as int] == c);
                                assert(m < a.len());
                                assert(a[m] == b[m]);
                            }
                        }
                    } else {
                        assert(b[k as int] == c);
                        assert(b.contains(c));
                    }
                }
                assert(now =~= with_listed_expanded(ns0, b, expanded));
                lemma_childless_reflag(before, now);
            }
            k = k + 1;
        }
        assert(kids.take(k as int) =~= kids);
        self.rows = flatten_visible_nodes(&self.tree);
    }

    /// Runs a search for a new query. An empty query clears the results. A
    /// refused pattern leaves the results as they were and returns the error.
    /// Otherwise the results are replaced, the first is selected and
    /// revealed, and returned so that the view can scroll to it.
    pub fn run_search(&mut self, query: &str, case_sensitive: bool, use_regex: bool) -> (r: (
        Option<usize>,
        Option<String>,
    ))
        requires
            old(self).wf(),
        ensures
            final(self).wf(),
            final(self).spec_tree().spec_root() == old(self).spec_tree().spec_root(),
            r.0 matches Some(t) ==> shown_if_reachable(old(self).spec_tree(), t, final(self).spec_rows()),
            exists|found: Seq<usize>|
                search_outcome(
                    old(self).spec_tree().spec_nodes(),
                    query@,
                    case_sensitive,
                    use_regex,
                    (found, opt_view(r.1)),
                ) && if r.1 is Some {
                    final(self).spec_search() == old(self).spec_search()
                        && final(self).spec_tree() == old(self).spec_tree()
                } else {
                    &&& final(self).spec_search().spec_results() == found
                    &&& final(self).spec_search().spec_cursor() == if found.len() > 0 {
                        Some(0usize)
                    } else {
                        None
                    }
                    &&& r.0 == if found.len() > 0 { Some(found[0]) } else { None }
                    &&& found.len() == 0 ==> final(self).spec_tree() == old(self).spec_tree()
                    &&& found.len() > 0 ==> exists|p: Seq<usize>|
                        path_result(
                            old(self).spec_tree().spec_nodes(),
                            old(self).spec_tree().spec_root() as int,
                            found[0] as int,
                            p,
                        ) && final(self).spec_tree().spec_nodes() == revealed(
                            old(self).spec_tree().spec_nodes(),
                            p,
                        )
                },
    {
        let (results, error) = search_nodes(&self.tree, query, case_sensitive, use_regex);
        match error {
            Some(e) => (None, Some(e)),
            None => {
                let first = self.search.set_results(results);
                match first {
                    Some(target) => {
                        self.reveal_node(target);
                    },
                    None => {},
                }
                (first, None)
            },
        }
    }

    /// Selects the next result, reveals it, and returns it.
    pub fn search_next(&mut self) -> (r: Option<usize>)
        requires
            old(self).wf(),
        ensures
            final(self).wf(),
            final(self).spec_search().spec_results() == old(self).spec_search().spec_results(),
            final(self).spec_search().spec_cursor() == cursor_after_next(
                old(self).spec_search().spec_cursor(),
                old(self).spec_search().spec_results().len(),
            ),
            r is Some <==> old(self).spec_search().spec_results().len() > 0,
            r matches Some(t) ==> exists|p: Seq<usize>|
                path_result(old(self).spec_tree().spec_nodes(), old(self).spec_tree().spec_root() as int, t as int, p)
                && final(self).spec_tree().spec_nodes() == revealed(old(self).spec_tree().spec_nodes(), p),
            r is None ==> final(self).spec_tree() == old(self).spec_tree(),
            r matches Some(t) ==> shown_if_reachable(old(self).spec_tree(), t, final(self).spec_rows()),
    {
        let r = self.search.select_next();
        match r {
            Some(t) => self.reveal_node(t),
            None => {},
        }
        r
    }

    /// Selects the previous result, reveals it, and returns it.
    pub fn search_prev(&mut self) -> (r: Option<usize>)
        requires
            old(self).wf(),
        ensures
            final(self).wf(),
            final(self).spec_search().spec_results() == old(self).spec_search().spec_results(),
            final(self).spec_search().spec_cursor() == cursor_after_prev(
                old(self).spec_search().spec_cursor(),
                old(self).spec_search().spec_results().len(),
            ),
            r is Some <==> old(self).spec_search().spec_results().len() > 0,
            r matches Some(t) ==> exists|p: Seq<usize>|
                path_result(old(self).spec_tree().spec_nodes(), old(self).spec_tree().spec_root() as int, t as int, p)
                && final(self).spec_tree().spec_nodes() == revealed(old(self).spec_tree().spec_nodes(), p),
            r is None ==> final(self).spec_tree() == old(self).spec_tree(),
            r matches Some(t) ==> shown_if_reachable(old(self).spec_tree(), t, final(self).spec_rows()),
    {
        let r = self.search.select_prev();
        match r {
            Some(t) => self.reveal_node(t),
            None => {},
        }
        r
    }

    /// The offset that centres node `target` in a viewport; `None` where no
    /// row shows it, or where the offset would not fit a `usize`.
    pub fn scroll_target(&self, target: usize, viewport_height: usize, row_height: usize) -> (r: Option<usize>)
        requires
            self.wf(),
        ensures
            match r {
                Some(off) => exists|p: int|
                    0 <= p < self.spec_rows().len() && self.spec_rows()[p].node_index == target
                    && (forall|q: int| 0 <= q < p ==> self.spec_rows()[q].node_index != target)
                    && off == centred_offset(p, viewport_height as int, row_height as int),
                None => (forall|p: int| 0 <= p < self.spec_rows().len() ==> self.spec_rows()[p].node_index != target)
                    || self.spec_rows().len() * row_height > usize::MAX,
            },
    {
        let fits = match self.rows.len().checked_mul(row_height) {
            Some(_) => true,
            None => false,
        };
        if !fits {
            return None;
        }
        scroll_offset_for(&self.rows, target, viewport_height, row_height)
    }
}

} // verus!
