use vstd::prelude::*;
use crate::node::{JsonNode, is_container};

verus! {

/// Every child index names a node of the same arena whose depth is one more
/// than its parent's.
pub open spec fn nodes_wf(ns: Seq<JsonNode>) -> bool {
    forall|i: int, j: int|
        #![trigger ns[i].children@[j]]
        0 <= i < ns.len() && 0 <= j < ns[i].children@.len() ==> {
            let c = ns[i].children@[j] as int;
            &&& 0 <= c < ns.len()
            &&& ns[c].depth == ns[i].depth + 1
        }
}

/// Whether `c` is listed among the children of node `p`.
pub open spec fn is_child(ns: Seq<JsonNode>, p: int, c: int) -> bool {
    0 <= p < ns.len() && ns[p].children@.contains(c as usize)
}

/// The node at `i` with its `expanded` flag replaced.
pub open spec fn with_expanded(ns: Seq<JsonNode>, i: int, e: bool) -> Seq<JsonNode> {
    ns.update(i, JsonNode { expanded: e, ..ns[i] })
}

/// The nodes after a toggle of node `i`: a container's flag flips, anything
/// else stays.
pub open spec fn toggled(ns: Seq<JsonNode>, i: int) -> Seq<JsonNode> {
    if 0 <= i < ns.len() && is_container(ns[i].value) {
        with_expanded(ns, i, !ns[i].expanded)
    } else {
        ns
    }
}

/// A complete JSON document stored as a flat, append-only arena of nodes.
#[derive(Debug)]
pub struct JsonTree {
    nodes: Vec<JsonNode>,
    root_index: usize,
}

impl JsonTree {
    /// The nodes, by index.
    pub closed spec fn spec_nodes(&self) -> Seq<JsonNode> {
        self.nodes@
    }

    /// The index of the root node.
    pub closed spec fn spec_root(&self) -> usize {
        self.root_index
    }

    pub open spec fn wf(&self) -> bool {
        nodes_wf(self.spec_nodes())
    }

    /// The arena never holds more nodes than a `usize` counts.
    pub proof fn lemma_len_fits(&self)
        ensures
            self.spec_nodes().len() <= usize::MAX,
    {
        assert(self.nodes@.len() == self.nodes.len());
    }

    /// An empty tree.
    pub fn new() -> (r: Self)
        ensures
            r.spec_nodes() == Seq::<JsonNode>::empty(),
            r.spec_root() == 0,
            r.wf(),
    {
        JsonTree { nodes: Vec::new(), root_index: 0 }
    }

    /// Appends a node and returns its index.
    pub fn add_node(&mut self, node: JsonNode) -> (r: usize)
        ensures
            r == old(self).spec_nodes().len(),
            final(self).spec_nodes() == old(self).spec_nodes().push(node),
            final(self).spec_root() == old(self).spec_root(),
            old(self).wf() && (forall|j: int|
                #![trigger node.children@[j]]
                0 <= j < node.children@.len() ==> {
                    let c = node.children@[j] as int;
                    &&& 0 <= c < old(self).spec_nodes().len()
                    &&& old(self).spec_nodes()[c].depth == node.depth + 1
                }) ==> final(self).wf(),
    {
        let index = self.nodes.len();
        self.nodes.push(node);
        proof {
            let ns = self.nodes@;
            let o = old(self).nodes@;
            if nodes_wf(o) && (forall|j: int|
                #![trigger node.children@[j]]
                0 <= j < node.children@.len() ==> {
                    let c = node.children@[j] as int;
                    &&& 0 <= c < o.len()
                    &&& o[c].depth == node.depth + 1
                }) {
                assert forall|i: int, j: int|
                    #![trigger ns[i].children@[j]]
                    0 <= i < ns.len() && 0 <= j < ns[i].children@.len() implies {
                        let c = ns[i].children@[j] as int;
                        &&& 0 <= c < ns.len()
                        &&& ns[c].depth == ns[i].depth + 1
                    } by {
                    if i < o.len() {
                        assert(o[i].children@[j] == ns[i].children@[j]);
                    } else {
                        assert(ns[i] == node);
                    }
                }
            }
        }
        index
    }

    /// Replaces the child list of node `index`.
    pub fn set_children(&mut self, index: usize, children: Vec<usize>)
        requires
            index < old(self).spec_nodes().len(),
        ensures
            final(self).spec_root() == old(self).spec_root(),
            final(self).spec_nodes() == old(self).spec_nodes().update(
                index as int,
                JsonNode { children, ..old(self).spec_nodes()[index as int] },
            ),
            old(self).wf() && (forall|j: int|
                #![trigger children@[j]]
                0 <= j < children@.len() ==> {
                    let c = children@[j] as int;
                    &&& 0 <= c < old(self).spec_nodes().len()
                    &&& old(self).spec_nodes()[c].depth == old(self).spec_nodes()[index as int].depth + 1
                }) ==> final(self).wf(),
    {
        let ghost o = self.nodes@;
        let ghost kids = children;
        self.nodes[index].children = children;
        proof {
            let ns = self.nodes@;
            assert(ns =~= o.update(index as int, JsonNode { children: kids, ..o[index as int] }));
            if nodes_wf(o) && (forall|j: int|
                #![trigger kids@[j]]
                0 <= j < kids@.len() ==> {
                    let c = kids@[j] as int;
                    &&& 0 <= c < o.len()
                    &&& o[c].depth == o[index as int].depth + 1
                }) {
                assert forall|i: int, j: int|
                    #![trigger ns[i].children@[j]]
                    0 <= i < ns.len() && 0 <= j < ns[i].children@.len() implies {
                        let c = ns[i].children@[j] as int;
                        &&& 0 <= c < ns.len()
                        &&& ns[c].depth == ns[i].depth + 1
                    } by {
                    if i == index {
                        assert(ns[i].children@[j] == kids@[j]);
                    } else {
                        assert(o[i].children@[j] == ns[i].children@[j]);
                    }
                }
            }
        }
    }

    /// Makes `index` the root.
    pub fn set_root(&mut self, index: usize)
        ensures
            final(self).spec_nodes() == old(self).spec_nodes(),
            final(self).spec_root() == index,
    {
        self.root_index = index;
    }

    /// The node at `index`, if there is one.
    pub fn get_node(&self, index: usize) -> (r: Option<&JsonNode>)
        ensures
            match r {
                Some(n) => index < self.spec_nodes().len() && *n == self.spec_nodes()[index as int],
                None => index >= self.spec_nodes().len(),
            },
    {
        if index < self.nodes.len() {
            Some(&self.nodes[index])
        } else {
            None
        }
    }

    /// The root node, if the root index names one.
    pub fn root(&self) -> (r: Option<&JsonNode>)
        ensures
            match r {
                Some(n) => self.spec_root() < self.spec_nodes().len()
                    && *n == self.spec_nodes()[self.spec_root() as int],
                None => self.spec_root() >= self.spec_nodes().len(),
            },
    {
        self.get_node(self.root_index)
    }

    /// The number of nodes.
    pub fn node_count(&self) -> (r: usize)
        ensures
            r == self.spec_nodes().len(),
    {
        self.nodes.len()
    }

    /// The node at `index`, for changing in place.
    pub fn get_node_mut(&mut self, index: usize) -> (r: Option<&mut JsonNode>)
        ensures
            final(self).spec_root() == old(self).spec_root(),
            match r {
                Some(n) => index < old(self).spec_nodes().len()
                    && *n == old(self).spec_nodes()[index as int]
                    && final(self).spec_nodes() == old(self).spec_nodes().update(index as int, *final(n)),
                None => index >= old(self).spec_nodes().len() && final(self).spec_nodes() == old(self).spec_nodes(),
            },
    {
        if index < self.nodes.len() {
            Some(&mut self.nodes[index])
        } else {
            None
        }
    }

    /// The index of the root node.
    pub fn root_index(&self) -> (r: usize)
        ensures
            r == self.spec_root(),
    {
        self.root_index
    }

    /// Flips the `expanded` flag of a container; does nothing for a scalar
    /// or an index out of range.
    pub fn toggle_expanded(&mut self, index: usize)
        ensures
            final(self).spec_root() == old(self).spec_root(),
            final(self).spec_nodes() == toggled(old(self).spec_nodes(), index as int),
            old(self).wf() ==> final(self).wf(),
    {
        if index < self.nodes.len() {
            let flip = self.nodes[index].is_expandable();
            if flip {
                let e = self.nodes[index].expanded;
                self.set_flag(index, !e);
            }
        }
    }

    /// Sets the `expanded` flag of a container; does nothing for a scalar or
    /// an index out of range.
    pub fn set_expanded(&mut self, index: usize, expanded: bool)
        ensures
            final(self).spec_root() == old(self).spec_root(),
            final(self).spec_nodes() == if index < old(self).spec_nodes().len()
                && is_container(old(self).spec_nodes()[index as int].value) {
                with_expanded(old(self).spec_nodes(), index as int, expanded)
            } else {
                old(self).spec_nodes()
            },
            old(self).wf() ==> final(self).wf(),
    {
        if index < self.nodes.len() {
            let flip = self.nodes[index].is_expandable();
            if flip {
                self.set_flag(index, expanded);
            }
        }
    }

    fn set_flag(&mut self, index: usize, expanded: bool)
        requires
            index < old(self).spec_nodes().len(),
        ensures
            final(self).spec_root() == old(self).spec_root(),
            final(self).spec_nodes() == with_expanded(old(self).spec_nodes(), index as int, expanded),
            old(self).wf() ==> final(self).wf(),
    {
        self.nodes[index].expanded = expanded;
        assert(self.nodes@ =~= with_expanded(old(self).nodes@, index as int, expanded));
        proof {
            let ns = self.nodes@;
            let o = old(self).nodes@;
            if nodes_wf(o) {
                assert forall|i: int, j: int|
                    #![trigger ns[i].children@[j]]
                    0 <= i < ns.len() && 0 <= j < ns[i].children@.len() implies {
                        let c = ns[i].children@[j] as int;
                        &&& 0 <= c < ns.len()
                        &&& ns[c].depth == ns[i].depth + 1
                    } by {
                    assert(o[i].children@[j] == ns[i].children@[j]);
                }
            }
        }
    }
}

/// Toggling the same node twice restores every node as it was.
pub proof fn lemma_toggle_twice(ns: Seq<JsonNode>, i: int)
    ensures
        toggled(toggled(ns, i), i) == ns,
{
    if 0 <= i < ns.len() && is_container(ns[i].value) {
        assert(toggled(toggled(ns, i), i) =~= ns);
    }
}

} // verus!
