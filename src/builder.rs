use vstd::prelude::*;
use crate::node::{JsonNode, JsonValue, is_container};
use crate::tree::{JsonTree, nodes_wf};
use crate::value::{
    ParsedValue, depth_fits, items_size, lemma_items_take, lemma_members_take, members_size, value_size,
};
use crate::visibility::leaves_childless;

verus! {

/// Node `i` of `ns`, with the nodes below it, stands for `v` under the member
/// name `key` at depth `depth`, laid out in document pre-order: the subtree
/// fills the indices `[i, i + value_size(v))`, the node itself first, then
/// each child's subtree in turn, so the `k`-th child sits right after the
/// subtrees of the children before it.
pub open spec fn encodes(
    ns: Seq<JsonNode>,
    i: int,
    v: ParsedValue,
    key: Option<String>,
    depth: int,
) -> bool
    decreases v,
{
    &&& 0 <= i
    &&& i + value_size(v) <= ns.len()
    &&& ns[i].key == key
    &&& ns[i].depth == depth
    &&& match v {
        ParsedValue::Null => ns[i].value == JsonValue::Null && ns[i].children@.len() == 0,
        ParsedValue::Bool(b) => ns[i].value == JsonValue::Bool(b) && ns[i].children@.len() == 0,
        ParsedValue::Number(t) => ns[i].value == JsonValue::Number(t) && ns[i].children@.len() == 0,
        ParsedValue::String(s) => ns[i].value == JsonValue::String(s) && ns[i].children@.len() == 0,
        ParsedValue::Array(items) => {
            &&& ns[i].value == JsonValue::Array
            &&& ns[i].children@.len() == items.len()
            &&& forall|k: int|
                0 <= k < items.len() ==> {
                    &&& #[trigger] ns[i].children@[k] == i + 1 + items_size(items@.take(k))
                    &&& encodes(ns, ns[i].children@[k] as int, items[k], None, depth + 1)
                }
        },
        ParsedValue::Object(members) => {
            &&& ns[i].value == JsonValue::Object
            &&& ns[i].children@.len() == members.len()
            &&& forall|k: int|
                0 <= k < members.len() ==> {
                    &&& #[trigger] ns[i].children@[k] == i + 1 + members_size(members@.take(k))
                    &&& encodes(ns, ns[i].children@[k] as int, members[k].1, Some(members[k].0), depth + 1)
                }
        },
    }
}

/// What a node stands for depends only on the nodes of its own subtree.
pub proof fn lemma_encodes_frame(
    ns: Seq<JsonNode>,
    ns2: Seq<JsonNode>,
    i: int,
    v: ParsedValue,
    key: Option<String>,
    depth: int,
)
    requires
        encodes(ns, i, v, key, depth),
        i + value_size(v) <= ns2.len(),
        forall|j: int| i <= j < i + value_size(v) ==> ns2[j] == ns[j],
    ensures
        encodes(ns2, i, v, key, depth),
    decreases v,
{
    assert(ns2[i] == ns[i]);
    match v {
        ParsedValue::Array(items) => {
            assert forall|k: int| 0 <= k < items.len() implies {
                &&& #[trigger] ns2[i].children@[k] == i + 1 + items_size(items@.take(k))
                &&& encodes(ns2, ns2[i].children@[k] as int, items[k], None, depth + 1)
            } by {
                lemma_items_take(items@, k);
                assert(items@[k] == items[k]);
                assert(decreases_to!(v => items[k])) by {
                    broadcast use vstd::std_specs::vec::axiom_vec_index_decreases;
                    assert(decreases_to!(v => items));
                }
                lemma_encodes_frame(ns, ns2, ns[i].children@[k] as int, items[k], None, depth + 1);
            }
        },
        ParsedValue::Object(members) => {
            assert forall|k: int| 0 <= k < members.len() implies {
                &&& #[trigger] ns2[i].children@[k] == i + 1 + members_size(members@.take(k))
                &&& encodes(ns2, ns2[i].children@[k] as int, members[k].1, Some(members[k].0), depth + 1)
            } by {
                lemma_members_take(members@, k);
                assert(members@[k] == members[k]);
                assert(decreases_to!(v => members[k].1)) by {
                    broadcast use vstd::std_specs::vec::axiom_vec_index_decreases;
                    assert(decreases_to!(v => members));
                    assert(decreases_to!(members[k] => members[k].1));
                }
                lemma_encodes_frame(
                    ns,
                    ns2,
                    ns[i].children@[k] as int,
                    members[k].1,
                    Some(members[k].0),
                    depth + 1,
                );
            }
        },
        _ => {},
    }
}

/// Every node is collapsed.
pub open spec fn all_collapsed(ns: Seq<JsonNode>) -> bool {
    forall|i: int| 0 <= i < ns.len() ==> !(#[trigger] ns[i]).expanded
}

/// Every child index is above its parent's.
pub open spec fn children_after(ns: Seq<JsonNode>) -> bool {
    forall|i: int, j: int|
        0 <= i < ns.len() && 0 <= j < ns[i].children@.len() ==> #[trigger] ns[i].children@[j] > i
}

/// The items of every array carry no key.
pub open spec fn array_items_unkeyed(ns: Seq<JsonNode>) -> bool {
    forall|i: int, j: int|
        0 <= i < ns.len() && ns[i].value is Array && 0 <= j < ns[i].children@.len()
            ==> ns[#[trigger] ns[i].children@[j] as int].key is None
}

/// No node is listed twice as a child: every node has at most one parent,
/// and appears once in its parent's list.
pub open spec fn single_parent(ns: Seq<JsonNode>) -> bool {
    forall|i1: int, j1: int, i2: int, j2: int|
        0 <= i1 < ns.len() && 0 <= i2 < ns.len() && 0 <= j1 < ns[i1].children@.len() && 0 <= j2
            < ns[i2].children@.len() && #[trigger] ns[i1].children@[j1] == #[trigger] ns[i2].children@[j2]
            ==> i1 == i2 && j1 == j2
}

/// No node but `r` lists any of `kids` as a child.
pub open spec fn others_avoid(ns: Seq<JsonNode>, r: int, kids: Seq<usize>) -> bool {
    forall|i: int, j: int, m: int|
        0 <= i < ns.len() && i != r && 0 <= j < ns[i].children@.len() && 0 <= m < kids.len()
            ==> #[trigger] ns[i].children@[j] != #[trigger] kids[m]
}

/// The invariants the builder keeps on the whole arena.
pub open spec fn built_shape(ns: Seq<JsonNode>) -> bool {
    &&& all_collapsed(ns)
    &&& leaves_childless(ns)
    &&& children_after(ns)
    &&& array_items_unkeyed(ns)
    &&& single_parent(ns)
}

/// Builds the tree of a parsed document. Nodes are numbered in document
/// pre-order: the root is node 0, every node comes before its children, and
/// the subtrees of earlier siblings come first. Every container starts
/// collapsed.
pub fn build_tree(json: &ParsedValue) -> (tree: JsonTree)
    requires
        depth_fits(*json, 0),
    ensures
        tree.wf(),
        tree.spec_root() == 0,
        tree.spec_nodes().len() == value_size(*json),
        built_shape(tree.spec_nodes()),
        encodes(tree.spec_nodes(), 0, *json, None, 0),
{
    let mut tree = JsonTree::new();
    let root_index = build_node(&mut tree, None, json, 0);
    tree.set_root(root_index);
    tree
}

fn build_node(tree: &mut JsonTree, key: Option<String>, value: &ParsedValue, depth: usize) -> (r: usize)
    requires
        old(tree).wf(),
        built_shape(old(tree).spec_nodes()),
        depth_fits(*value, depth as int),
    ensures
        final(tree).wf(),
        built_shape(final(tree).spec_nodes()),
        final(tree).spec_root() == old(tree).spec_root(),
        r == old(tree).spec_nodes().len(),
        final(tree).spec_nodes().len() == old(tree).spec_nodes().len() + value_size(*value),
        final(tree).spec_nodes().subrange(0, old(tree).spec_nodes().len() as int)
            == old(tree).spec_nodes(),
        encodes(final(tree).spec_nodes(), r as int, *value, key, depth as int),
    decreases *value,
{
    let ghost start = tree.spec_nodes();
    let node_value = match value {
        ParsedValue::Null => JsonValue::Null,
        ParsedValue::Bool(b) => JsonValue::Bool(*b),
        ParsedValue::Number(t) => JsonValue::Number(t.clone()),
        ParsedValue::String(s) => JsonValue::String(s.clone()),
        ParsedValue::Array(_) => JsonValue::Array,
        ParsedValue::Object(_) => JsonValue::Object,
    };
    let ghost this_key = key;
    let r = tree.add_node(JsonNode { key, value: node_value, depth, children: Vec::new(), expanded: false });
    let ghost placed = tree.spec_nodes();
    proof {
        assert(placed.subrange(0, start.len() as int) =~= start);
        assert forall|i: int| 0 <= i < placed.len() implies !(#[trigger] placed[i]).expanded by {
            if i < start.len() {
                assert(placed[i] == start[i]);
            }
        }
        assert forall|i: int| 0 <= i < placed.len() && (#[trigger] placed[i]).children@.len() > 0 implies is_container(
            placed[i].value,
        ) by {
            if i < start.len() {
                assert(placed[i] == start[i]);
            }
        }
        assert forall|i: int, j: int| 0 <= i < placed.len() && 0 <= j < placed[i].children@.len() implies #[trigger] placed[i].children@[j] > i by {
            assert(placed[i] == start[i]);
            assert(start[i].children@[j] > i);
        }
        assert forall|i: int, j: int|
            0 <= i < placed.len() && placed[i].value is Array && 0 <= j < placed[i].children@.len()
            implies placed[#[trigger] placed[i].children@[j] as int].key is None by {
            assert(placed[i] == start[i]);
            let c = start[i].children@[j] as int;
            assert(start[c].key is None);
            assert(placed[c] == start[c]);
        }
        assert forall|i1: int, j1: int, i2: int, j2: int|
            0 <= i1 < placed.len() && 0 <= i2 < placed.len() && 0 <= j1 < placed[i1].children@.len() && 0 <= j2
                < placed[i2].children@.len() && #[trigger] placed[i1].children@[j1] == #[trigger] placed[i2].children@[j2]
            implies i1 == i2 && j1 == j2 by {
            assert(placed[i1] == start[i1]);
            assert(placed[i2] == start[i2]);
        }
    }
    match value {
        ParsedValue::Array(items) => {
            let mut children: Vec<usize> = Vec::new();
            let mut k: usize = 0;
            assert(items@.take(0) =~= Seq::<ParsedValue>::empty());
            while k < items.len()
                invariant
                    k <= items.len(),
                    tree.wf(),
                    built_shape(tree.spec_nodes()),
                    tree.spec_root() == old(tree).spec_root(),
                    start == old(tree).spec_nodes(),
                    r == start.len(),
                    placed.len() == r + 1,
                    placed[r as int].key == this_key,
                    placed[r as int].value == JsonValue::Array,
                    placed[r as int].depth == depth,
                    placed[r as int].children@.len() == 0,
                    !placed[r as int].expanded,
                    placed.subrange(0, start.len() as int) == start,
                    tree.spec_nodes().len() == r + 1 + items_size(items@.take(k as int)),
                    tree.spec_nodes().subrange(0, r + 1) == placed,
                    others_avoid(tree.spec_nodes(), r as int, children@),
                    forall|m: int| 0 <= m < k ==> #[trigger] children@[m] < tree.spec_nodes().len(),
                    children@.len() == k,
                    depth_fits(*value, depth as int),
                    *value == ParsedValue::Array(*items),
                    forall|m: int| 0 <= m < k ==> {
                        &&& #[trigger] children@[m] == r + 1 + items_size(items@.take(m))
                        &&& encodes(tree.spec_nodes(), children@[m] as int, items[m], None, depth + 1)
                    },
                decreases items.len() - k,
            {
                proof {
                    let ghost v = *value;
                    let ghost its = v->Array_0;
                    assert(its == *items);
                    assert(depth_fits(its[k as int], depth + 1));
                    assert(decreases_to!(v => its));
                    assert(decreases_to!(its => its[k as int])) by {
                        broadcast use vstd::std_specs::vec::axiom_vec_index_decreases;
                    }
                    lemma_items_take(items@, k as int);
                }
                let ghost before = tree.spec_nodes();
                let c = build_node(tree, None, &items[k], depth + 1);
                proof {
                    let now = tree.spec_nodes();
                    assert forall|m: int| 0 <= m < k implies {
                        &&& #[trigger] children@[m] == r + 1 + items_size(items@.take(m))
                        &&& encodes(now, children@[m] as int, items[m], None, depth + 1)
                    } by {
                        lemma_items_take(items@, m);
                        lemma_items_prefix_mono(items@, m + 1, k as int);
                        assert forall|j: int| children@[m] <= j < children@[m] + value_size(items[m]) implies now[j] == before[j] by {
                            assert(now.subrange(0, before.len() as int)[j] == before[j]);
                        }
                        lemma_encodes_frame(before, now, children@[m] as int, items[m], None, depth + 1);
                    }
                    assert(now.subrange(0, r + 1) =~= now.subrange(0, before.len() as int).subrange(0, r + 1));
                    assert(items@.take(k + 1).drop_last() =~= items@.take(k as int));
                    keep_avoiding(before, now, r as int, children@, c as int);
                }
                children.push(c);
                k = k + 1;
            }
            assert(items@.take(k as int) =~= items@);
            let ghost before_set = tree.spec_nodes();
            proof {
                assert forall|j: int| 0 <= j < children@.len() implies {
                    let c = #[trigger] children@[j] as int;
                    &&& 0 <= c < before_set.len()
                    &&& before_set[c].depth == before_set[r as int].depth + 1
                } by {
                    lemma_items_take(items@, j);
                    assert(before_set[r as int] == before_set.subrange(0, r + 1)[r as int]);
                }
            }
            proof {
                assert forall|a: int, b: int| 0 <= a < b < children@.len() implies children@[a] < children@[b] by {
                    lemma_items_take(items@, a);
                    lemma_items_prefix_mono(items@, a + 1, b);
                }
            }
            tree.set_children(r, children);
            proof {
                let ns = tree.spec_nodes();
                finish_container(before_set, ns, r as int);
                assert forall|m: int| 0 <= m < items.len() implies {
                    &&& #[trigger] ns[r as int].children@[m] == r + 1 + items_size(items@.take(m))
                    &&& encodes(ns, ns[r as int].children@[m] as int, items[m], None, depth + 1)
                } by {
                    assert(ns[r as int].children@[m] == children@[m]);
                    lemma_items_take(items@, m);
                    lemma_encodes_frame(before_set, ns, children@[m] as int, items[m], None, depth + 1);
                }
                assert forall|i: int, j: int|
                    0 <= i < ns.len() && ns[i].value is Array && 0 <= j < ns[i].children@.len()
                    implies ns[#[trigger] ns[i].children@[j] as int].key is None by {
                    if i == r {
                        let c = ns[i].children@[j] as int;
                        assert(ns[i].children@[j] == children@[j]);
                        assert(encodes(ns, c, items[j], None, depth + 1));
                    } else {
                        assert(ns[i] == before_set[i]);
                        let c = before_set[i].children@[j] as int;
                        assert(before_set[c].key is None);
                        assert(ns[c].key == before_set[c].key);
                    }
                }
                assert(ns.subrange(0, start.len() as int) =~= start);
            }
        },
        ParsedValue::Object(members) => {
            let mut children: Vec<usize> = Vec::new();
            let mut k: usize = 0;
            assert(members@.take(0) =~= Seq::<(String, ParsedValue)>::empty());
            while k < members.len()
                invariant
                    k <= members.len(),
                    tree.wf(),
                    built_shape(tree.spec_nodes()),
                    tree.spec_root() == old(tree).spec_root(),
                    start == old(tree).spec_nodes(),
                    r == start.len(),
                    placed.len() == r + 1,
                    placed[r as int].key == this_key,
                    placed[r as int].value == JsonValue::Object,
                    placed[r as int].depth == depth,
                    placed[r as int].children@.len() == 0,
                    !placed[r as int].expanded,
                    placed.subrange(0, start.len() as int) == start,
                    tree.spec_nodes().len() == r + 1 + members_size(members@.take(k as int)),
                    tree.spec_nodes().subrange(0, r + 1) == placed,
                    others_avoid(tree.spec_nodes(), r as int, children@),
                    forall|m: int| 0 <= m < k ==> #[trigger] children@[m] < tree.spec_nodes().len(),
                    children@.len() == k,
                    depth_fits(*value, depth as int),
                    *value == ParsedValue::Object(*members),
                    forall|m: int| 0 <= m < k ==> {
                        &&& #[trigger] children@[m] == r + 1 + members_size(members@.take(m))
                        &&& encodes(tree.spec_nodes(), children@[m] as int, members[m].1, Some(members[m].0), depth + 1)
                    },
                decreases members.len() - k,
            {
                proof {
                    let ghost v = *value;
                    let ghost ms = v->Object_0;
                    assert(ms == *members);
                    assert(depth_fits(ms[k as int].1, depth + 1));
                    assert(decreases_to!(v => ms));
                    assert(decreases_to!(ms => ms[k as int])) by {
                        broadcast use vstd::std_specs::vec::axiom_vec_index_decreases;
                    }
                    assert(decreases_to!(ms[k as int] => ms[k as int].1));
                    lemma_members_take(members@, k as int);
                }
                let ghost before = tree.spec_nodes();
                let member_key = members[k].0.clone();
                let c = build_node(tree, Some(member_key), &members[k].1, depth + 1);
                proof {
                    let now = tree.spec_nodes();
                    assert forall|m: int| 0 <= m < k implies {
                        &&& #[trigger] children@[m] == r + 1 + members_size(members@.take(m))
                        &&& encodes(now, children@[m] as int, members[m].1, Some(members[m].0), depth + 1)
                    } by {
                        lemma_members_take(members@, m);
                        lemma_members_prefix_mono(members@, m + 1, k as int);
                        assert forall|j: int| children@[m] <= j < children@[m] + value_size(members[m].1) implies now[j] == before[j] by {
                            assert(now.subrange(0, before.len() as int)[j] == before[j]);
                        }
                        lemma_encodes_frame(before, now, children@[m] as int, members[m].1, Some(members[m].0), depth + 1);
                    }
                    assert(now.subrange(0, r + 1) =~= now.subrange(0, before.len() as int).subrange(0, r + 1));
                    assert(members@.take(k + 1).drop_last() =~= members@.take(k as int));
                    keep_avoiding(before, now, r as int, children@, c as int);
                }
                children.push(c);
                k = k + 1;
            }
            assert(members@.take(k as int) =~= members@);
            let ghost before_set = tree.spec_nodes();
            proof {
                assert forall|j: int| 0 <= j < children@.len() implies {
                    let c = #[trigger] children@[j] as int;
                    &&& 0 <= c < before_set.len()
                    &&& before_set[c].depth == before_set[r as int].depth + 1
                } by {
                    lemma_members_take(members@, j);
                    assert(before_set[r as int] == before_set.subrange(0, r + 1)[r as int]);
                }
            }
            proof {
                assert forall|a: int, b: int| 0 <= a < b < children@.len() implies children@[a] < children@[b] by {
                    lemma_members_take(members@, a);
                    lemma_members_prefix_mono(members@, a + 1, b);
                }
            }
            tree.set_children(r, children);
            proof {
                let ns = tree.spec_nodes();
                finish_container(before_set, ns, r as int);
                assert forall|m: int| 0 <= m < members.len() implies {
                    &&& #[trigger] ns[r as int].children@[m] == r + 1 + members_size(members@.take(m))
                    &&& encodes(ns, ns[r as int].children@[m] as int, members[m].1, Some(members[m].0), depth + 1)
                } by {
                    assert(ns[r as int].children@[m] == children@[m]);
                    lemma_members_take(members@, m);
                    lemma_encodes_frame(before_set, ns, children@[m] as int, members[m].1, Some(members[m].0), depth + 1);
                }
                assert forall|i: int, j: int|
                    0 <= i < ns.len() && ns[i].value is Array && 0 <= j < ns[i].children@.len()
                    implies ns[#[trigger] ns[i].children@[j] as int].key is None by {
                    assert(i != r);
                    assert(ns[i] == before_set[i]);
                    let c = before_set[i].children@[j] as int;
                    assert(before_set[c].key is None);
                    assert(ns[c].key == before_set[c].key);
                }
                assert(ns.subrange(0, start.len() as int) =~= start);
            }
        },
        _ => {
            proof {
                assert(tree.spec_nodes()[r as int] == placed[r as int]);
            }
        },
    }
    r
}

/// After a container's child list is set, the nodes other than the
/// container are unchanged and the builder's invariants still hold where
/// the new children come after it.
proof fn finish_container(before: Seq<JsonNode>, after: Seq<JsonNode>, r: int)
    requires
        0 <= r < before.len(),
        after.len() == before.len(),
        forall|i: int| 0 <= i < before.len() && i != r ==> after[i] == before[i],
        after[r].key == before[r].key,
        after[r].value == before[r].value,
        after[r].depth == before[r].depth,
        after[r].expanded == before[r].expanded,
        is_container(after[r].value),
        built_shape(before),
        forall|j: int| 0 <= j < after[r].children@.len() ==> #[trigger] after[r].children@[j] > r,
        before[r].children@.len() == 0,
        others_avoid(before, r, after[r].children@),
        forall|a: int, b: int| 0 <= a < b < after[r].children@.len() ==> after[r].children@[a] < after[r].children@[b],
    ensures
        all_collapsed(after),
        leaves_childless(after),
        children_after(after),
        single_parent(after),
{
    let kids = after[r].children@;
    assert forall|i1: int, j1: int, i2: int, j2: int|
        0 <= i1 < after.len() && 0 <= i2 < after.len() && 0 <= j1 < after[i1].children@.len() && 0 <= j2
            < after[i2].children@.len() && #[trigger] after[i1].children@[j1] == #[trigger] after[i2].children@[j2]
        implies i1 == i2 && j1 == j2 by {
        if i1 == r && i2 == r {
            if j1 < j2 {
                assert(kids[j1] < kids[j2]);
            } else if j2 < j1 {
                assert(kids[j2] < kids[j1]);
            }
        } else if i1 == r {
            assert(after[i2] == before[i2]);
            assert(before[i2].children@[j2] != kids[j1]);
        } else if i2 == r {
            assert(after[i1] == before[i1]);
            assert(before[i1].children@[j1] != kids[j2]);
        } else {
            assert(after[i1] == before[i1]);
            assert(after[i2] == before[i2]);
        }
    }
    assert forall|i: int| 0 <= i < after.len() implies !(#[trigger] after[i]).expanded by {
        assert(!before[i].expanded);
    }
    assert forall|i: int| 0 <= i < after.len() && (#[trigger] after[i]).children@.len() > 0 implies is_container(
        after[i].value,
    ) by {
        if i != r {
            assert(after[i] == before[i]);
        }
    }
    assert forall|i: int, j: int| 0 <= i < after.len() && 0 <= j < after[i].children@.len() implies #[trigger] after[i].children@[j] > i by {
        if i != r {
            assert(after[i] == before[i]);
            assert(before[i].children@[j] > i);
        }
    }
}

/// Building the next child's subtree, which starts at `c` and only
/// appends, keeps every node but `r` off the growing child list.
proof fn keep_avoiding(before: Seq<JsonNode>, now: Seq<JsonNode>, r: int, kids: Seq<usize>, c: int)
    requires
        nodes_wf(before),
        children_after(now),
        0 <= r < before.len(),
        before[r].children@.len() == 0,
        c == before.len(),
        c <= usize::MAX,
        before.len() < now.len(),
        now.subrange(0, before.len() as int) == before,
        others_avoid(before, r, kids),
        forall|m: int| 0 <= m < kids.len() ==> #[trigger] kids[m] < before.len(),
    ensures
        others_avoid(now, r, kids.push(c as usize)),
        forall|m: int| 0 <= m < kids.len() + 1 ==> #[trigger] kids.push(c as usize)[m] < now.len(),
{
    let k2 = kids.push(c as usize);
    assert(k2[kids.len() as int] == c);
    assert forall|m: int| 0 <= m < kids.len() + 1 implies #[trigger] k2[m] < now.len() by {
        if m < kids.len() {
            assert(k2[m] == kids[m]);
        }
    }
    assert forall|i: int, j: int, m: int|
        0 <= i < now.len() && i != r && 0 <= j < now[i].children@.len() && 0 <= m < k2.len()
        implies #[trigger] now[i].children@[j] != #[trigger] k2[m] by {
        if i < before.len() {
            assert(now[i] == now.subrange(0, before.len() as int)[i]);
            assert(now[i] == before[i]);
            assert(before[i].children@[j] < before.len());
            if m < kids.len() {
                assert(k2[m] == kids[m]);
            }
        } else {
            assert(now[i].children@[j] > i);
            if m < kids.len() {
                assert(k2[m] == kids[m]);
            }
        }
    }
}

proof fn lemma_items_prefix_mono(s: Seq<ParsedValue>, a: int, b: int)
    requires
        0 <= a <= b <= s.len(),
    ensures
        items_size(s.take(a)) <= items_size(s.take(b)),
    decreases b - a,
{
    if a < b {
        lemma_items_prefix_mono(s, a, b - 1);
        lemma_items_take(s, b - 1);
    }
}

proof fn lemma_members_prefix_mono(s: Seq<(String, ParsedValue)>, a: int, b: int)
    requires
        0 <= a <= b <= s.len(),
    ensures
        members_size(s.take(a)) <= members_size(s.take(b)),
    decreases b - a,
{
    if a < b {
        lemma_members_prefix_mono(s, a, b - 1);
        lemma_members_take(s, b - 1);
    }
}

} // verus!
