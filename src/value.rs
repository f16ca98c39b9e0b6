use vstd::prelude::*;

verus! {

/// A parsed JSON document, as a JSON parser hands it over. Numbers carry
/// their canonical text.
#[derive(Debug)]
pub enum ParsedValue {
    Null,
    Bool(bool),
    Number(String),
    String(String),
    Array(Vec<ParsedValue>),
    /// Members in document order.
    Object(Vec<(String, ParsedValue)>),
}

/// The value nests no deeper than a node depth of `usize` can count, when
/// it sits at depth `d`.
pub open spec fn depth_fits(v: ParsedValue, d: int) -> bool
    decreases v,
{
    &&& 0 <= d <= usize::MAX
    &&& match v {
        ParsedValue::Array(items) => forall|k: int|
            0 <= k < items.len() ==> depth_fits(#[trigger] items[k], d + 1),
        ParsedValue::Object(members) => forall|k: int|
            0 <= k < members.len() ==> depth_fits(#[trigger] members[k].1, d + 1),
        _ => true,
    }
}

/// The number of values in a document, itself included.
pub open spec fn value_size(v: ParsedValue) -> nat
    decreases v,
{
    match v {
        ParsedValue::Array(items) => {
            proof {
                broadcast use vstd::std_specs::vec::axiom_vec_decreases_to_view;
                assert(decreases_to!(items => items@));
            }
            1 + items_size(items@)
        },
        ParsedValue::Object(members) => {
            proof {
                broadcast use vstd::std_specs::vec::axiom_vec_decreases_to_view;
                assert(decreases_to!(members => members@));
            }
            1 + members_size(members@)
        },
        _ => 1,
    }
}

/// The number of values in a list of documents.
pub open spec fn items_size(s: Seq<ParsedValue>) -> nat
    decreases s,
{
    if s.len() == 0 {
        0
    } else {
        items_size(s.drop_last()) + value_size(s.last())
    }
}

/// The number of values in the members of an object.
pub open spec fn members_size(s: Seq<(String, ParsedValue)>) -> nat
    decreases s,
{
    if s.len() == 0 {
        0
    } else {
        proof {
            assert(decreases_to!(s => s.last()));
        }
        members_size(s.drop_last()) + value_size(s.last().1)
    }
}

/// Adding one more item to a prefix adds that item's size; a prefix is
/// never larger than the whole list.
pub proof fn lemma_items_take(s: Seq<ParsedValue>, k: int)
    requires
        0 <= k < s.len(),
    ensures
        items_size(s.take(k + 1)) == items_size(s.take(k)) + value_size(s[k]),
        items_size(s.take(k + 1)) <= items_size(s),
{
    assert(s.take(k + 1).drop_last() =~= s.take(k));
    lemma_items_prefix_le(s, k + 1);
}

proof fn lemma_items_prefix_le(s: Seq<ParsedValue>, k: int)
    requires
        0 <= k <= s.len(),
    ensures
        items_size(s.take(k)) <= items_size(s),
    decreases s.len(),
{
    if k == s.len() {
        assert(s.take(k) =~= s);
    } else {
        lemma_items_prefix_le(s.drop_last(), k);
        assert(s.drop_last().take(k) =~= s.take(k));
    }
}

/// As `lemma_items_take`, for the members of an object.
pub proof fn lemma_members_take(s: Seq<(String, ParsedValue)>, k: int)
    requires
        0 <= k < s.len(),
    ensures
        members_size(s.take(k + 1)) == members_size(s.take(k)) + value_size(s[k].1),
        members_size(s.take(k + 1)) <= members_size(s),
{
    assert(s.take(k + 1).drop_last() =~= s.take(k));
    lemma_members_prefix_le(s, k + 1);
}

proof fn lemma_members_prefix_le(s: Seq<(String, ParsedValue)>, k: int)
    requires
        0 <= k <= s.len(),
    ensures
        members_size(s.take(k)) <= members_size(s),
    decreases s.len(),
{
    if k == s.len() {
        assert(s.take(k) =~= s);
    } else {
        lemma_members_prefix_le(s.drop_last(), k);
        assert(s.drop_last().take(k) =~= s.take(k));
    }
}

} // verus!
