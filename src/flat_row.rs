use vstd::prelude::*;

verus! {

/// What kind of text a row shows as its value; the renderer picks a colour
/// by it.
#[derive(Debug, Clone, Copy, PartialEq, Eq)]
pub enum ValueType {
    Null,
    Bool,
    Number,
    String,
    Bracket,
    Key,
}

/// The mathematical content of a row.
pub struct RowModel {
    pub node_index: usize,
    pub prefix: Seq<char>,
    pub key: Option<Seq<char>>,
    pub value_display: Seq<char>,
    pub value_type: ValueType,
    pub is_expandable: bool,
    pub is_expanded: bool,
    pub path: Seq<char>,
}

pub open spec fn opt_view(o: Option<String>) -> Option<Seq<char>> {
    match o {
        Some(s) => Some(s@),
        None => None,
    }
}

/// A visible node, with everything needed to draw it computed in advance.
#[derive(Debug, Clone)]
pub struct FlatRow {
    /// Index of the node in its tree.
    pub node_index: usize,
    /// The tree-line glyphs drawn before the node.
    pub prefix: String,
    /// The member name to show, if any.
    pub key: Option<String>,
    /// The value as shown.
    pub value_display: String,
    pub value_type: ValueType,
    /// Whether the node is a container.
    pub is_expandable: bool,
    pub is_expanded: bool,
    /// Position of the row in the flattened list.
    pub row_index: usize,
    /// Accessor path of the node, such as `users[2].email`.
    pub path: String,
}

impl View for FlatRow {
    type V = RowModel;

    /// Everything but the position, which the list itself gives.
    open spec fn view(&self) -> RowModel {
        RowModel {
            node_index: self.node_index,
            prefix: self.prefix@,
            key: opt_view(self.key),
            value_display: self.value_display@,
            value_type: self.value_type,
            is_expandable: self.is_expandable,
            is_expanded: self.is_expanded,
            path: self.path@,
        }
    }
}

impl FlatRow {
    pub fn new(
        node_index: usize,
        prefix: String,
        key: Option<String>,
        value_display: String,
        value_type: ValueType,
        is_expandable: bool,
        is_expanded: bool,
        row_index: usize,
        path: String,
    ) -> (r: Self)
        ensures
            r.node_index == node_index,
            r.prefix == prefix,
            r.key == key,
            r.value_display == value_display,
            r.value_type == value_type,
            r.is_expandable == is_expandable,
            r.is_expanded == is_expanded,
            r.row_index == row_index,
            r.path == path,
    {
        FlatRow {
            node_index,
            prefix,
            key,
            value_display,
            value_type,
            is_expandable,
            is_expanded,
            row_index,
            path,
        }
    }
}

} // verus!
