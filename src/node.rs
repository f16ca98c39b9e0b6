use vstd::prelude::*;

verus! {

/// The payload of one node. Containers carry only a marker: their members
/// live in the node's list of child indices.
#[derive(Debug, Clone, PartialEq)]
pub enum JsonValue {
    Null,
    Bool(bool),
    /// A number, held as its canonical text.
    Number(String),
    String(String),
    Array,
    Object,
}

/// One node of the tree arena.
#[derive(Debug, Clone)]
pub struct JsonNode {
    /// The member name when the node sits in an object; `None` for array
    /// items and for the root.
    pub key: Option<String>,
    pub value: JsonValue,
    /// Distance from the root (the root has depth 0).
    pub depth: usize,
    /// Indices of the child nodes, in document order.
    pub children: Vec<usize>,
    /// Whether the children are shown; meaningful for containers only.
    pub expanded: bool,
}

pub open spec fn is_container(v: JsonValue) -> bool {
    v is Array || v is Object
}

impl JsonNode {
    /// Whether the node is an array or an object.
    pub fn is_expandable(&self) -> (r: bool)
        ensures
            r == is_container(self.value),
    {
        match self.value {
            JsonValue::Array | JsonValue::Object => true,
            _ => false,
        }
    }
}

} // verus!
