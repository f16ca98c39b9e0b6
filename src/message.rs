use vstd::prelude::*;

verus! {

/// Which submenu of the context menu is open.
#[derive(Debug, Clone, Copy, PartialEq, Eq, Structural)]
pub enum ContextSubmenu {
    /// No submenu is open.
    Closed,
    CopyValueAs,
    ExportValueAs,
}

} // verus!
