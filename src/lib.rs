//! A viewer core for large JSON documents: an index-based tree store, the
//! flattening of its visible part into display rows, a virtual scrolling
//! window, search, navigation and JSON export.

pub mod node;
pub mod tree;
pub mod value;
pub mod builder;
pub mod text;
pub mod flat_row;
pub mod flatten;
pub mod viewport;
pub mod search;
pub mod json_export;
pub mod navigation;
pub mod visibility;
pub mod paths;
pub mod session;
pub mod menu_ids;
pub mod menu;
pub mod message;
pub mod theme;
pub mod config;
pub mod update_check;
pub mod parse_error;
pub mod dump;
