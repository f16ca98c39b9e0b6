use vstd::prelude::*;

verus! {

// Menu bar items.
pub const CHECK_UPDATES: &'static str = "check_updates";
pub const OPEN_FILE: &'static str = "open_file";
pub const OPEN_NEW_WINDOW: &'static str = "open_new_window";
pub const OPEN_EXTERNAL: &'static str = "open_external";
pub const COPY_VALUE: &'static str = "copy_value";
pub const COPY_KEY: &'static str = "copy_key";
pub const COPY_PATH: &'static str = "copy_path";
pub const TOGGLE_THEME: &'static str = "toggle_theme";
pub const KEYBOARD_SHORTCUTS: &'static str = "keyboard_shortcuts";
// Context menu items.
pub const EXPORT_JSON: &'static str = "export_json";
pub const EXPAND_ALL: &'static str = "expand_all";
pub const COLLAPSE_ALL: &'static str = "collapse_all";

} // verus!
