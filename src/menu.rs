use vstd::prelude::*;
use crate::menu_ids::{
    CHECK_UPDATES, COLLAPSE_ALL, COPY_KEY, COPY_PATH, COPY_VALUE, EXPAND_ALL, EXPORT_JSON,
    KEYBOARD_SHORTCUTS, OPEN_EXTERNAL, OPEN_FILE, OPEN_NEW_WINDOW, TOGGLE_THEME,
};
use crate::text::same_text;

verus! {

/// What a menu item asks the application to do.
#[derive(Debug, Clone, Copy, PartialEq, Eq, Structural)]
pub enum MenuAction {
    OpenFileDialog,
    OpenFileInNewWindow,
    CopySelectedValue,
    CopySelectedName,
    CopySelectedPath,
    ToggleTheme,
    ToggleHelp,
    CheckForUpdates,
    ExportJson,
    ExpandAllChildren,
    CollapseAllChildren,
    OpenInExternalEditor,
    /// An item the operating system handles itself.
    NoOp,
}

/// The action of the menu item with identifier `id`.
pub open spec fn action_of(id: Seq<char>) -> MenuAction {
    if id == OPEN_FILE@ {
        MenuAction::OpenFileDialog
    } else if id == OPEN_NEW_WINDOW@ {
        MenuAction::OpenFileInNewWindow
    } else if id == COPY_VALUE@ {
        MenuAction::CopySelectedValue
    } else if id == COPY_KEY@ {
        MenuAction::CopySelectedName
    } else if id == COPY_PATH@ {
        MenuAction::CopySelectedPath
    } else if id == TOGGLE_THEME@ {
        MenuAction::ToggleTheme
    } else if id == KEYBOARD_SHORTCUTS@ {
        MenuAction::ToggleHelp
    } else if id == CHECK_UPDATES@ {
        MenuAction::CheckForUpdates
    } else if id == EXPORT_JSON@ {
        MenuAction::ExportJson
    } else if id == EXPAND_ALL@ {
        MenuAction::ExpandAllChildren
    } else if id == COLLAPSE_ALL@ {
        MenuAction::CollapseAllChildren
    } else if id == OPEN_EXTERNAL@ {
        MenuAction::OpenInExternalEditor
    } else {
        MenuAction::NoOp
    }
}

/// Maps a menu item identifier to the action it stands for.
pub fn menu_action_for_id(id: &str) -> (r: MenuAction)
    ensures
        r == action_of(id@),
{
    if same_text(id, OPEN_FILE) {
        MenuAction::OpenFileDialog
    } else if same_text(id, OPEN_NEW_WINDOW) {
        MenuAction::OpenFileInNewWindow
    } else if same_text(id, COPY_VALUE) {
        MenuAction::CopySelectedValue
    } else if same_text(id, COPY_KEY) {
        MenuAction::CopySelectedName
    } else if same_text(id, COPY_PATH) {
        MenuAction::CopySelectedPath
    } else if same_text(id, TOGGLE_THEME) {
        MenuAction::ToggleTheme
    } else if same_text(id, KEYBOARD_SHORTCUTS) {
        MenuAction::ToggleHelp
    } else if same_text(id, CHECK_UPDATES) {
        MenuAction::CheckForUpdates
    } else if same_text(id, EXPORT_JSON) {
        MenuAction::ExportJson
    } else if same_text(id, EXPAND_ALL) {
        MenuAction::ExpandAllChildren
    } else if same_text(id, COLLAPSE_ALL) {
        MenuAction::CollapseAllChildren
    } else if same_text(id, OPEN_EXTERNAL) {
        MenuAction::OpenInExternalEditor
    } else {
        MenuAction::NoOp
    }
}

/// The tick on which the native menus are built.
pub const MENU_INIT_TICK: u32 = 3;

/// One tick of the menu start-up counter: the first ticks only count, the
/// tick numbered `MENU_INIT_TICK` counts and asks for the menus to be built
/// (returns `true`), later ticks do nothing.
pub fn try_initialize_menu(counter: &mut u32) -> (r: bool)
    ensures
        *old(counter) < MENU_INIT_TICK ==> *final(counter) == *old(counter) + 1 && !r,
        *old(counter) == MENU_INIT_TICK ==> *final(counter) == MENU_INIT_TICK + 1 && r,
        *old(counter) > MENU_INIT_TICK ==> *final(counter) == *old(counter) && !r,
{
    let count = *counter;
    if count < MENU_INIT_TICK {
        *counter = count + 1;
        false
    } else if count == MENU_INIT_TICK {
        *counter = count + 1;
        true
    } else {
        false
    }
}

} // verus!
