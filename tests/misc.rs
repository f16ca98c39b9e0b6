use std::collections::HashSet;
use unfold::config::Config;
use unfold::menu::{menu_action_for_id, try_initialize_menu, MenuAction};
use unfold::menu_ids;
use unfold::message::ContextSubmenu;
use unfold::theme::AppTheme;
use unfold::update_check::{release_state, status_state, GitHubRelease, UpdateCheckState};

#[test]
fn test_config_default() {
    let config = Config::default();
    assert_eq!(config.theme, AppTheme::Dark);
    assert!(!config.cli_installed);
}

#[test]
fn test_menu_ids_are_unique() {
    let ids = vec![
        menu_ids::CHECK_UPDATES,
        menu_ids::OPEN_FILE,
        menu_ids::OPEN_NEW_WINDOW,
        menu_ids::COPY_VALUE,
        menu_ids::COPY_KEY,
        menu_ids::COPY_PATH,
        menu_ids::TOGGLE_THEME,
        menu_ids::KEYBOARD_SHORTCUTS,
        menu_ids::EXPORT_JSON,
        menu_ids::EXPAND_ALL,
        menu_ids::COLLAPSE_ALL,
    ];

    let unique: HashSet<_> = ids.iter().collect();
    assert_eq!(ids.len(), unique.len(), "Menu IDs must be unique");
}

#[test]
fn test_context_submenu_enum() {
    assert_eq!(ContextSubmenu::Closed, ContextSubmenu::Closed);
    assert_ne!(ContextSubmenu::Closed, ContextSubmenu::CopyValueAs);
    assert_ne!(ContextSubmenu::CopyValueAs, ContextSubmenu::ExportValueAs);
}

#[test]
fn test_update_check_state_enum() {
    assert_eq!(UpdateCheckState::Idle, UpdateCheckState::Idle);
    assert_eq!(UpdateCheckState::Checking, UpdateCheckState::Checking);
    assert_eq!(UpdateCheckState::UpToDate, UpdateCheckState::UpToDate);

    assert_ne!(UpdateCheckState::Idle, UpdateCheckState::Checking);
    assert_ne!(UpdateCheckState::Checking, UpdateCheckState::UpToDate);

    let update1 = UpdateCheckState::UpdateAvailable {
        version: "v1.0.0".to_string(),
        release_url: "https://github.com/test".to_string(),
    };
    let update2 = UpdateCheckState::UpdateAvailable {
        version: "v1.0.0".to_string(),
        release_url: "https://github.com/test".to_string(),
    };
    assert_eq!(update1, update2);

    let error1 = UpdateCheckState::Error("Network error".to_string());
    let error2 = UpdateCheckState::Error("Network error".to_string());
    assert_eq!(error1, error2);
    assert_ne!(UpdateCheckState::Error("a".to_string()), UpdateCheckState::Error("b".to_string()));
}

#[test]
fn menu_ids_map_to_actions() {
    assert_eq!(menu_action_for_id(menu_ids::OPEN_FILE), MenuAction::OpenFileDialog);
    assert_eq!(menu_action_for_id(menu_ids::COPY_KEY), MenuAction::CopySelectedName);
    assert_eq!(menu_action_for_id(menu_ids::COLLAPSE_ALL), MenuAction::CollapseAllChildren);
    assert_eq!(menu_action_for_id(menu_ids::OPEN_EXTERNAL), MenuAction::OpenInExternalEditor);
    assert_eq!(menu_action_for_id("quit"), MenuAction::NoOp);
}

#[test]
fn menu_initializes_on_fourth_tick_only() {
    let mut counter: u32 = 0;
    let ticks: Vec<bool> = (0..6).map(|_| try_initialize_menu(&mut counter)).collect();
    assert_eq!(ticks, vec![false, false, false, true, false, false]);
    assert_eq!(counter, 4);
}

#[test]
fn theme_toggles_between_two() {
    assert_eq!(AppTheme::Dark.toggled(), AppTheme::Light);
    assert_eq!(AppTheme::Light.toggled(), AppTheme::Dark);
}

fn release(tag: &str) -> GitHubRelease {
    GitHubRelease { tag_name: tag.to_string(), html_url: "https://example.org/r".to_string() }
}

#[test]
fn newer_release_is_reported() {
    let state = release_state(&release("v1.2.0"), "1.1.9");
    assert_eq!(
        state,
        UpdateCheckState::UpdateAvailable {
            version: "v1.2.0".to_string(),
            release_url: "https://example.org/r".to_string(),
        }
    );
    assert_eq!(release_state(&release("v1.1.9"), "1.1.9"), UpdateCheckState::UpToDate);
    assert_eq!(release_state(&release("1.0.0"), "1.1.9"), UpdateCheckState::UpToDate);
}

#[test]
fn invalid_versions_are_errors() {
    match release_state(&release("vnext"), "1.0.0") {
        UpdateCheckState::Error(m) => assert!(m.starts_with("Invalid release version 'next': ")),
        other => panic!("unexpected {:?}", other),
    }
    match release_state(&release("v1.0.0"), "one") {
        UpdateCheckState::Error(m) => assert!(m.starts_with("Invalid current version: ")),
        other => panic!("unexpected {:?}", other),
    }
}

#[test]
fn http_status_outcomes() {
    assert_eq!(status_state(200, "200 OK"), None);
    assert_eq!(
        status_state(404, "404 Not Found"),
        Some(UpdateCheckState::Error("No releases found on GitHub".to_string()))
    );
    assert_eq!(
        status_state(500, "500 Internal Server Error"),
        Some(UpdateCheckState::Error("GitHub API error: 500 Internal Server Error".to_string()))
    );
}

#[test]
fn config_path_sits_in_settings_directory() {
    match (Config::config_dir(), Config::config_path()) {
        (Some(dir), Some(path)) => {
            assert!(dir.ends_with(".unfold"));
            assert!(path.ends_with(".unfold/config.json"));
            assert_eq!(path.parent(), Some(dir.as_path()));
        }
        (None, None) => {}
        other => panic!("inconsistent paths {:?}", other),
    }
}
