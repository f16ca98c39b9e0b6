use vstd::prelude::*;
use std::path::PathBuf;
use crate::theme::AppTheme;

verus! {

/// std's owned file-system path, carried as an opaque value.
#[verifier::external_type_specification]
#[verifier::external_body]
pub struct ExPathBuf(PathBuf);

/// Relies on dirs::home_dir: the user's home directory, if the platform
/// reports one; it depends on the environment, so nothing is promised.
#[verifier::external_body]
fn home_directory() -> Option<PathBuf> {
    dirs::home_dir()
}

/// Relies on std's PathBuf::join: the path with one more component.
#[verifier::external_body]
fn join_path(base: &PathBuf, part: &str) -> PathBuf {
    base.join(part)
}

/// Settings kept between sessions.
#[derive(Debug, Clone)]
pub struct Config {
    pub theme: AppTheme,
    /// Whether the command-line helper has been installed.
    pub cli_installed: bool,
}

impl Default for Config {
    fn default() -> (r: Self)
        ensures
            r.theme == AppTheme::Dark,
            !r.cli_installed,
    {
        Config { theme: AppTheme::Dark, cli_installed: false }
    }
}

impl Config {
    /// The settings directory, `.unfold` under the home directory; `None`
    /// where no home directory is known.
    pub fn config_dir() -> Option<PathBuf> {
        match home_directory() {
            Some(home) => Some(join_path(&home, ".unfold")),
            None => None,
        }
    }

    /// The settings file, `config.json` in the settings directory.
    pub fn config_path() -> Option<PathBuf> {
        match Self::config_dir() {
            Some(dir) => Some(join_path(&dir, "config.json")),
            None => None,
        }
    }
}

} // verus!
