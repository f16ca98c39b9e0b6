use vstd::prelude::*;

verus! {

/// The colour scheme the user picked.
#[derive(Debug, Clone, Copy, PartialEq, Eq, Structural)]
pub enum AppTheme {
    Dark,
    Light,
}

impl AppTheme {
    /// The other theme.
    pub fn toggled(self) -> (r: AppTheme)
        ensures
            r == (if self == AppTheme::Dark { AppTheme::Light } else { AppTheme::Dark }),
    {
        match self {
            AppTheme::Dark => AppTheme::Light,
            AppTheme::Light => AppTheme::Dark,
        }
    }
}

} // verus!
