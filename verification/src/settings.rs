//! Project-local viewing preferences.
use vstd::prelude::*;
use crate::diff_view::DiffMode;
use crate::layout::DEFAULT_DIVIDER;

verus! {

/// Remembered diff mode, common-line visibility and divider width.
#[derive(Clone, Copy, Debug, PartialEq, Eq, Structural)]
pub struct ProjectSettings {
    pub version: u32,
    pub diff_mode: DiffMode,
    pub show_unchanged: bool,
    pub divider: u16,
}

impl Default for ProjectSettings {
    fn default() -> (r: ProjectSettings)
        ensures
            r == (ProjectSettings { version: 1, diff_mode: DiffMode::SideBySide, show_unchanged: false, divider: 34 }),
    {
        ProjectSettings { version: 1, diff_mode: DiffMode::SideBySide, show_unchanged: false, divider: DEFAULT_DIVIDER }
    }
}

impl ProjectSettings {
    /// Settings for the current preferences, at the current schema version.
    pub fn new(diff_mode: DiffMode, show_unchanged: bool, divider: u16) -> (r: ProjectSettings)
        ensures
            r == (ProjectSettings { version: 1, diff_mode, show_unchanged, divider }),
    {
        ProjectSettings { version: 1, diff_mode, show_unchanged, divider }
    }
}

} // verus!
