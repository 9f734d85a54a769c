//! Application settings and debug-panel choices.
use vstd::prelude::*;

verus! {

/// Settings of the application.
#[derive(Debug, Clone)]
pub struct AppConfig {
    pub debug_ui_enabled: bool,
}

impl Default for AppConfig {
    /// The debug interface is on by default.
    fn default() -> (r: AppConfig)
        ensures
            r.debug_ui_enabled,
    {
        AppConfig { debug_ui_enabled: true }
    }
}

/// A choice among three positions offered by the debug panel.
#[derive(PartialEq, Eq, Structural, Debug, Clone, Copy)]
pub enum Positions {
    First,
    Second,
    Third,
}

impl Default for Positions {
    /// The first position.
    fn default() -> (r: Positions)
        ensures
            r == Positions::First,
    {
        Positions::First
    }
}

} // verus!
