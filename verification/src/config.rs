//! Application settings (kept in ~/.config/taynik/config.toml).

use vstd::prelude::*;

use crate::text::owned;

verus! {

/// Application settings.
#[derive(Debug, Clone)]
pub struct Config {
    /// The vault opened last.
    pub last_database: Option<String>,
    /// Lock after N minutes without activity (0 turns it off).
    pub auto_lock_minutes: u32,
    /// Lock when the window is minimised.
    pub lock_on_minimize: bool,
    /// Clear the clipboard after N seconds.
    pub clipboard_clear_seconds: u64,
    /// Colour theme (a key of `ui::theme::themes`).
    pub theme: String,
    /// The auto-type sequence (see `ui::autotype::parse_sequence`).
    pub autotype_sequence: String,
}

impl Default for Config {
    fn default() -> (c: Config)
        ensures
            c.last_database is None,
            c.auto_lock_minutes == 5,
            !c.lock_on_minimize,
            c.clipboard_clear_seconds == 45,
            c.theme@ == "system"@,
            c.autotype_sequence@ == "{USERNAME}{TAB}{PASSWORD}"@,
    {
        Config {
            last_database: None,
            auto_lock_minutes: 5,
            lock_on_minimize: false,
            clipboard_clear_seconds: 45,
            theme: owned("system"),
            autotype_sequence: owned("{USERNAME}{TAB}{PASSWORD}"),
        }
    }
}

} // verus!
