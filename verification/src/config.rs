//! App-level config, kept in the per-user OS config dir. It stores only the
//! last-opened vault so the app can reopen it on launch. Reading and writing
//! the file happen around this type.
use vstd::prelude::*;

verus! {

/// The app-level config.
#[derive(Debug)]
pub struct AppConfig {
    /// Absolute path of the most recently opened vault, if any.
    pub last_vault: Option<String>,
}

impl Default for AppConfig {
    /// No vault remembered: what a missing or corrupt config file gives.
    fn default() -> (r: AppConfig)
        ensures
            r.last_vault is None,
    {
        AppConfig { last_vault: None }
    }
}

impl AppConfig {
    /// The config remembering `vault` as the last one opened.
    pub fn with_last_vault(vault: String) -> (r: AppConfig)
        ensures
            r.last_vault matches Some(v) && v@ == vault@,
    {
        AppConfig { last_vault: Some(vault) }
    }
}

} // verus!
