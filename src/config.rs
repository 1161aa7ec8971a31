//! The bot's settings, as read from its configuration file.
use vstd::prelude::*;

verus! {

/// Where the synced rows go.
pub struct SpreadsheetSettings {
    pub id: String,
    pub sheet_name: String,
}

pub struct Settings {
    pub spreadsheet: SpreadsheetSettings,
    /// Path of the service account key used to reach the spreadsheet.
    pub service_account_key: String,
    pub bot_token: String,
    pub sqlite_path: String,
    /// Receive updates through this webhook instead of polling.
    pub webhook_url: Option<String>,
}

} // verus!
