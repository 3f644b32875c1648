use vstd::prelude::*;

verus! {

// ---------------------------------------------------------------------------
// Configuration
//
// Plain configuration values.  Loading and saving them is the caller's
// business; the library fixes their shape and their defaults.
// ---------------------------------------------------------------------------

/// Where the entry database lives; none means the platform default.
#[derive(Clone, Debug)]
pub struct DatabaseConfig {
    pub path: Option<String>,
}

/// The external editor command; none means the environment's choice.
#[derive(Clone, Debug)]
pub struct EditorConfig {
    pub command: Option<String>,
}

/// How entries are displayed.
#[derive(Clone, Debug)]
pub struct DisplayConfig {
    pub colors_enabled: bool,
    pub date_format: String,
    pub entries_per_page: Option<usize>,
    pub stardate_mode: bool,
}

/// The whole configuration.
#[derive(Clone, Debug)]
pub struct Config {
    pub database: DatabaseConfig,
    pub editor: EditorConfig,
    pub display: DisplayConfig,
}

impl Default for Config {
    /// The default configuration: no database override, the fallback editor,
    /// colors on, the standard date format, no paging, ordinary dates.
    fn default() -> (r: Self)
        ensures
            r.database.path is None,
            r.editor.command matches Some(c) && c@ == "vim"@,
            r.display.colors_enabled == true,
            r.display.date_format@ == "%Y-%m-%d %H:%M:%S"@,
            r.display.entries_per_page is None,
            r.display.stardate_mode == false,
    {
        Config {
            database: DatabaseConfig { path: None },
            editor: EditorConfig { command: Some(String::from_str("vim")) },
            display: DisplayConfig {
                colors_enabled: true,
                date_format: String::from_str("%Y-%m-%d %H:%M:%S"),
                entries_per_page: None,
                stardate_mode: false,
            },
        }
    }
}

} // verus!
