//! The application's configuration and its command-line overrides, as plain
//! values. Parsing and file handling live with the application shell; the
//! library only defines the shapes and the defaults.

use vstd::prelude::*;

use crate::game::CurrentWord;
use crate::game::CursorType;

verus! {

/// The resolved configuration of a session.
pub struct Config {
    /// Session length in seconds.
    pub time: usize,
    /// Name of the color theme.
    pub theme: String,
    /// Words-per-minute pace of the ghost cursor; zero disables it.
    pub target_wpm: usize,
    /// How the cursor is drawn.
    pub cursor: CursorType,
    /// How the current word is set off.
    pub current_word: CurrentWord,
}

impl Default for Config {
    /// A thirty-second session on the default theme, with no ghost cursor,
    /// an underline cursor, and the current word highlighted.
    fn default() -> (c: Config)
        ensures
            c.time == 30,
            c.theme@ =~= "dracula"@,
            c.target_wpm == 0,
            c.cursor == CursorType::Underline,
            c.current_word == CurrentWord::Highlight,
    {
        Config {
            time: 30,
            theme: "dracula".to_owned(),
            target_wpm: 0,
            cursor: CursorType::Underline,
            current_word: CurrentWord::Highlight,
        }
    }
}

/// Command-line overrides; a field left unset falls back to the
/// configuration file or the default.
pub struct Cli {
    pub time: Option<usize>,
    pub theme: Option<String>,
    pub target_wpm: Option<usize>,
    pub cursor: Option<CursorType>,
    pub current_word: Option<CurrentWord>,
}

} // verus!
