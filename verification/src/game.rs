//! Plain session types shared with the surrounding application: which
//! screen is shown, one typed word attempt, and the configurable cursor and
//! current-word highlight styles.

use vstd::prelude::*;

verus! {

/// Which screen the application is on.
pub enum Screen {
    Game,
    Results,
}

/// One word of a typing session: the word the user was asked to type and
/// what they typed for it.
pub struct WordAttempt {
    /// The word the user was asked to type.
    pub word: String,
    /// What the user typed for this word so far.
    pub user_attempt: String,
}

impl WordAttempt {
    /// A fresh attempt at `word`, with nothing typed yet.
    pub fn new(word: String) -> (a: WordAttempt)
        ensures
            a.word == word,
            a.user_attempt@ == Seq::<char>::empty(),
    {
        WordAttempt { word, user_attempt: String::new() }
    }
}

/// How the cursor is drawn.
#[derive(Clone, Copy, Debug, PartialEq, Eq, Structural)]
pub enum CursorType {
    Block,
    Underline,
    Hidden,
}

/// How the word currently being typed is set off from the rest.
#[derive(Clone, Copy, Debug, PartialEq, Eq, Structural)]
pub enum CurrentWord {
    Bold,
    Highlight,
    Plain,
}

} // verus!
