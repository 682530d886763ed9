//! A Unicode-grapheme-aware, style-preserving line layout engine for
//! fixed-width terminal rows.
//!
//! The core of the crate is a pair of line composers: a greedy, word-preserving
//! wrap engine and a non-wrapping truncation engine with horizontal scroll.
//! Both operate on [`grapheme::StyledGrapheme`] values, which carry a grapheme
//! cluster's text, its display width in terminal columns, and an opaque style
//! payload that the engines pass through untouched.

pub mod compose;
pub mod config;
pub mod game;
pub mod grapheme;
pub mod integrity;
pub mod laws;
pub mod truncate;
pub mod wrap;

pub use config::Cli;
pub use config::Config;
pub use game::CurrentWord;
pub use game::CursorType;
pub use game::Screen;
pub use game::WordAttempt;
pub use compose::LineComposer;
pub use compose::LineTruncator;
pub use compose::WordWrapper;
pub use compose::WrappedLine;
pub use grapheme::Alignment;
pub use grapheme::LogicalLine;
pub use grapheme::StyledGrapheme;
