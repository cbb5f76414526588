//! A small pattern-matching engine for a restricted glob-style
//! mini-language over text: literal characters, `.` for exactly one
//! arbitrary character, and `*` for a run of zero or more characters
//! that never crosses one of the structural delimiters `(`, `)`, `;`.
//! A backslash escapes the three special characters.
//!
//! Pattern text is parsed into a sequence of [`parts::PatternPart`]s,
//! compiled into an immutable [`pattern::Pattern`], and executed with
//! [`pattern::Pattern::first_match`], which returns the leftmost match
//! together with one captured substring per wildcard.

pub mod parts;
pub mod text;
pub mod matching;
pub mod pattern;
pub mod laws;

pub use parts::PatternPart;
pub use parts::PatternCreationError;
pub use pattern::Pattern;
pub use pattern::Match;
pub use pattern::Matches;
