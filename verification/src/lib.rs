//! Judging engine for editor-golf challenges.
//!
//! A challenge pairs an initial text buffer with a target buffer; candidates
//! submit editor keystrokes, and the engine decides whether the keystrokes
//! turn the initial buffer into the target, scoring successful attempts by
//! the length of the translated key sequence.

pub mod challenge;
pub mod codec;
pub mod judge;
pub mod numerals;
pub mod parser;
pub mod store;
pub mod text;

pub use challenge::Challenge;
pub use challenge::Submission;
pub use challenge::TextBlock;
