//! Renders a two-pane keybinding cheat-sheet as plain text with embedded
//! ANSI escape sequences.
//!
//! The pipeline: classify the active mode's bindings into "exclusive" and
//! "shared" groups, tokenize each binding's action text, dim the fragments
//! that repeat between adjacent rows, lay both groups out as column-aligned
//! tables, and flatten the resulting styled character grid into a single
//! string with minimal escape-code transitions.

pub mod style;
pub mod text;
pub mod keys;
pub mod grid;
pub mod parse;
pub mod tokens;
pub mod diff;
pub mod classify;
pub mod layout;
