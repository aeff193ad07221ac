//! Branch-level test outline differ: spec trees, their structural diff
//! with rename detection, and the text renderings of that diff.
pub mod diff;
pub mod output;
pub mod text;
pub mod tui;
pub mod parse;
pub mod pipeline;
pub mod scanning;
pub mod vcs;
