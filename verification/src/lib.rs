//! Output filters for the `bun`, `dart` and `flutter` command-line tools.
//!
//! Each filter turns the raw output of a tool into a compact summary: progress
//! noise and passing lines go, errors, warnings and summaries stay.
pub mod text;
pub mod select;
mod pattern;
pub mod bun;
pub mod plan;
pub mod sort;
pub mod tally;
pub mod dart;
pub mod flutter;
