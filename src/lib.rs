//! Line-by-line text replacement with compact, readable diffs of each change.
pub mod compact;
pub mod diff;
pub mod file_patcher;
pub mod lines;
