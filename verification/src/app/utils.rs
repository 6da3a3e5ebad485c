//! Widgets' state: tabs and the input line.
pub mod input;
pub mod list;
pub mod trie;
pub mod tabs;
