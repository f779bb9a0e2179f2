//! A navigation history kept as a tree of visited locations, with a cursor
//! on the entry currently visited.
//!
//! Entries live in one arena and refer to each other by index: a parent owns
//! its children through its child list, and the parent and last-visited-child
//! links are plain indices that own nothing.

pub mod history;
pub mod laws;

pub use history::{EntryView, HistoryTree, HistoryTreeEntry, HistoryTreeView};
