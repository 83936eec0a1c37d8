//! A tree view state: items with children that can be expanded and
//! collapsed, shown as a flat list of visible entries with their depth.

pub mod model;
pub mod tree;
pub mod laws;

pub use tree::{TreeEntry, TreeEvent, TreeItem, TreeState};
