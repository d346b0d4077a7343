//! Rendering of a directory hierarchy as a connector-based text tree.
//!
//! The library holds the rules of the rendering and does no input or
//! output of its own. `walker` is the traversal, as a machine that asks
//! for a directory to be listed or an entry to be probed and gives the
//! lines to write; `listing` turns what was read in a directory into its
//! sorted entries; `connector` and `line` build the text. `traversal`
//! states what a whole traversal writes and proves that the walker writes
//! it.

pub mod connector;
pub mod entry;
pub mod exclusions;
pub mod line;
pub mod listing;
pub mod merge;
pub mod order;
pub mod sorting;
pub mod traversal;
pub mod walker;
