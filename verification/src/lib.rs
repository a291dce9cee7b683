//! A buddy-allocation bookkeeper for a linear byte region that somebody else owns.
//!
//! The heap never touches the region: it records which power-of-two runs of
//! fixed-size blocks are handed out, in an implicit binary tree, and returns
//! byte offsets biased by one so that zero can signal failure.

pub mod levels;
pub mod tree;
pub mod paths;
pub mod linkage;
pub mod totals;
pub mod table;
pub mod heap;
pub mod laws;

pub use heap::Heap;
pub use levels::BLOCK_SIZE;
pub use tree::Node;
