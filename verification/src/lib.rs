//! Verified textbook data structures: bit sets, growable arrays, a gap
//! buffer for text editing, binary search trees, a ring buffer and a doubly
//! linked list.

pub mod arrays;
pub mod binary_trees;
pub mod circular_buffer;
pub mod lists;
