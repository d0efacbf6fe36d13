//! A cache-oblivious ordered map.
//!
//! The map keeps its entries in a packed memory array: a sorted slot array
//! whose occupancy is kept within per-window density bounds, so that inserts
//! and deletes touch only a small contiguous range.  Searches are routed by a
//! static complete binary tree of subtree-maximum keys whose nodes are stored
//! in van Emde Boas order for cache-oblivious locality.

pub mod cache_oblivious;
pub mod layout;
pub mod packed_memory_array;
pub mod segment;
pub mod slots;
pub mod veb_tree;
