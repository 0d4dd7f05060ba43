//! Primitives for concurrent data structures: a hazard-pointer registry,
//! a split-ordered hash map built over one sorted list, and an ordered
//! set based on a sorted singly-linked list.

pub mod bits;
pub mod hazard;
pub mod list_set;
pub mod split_ordered_list;
