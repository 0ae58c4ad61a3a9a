//! Ordered containers.

pub mod btree_neighbors;
pub mod multiset;
pub mod range_freq;
pub mod range_space;
