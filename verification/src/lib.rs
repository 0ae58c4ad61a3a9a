//! Data structures and number-theoretic helpers for contest-style problem solving.

pub mod accumulate2d;
pub mod base_state;
pub mod bitboard_8x8;
pub mod bounded_sorted_list;
pub mod data_structures;
pub mod graph;
pub mod grid;
pub mod interval_heap;
pub mod lca;
pub mod math;
pub mod matrix;
pub mod multiset;
pub mod operation;
pub mod order;
pub mod segment_tree2d;
pub mod std_ext;
pub mod string;
pub mod trace;
pub mod utils;
pub mod zaatsu;
