//! Structures on graphs.

pub mod low_link;
pub mod rollback_unionfind;
