//! An arena-backed tree: nodes are addressed by stable integer handles,
//! support ordered-sibling mutation, carry a cached height, and can be
//! shared across threads through a per-node lock table.

pub mod tree;
pub mod adapter;
pub mod locks;
