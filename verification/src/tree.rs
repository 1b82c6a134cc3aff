//! Ordered structures: the ranking of runnable tasks by key, and tree
//! nodes in an arena.

pub mod node;
pub mod ordered;
