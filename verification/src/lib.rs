//! A hierarchical key/value registry of named points. Each point holds a
//! multi-valued store of string entries kept in key order; points can be
//! attached under one another to form trees, and searched by key within a
//! subtree or across the whole registry.
pub mod order;
pub mod skip;
pub mod dash;
pub mod model;
pub mod point;
pub mod laws;
pub mod prelude;
