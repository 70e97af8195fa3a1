//! A dependency-gated workflow engine: a flow of named steps is turned into a
//! directed acyclic graph, and the steps are run in dependency order. A step
//! runs only when every step it depends on has succeeded.

pub mod engine;
pub mod flow;
pub mod graph;
