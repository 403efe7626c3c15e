pub mod ids;
pub mod types;
pub mod linear_map;
pub mod range;
pub mod reorder;
pub mod graph;
pub mod scc;
pub mod transitive;
