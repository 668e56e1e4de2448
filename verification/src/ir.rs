//! Reconciled intermediate representation (IR) of the typeshared type graph.

pub mod model;
pub mod reach;
pub mod scc;
pub mod dfs;
pub mod levels;
pub mod nodes;
pub mod edge_order;
pub mod edges;
pub mod order;
pub mod cycles;
pub mod topo;
pub mod diagnostics;
pub mod graph;
pub mod json;
pub mod render;
pub mod laws;
pub mod item_laws;
