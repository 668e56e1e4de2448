//! Reconciled type-graph intermediate representation of typeshare.
//!
//! The library turns post-reconcile parsed declarations into a flat,
//! deterministic graph of nodes and resolved dependency edges, derives the
//! strongly connected components, the topological dependency levels and the
//! identity diagnostics, and renders the whole graph as pretty JSON.

pub mod text;
pub mod input;
pub mod ir;
