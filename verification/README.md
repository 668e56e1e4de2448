# typeshare_core — reconciled type graph

A verified library that turns post-reconcile typeshare declarations
(type aliases, structs, enums and consts of one or more crates) into a flat,
deterministic graph: nodes keyed by crate, module path and name; resolved
dependency edges; the strongly connected components (self-recursive types
and mutually recursive groups); the topological groups of the SCC
condensation, ties broken by source declaration order; identity
diagnostics; and a pretty JSON rendering of the whole graph.

Every function carries a contract proved by Verus, except two small trusted
wrappers: one around `String::push`, one around itertools' `join`.

## Layout

- `src/input.rs` — the parsed declarations the graph is built from.
- `src/text.rs` — string order, joining and decimal/hex formatting.
- `src/ir/model.rs` — the graph types and their mathematical views.
- `src/ir/nodes.rs`, `src/ir/edges.rs`, `src/ir/edge_order.rs` — nodes,
  reference resolution and the sorted edge list.
- `src/ir/scc.rs`, `src/ir/dfs.rs`, `src/ir/reach.rs` — iterative Tarjan,
  with the proof that its components are exactly the strongly connected
  components.
- `src/ir/cycles.rs` — the cyclic components as presented in the graph.
- `src/ir/levels.rs`, `src/ir/topo.rs` — Kahn levels over the condensation.
- `src/ir/diagnostics.rs` — identity diagnostics, sorted and deduplicated.
- `src/ir/graph.rs` — `IrGraph::from_reconciled`.
- `src/ir/json.rs`, `src/ir/render.rs` — `IrGraph::to_json_pretty`.
- `src/ir/laws.rs` — properties that span several parts of the graph.
- `tests/` — snapshot tests and tests of the graph's properties.
