# blocksta

Block-based static timing analysis structures, verified with Verus.

- `src/ids.rs`: strong ids (`NodeId`, `EdgeId`, `LevelId`, `BlkId`,
  `DomainId`) behind the `Validable` trait: an index plus a validity tag.
- `src/types.rs`: node, edge, arrival, delay and timing kinds.
- `src/linear_map.rs`: `LinearMap`, a vector indexed by strong ids.
- `src/range.rs`: `Range`, a read-only copy of a sequence.
- `src/reorder.rs`: rebuilding maps along id maps (`compress_ids`,
  `clean_and_reorder_values`, `clean_and_reorder_ids`).
- `src/graph.rs` and `src/graph/`: `TimingGraph`, its mathematical view,
  accessors and modifiers, remapping and compression, validation, layout
  maps, levelization by rounds over the active edges
  (`src/graph/level.rs`), the laws the graph operations keep, and the
  agreement of edge lists with edge ends (`src/graph/agreement.rs`).
- `src/scc.rs`: strongly connected components along enabled edges, found
  by Tarjan's search, with the invariants that prove it and the laws of
  its result.
- `src/transitive.rs`: depth-bounded fan-in and fan-out walks.
- `app/lib.rs`: the floating-point comparison helpers.
