# vector_index

Approximate nearest-neighbour search over vectors attached to graph nodes, with
its behaviour stated in contracts that Verus proves.

- `src/index.rs`: the index, which keeps every vector beside the graph that
  answers queries, refuses vectors of other dimensions, and is saved as and loaded
  from bytes.
- `src/graph.rs`: the graph of `hnsw_rs` under the metric that it measures by.
- `src/codec.rs`: the bytes of a list of stored vectors, written and read by
  `bincode`.
- `src/metric.rs`, `src/narrow.rs`: the metrics, and the rules that keep a computed
  distance a distance.
- `src/laws.rs`: what holds across operations, such as that a saved index is read
  back unchanged.
- `app/`: floating-point vectors, the arithmetic of the distance functions, and
  files.

Vector components and distances cross the library as IEEE 754 bit patterns.

The proofs rest on the contracts of the calls into `hnsw_rs` and `bincode`, and on one
condition on the distance functions that are handed in, `obeys_distance_model`: each
returns on every pair of vectors, and what it gives depends on the two vectors alone.
Nothing in the library establishes that condition; whoever hands in a function vouches
for it. `app/distance.rs` holds functions that meet it.
