//! Approximate nearest-neighbour search over vectors attached to graph nodes.
//!
//! A `VectorIndex` keeps the vectors that it was given beside a hierarchical
//! navigable small-world graph of the crate `hnsw_rs`, which answers the queries.
//! The graph measures by the metric of the index: Euclidean distance, cosine
//! distance or inner product. An index is saved as its list of vectors, in the
//! format of the crate `bincode`, and loaded by inserting them into a new graph.
//!
//! Vector components and distances are single-precision numbers. They are handled
//! as their bit patterns, and what computes with them, the distance functions, is
//! handed in.

pub mod codec;
pub mod error;
pub mod graph;
pub mod index;
pub mod laws;
pub mod metric;
pub mod narrow;
pub mod node;

pub use error::{VectorError, VectorResult};
pub use graph::{Graph, HnswIndex};
pub use index::{
    decode_vectors, encode_vectors, neighbors, StoredVector, VectorIndex, VectorPoint,
};
pub use metric::{CosineDistance, DistanceMetric, Distances, InnerProductDistance};
pub use node::NodeId;
