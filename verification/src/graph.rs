//! The navigable small-world graph that answers the queries.

use crate::metric::{distance_rank, is_distance, DistanceMetric, Distances};
use hnsw_rs::prelude::{DistFn, Distance, Hnsw};
use vstd::prelude::*;

verus! {

/// A proximity graph of the crate `hnsw_rs`, over points that are vectors of
/// single-precision patterns, each with a number that the caller gave it.
#[verifier::external_body]
pub struct Graph {
    hnsw: Hnsw<'static, u32, DistFn<u32>>,
}

/// The points that were inserted into a graph, in that order, each with its number.
pub uninterp spec fn graph_points(graph: Graph) -> Seq<(Seq<u32>, usize)>;

/// The distance function that a graph was made with.
pub uninterp spec fn graph_distance(graph: Graph) -> DistFn<u32>;

/// The numbers that a graph was made with: connections per node, expected number
/// of points, layers, and search width during insertion.
pub uninterp spec fn graph_settings(graph: Graph) -> (usize, usize, usize, usize);

/// The distance function returns on every pair of vectors, and what it gives depends
/// on nothing but the two vectors.
///
/// A `DistFn` holds any function that its maker put into it, so this is a condition
/// on what is handed in. It is never established here, only required and passed on.
pub uninterp spec fn obeys_distance_model(distance: DistFn<u32>) -> bool;

/// The pattern of the distance that a distance function gives for two vectors, where
/// it obeys the distance model.
pub uninterp spec fn distance_bits(distance: DistFn<u32>, a: Seq<u32>, b: Seq<u32>) -> u32;

/// What a graph finds for a query: the numbers of the points found, each with the
/// pattern of its distance, where `k` points are asked for with search width `ef`.
pub uninterp spec fn found(graph: Graph, query: Seq<u32>, k: usize, ef: usize) -> Seq<
    (usize, u32),
>;

/// A table of `len` pointers is small enough to be reserved.
pub open spec fn can_reserve(len: int) -> bool {
    len * (usize::BITS / 8) <= isize::MAX
}

/// The tables for the expected number of points are small enough to be reserved.
///
/// The largest has room for all points but one in `m`; half of that share is kept
/// free, as its size is computed by inexact logarithms. With fewer than two
/// connections nothing is reserved.
pub open spec fn can_make_room(m: usize, max_elements: usize) -> bool {
    m < 2 || can_reserve(max_elements - max_elements as int / (2 * m))
}

/// Two distance functions give the same distances.
pub open spec fn same_distances(left: DistFn<u32>, right: DistFn<u32>) -> bool {
    forall|a: Seq<u32>, b: Seq<u32>| #[trigger]
        distance_bits(left, a, b) == distance_bits(right, a, b)
}

/// The distance function gives a distance from `vector` to every point.
pub open spec fn comparable(
    distance: DistFn<u32>,
    vector: Seq<u32>,
    points: Seq<(Seq<u32>, usize)>,
) -> bool {
    forall|i: int|
        0 <= i < points.len() ==> is_distance(
            distance_bits(distance, vector, (#[trigger] points[i]).0),
        )
}

/// The hits are ordered by distance, nearest first.
pub open spec fn nearest_first(hits: Seq<(usize, u32)>) -> bool {
    forall|i: int, j: int|
        0 <= i < j < hits.len() ==> distance_rank(#[trigger] hits[i].1) <= distance_rank(
            #[trigger] hits[j].1,
        )
}

/// The hits are `origins`, point by point: each hit has the number of its origin,
/// and the distance from the query to it.
pub open spec fn hits_of(
    hits: Seq<(usize, u32)>,
    origins: Seq<(Seq<u32>, usize)>,
    distance: DistFn<u32>,
    query: Seq<u32>,
) -> bool {
    &&& origins.len() == hits.len()
    &&& forall|i: int|
        0 <= i < hits.len() ==> (#[trigger] hits[i]).0 == origins[i].1 && hits[i].1
            == distance_bits(distance, query, origins[i].0)
}

/// The hits are distinct points, each with its number and its distance from the
/// query.
pub open spec fn drawn_from(
    hits: Seq<(usize, u32)>,
    points: Seq<(Seq<u32>, usize)>,
    distance: DistFn<u32>,
    query: Seq<u32>,
) -> bool {
    exists|origins: Seq<(Seq<u32>, usize)>|
        #![trigger origins.to_multiset()]
        origins.to_multiset().subset_of(points.to_multiset()) && hits_of(
            hits,
            origins,
            distance,
            query,
        )
}

/// Calls `Hnsw::new`. The new graph holds no point, and is made with the numbers and
/// the distance function that were given. It uses sixteen layers at most, and the
/// expected number of points only to reserve tables.
///
/// The number of connections is at most 256, beyond which the call ends the
/// process. A graph without a layer has no place for a point. A table of the search
/// width is reserved at every insertion.
#[verifier::external_body]
fn graph_new(
    m: usize,
    max_elements: usize,
    max_layer: usize,
    ef_construction: usize,
    distance: DistFn<u32>,
) -> (graph: Graph)
    requires
        m <= 256,
        1 <= max_layer,
        can_make_room(m, max_elements),
        can_reserve(ef_construction as int),
        obeys_distance_model(distance),
    ensures
        graph_points(graph) == Seq::<(Seq<u32>, usize)>::empty(),
        graph_distance(graph) == distance,
        obeys_distance_model(graph_distance(graph)),
        graph_settings(graph) == (m, max_elements, max_layer, ef_construction),
{
    Graph { hnsw: Hnsw::new(m, max_elements, max_layer, ef_construction, distance) }
}

/// Calls `Hnsw::insert`, which adds one point after those of the graph and changes
/// neither its numbers nor its distance function.
///
/// The call evaluates the distance from the new vector to points of the graph, and
/// panics on a result that is NaN or negative. It evaluates distances between
/// points of the graph as well, of which any result will do.
#[verifier::external_body]
fn graph_insert(graph: &mut Graph, vector: &Vec<u32>, id: usize)
    requires
        obeys_distance_model(graph_distance(*old(graph))),
        comparable(graph_distance(*old(graph)), vector@, graph_points(*old(graph))),
    ensures
        graph_points(*final(graph)) == graph_points(*old(graph)).push((vector@, id)),
        graph_distance(*final(graph)) == graph_distance(*old(graph)),
        graph_settings(*final(graph)) == graph_settings(*old(graph)),
{
    graph.hnsw.insert((vector.as_slice(), id))
}

/// Calls `Hnsw::search`. The hits are at most `k` distinct points of the graph,
/// each with its number and its distance from the query, nearest first. Unless the
/// graph is empty or nothing is asked for there is a hit, up to the number of
/// points that the graph can tell apart.
///
/// Which points are hits is left open: the search is approximate. It reserves a
/// table of its width, and panics on a distance that is NaN or negative.
#[verifier::external_body]
fn graph_search(graph: &Graph, query: &[u32], k: usize, ef: usize) -> (hits: Vec<(usize, u32)>)
    requires
        obeys_distance_model(graph_distance(*graph)),
        comparable(graph_distance(*graph), query@, graph_points(*graph)),
        graph_points(*graph).len() > 0 ==> can_reserve(k as int) && can_reserve(ef as int),
    ensures
        hits@ == found(*graph, query@, k, ef),
        hits.len() <= k,
        graph_points(*graph).len() == 0 ==> hits.len() == 0,
        k > 0 && 0 < graph_points(*graph).len() <= i32::MAX ==> hits.len() > 0,
        nearest_first(hits@),
        drawn_from(hits@, graph_points(*graph), graph_distance(*graph), query@),
{
    graph.hnsw.search(query, k, ef).into_iter().map(|n| (n.d_id, n.distance.to_bits())).collect()
}

/// Calls `Hnsw::get_distance`: the distance function that the graph was made with.
#[verifier::external_body]
fn graph_get_distance(graph: &Graph) -> (distance: &DistFn<u32>)
    ensures
        *distance == graph_distance(*graph),
{
    graph.hnsw.get_distance()
}

/// Calls the `eval` of a `DistFn`, which calls the function inside: the pattern of
/// the distance that it gives.
#[verifier::external_body]
pub(crate) fn distance_eval(distance: &DistFn<u32>, a: &[u32], b: &[u32]) -> (bits: u32)
    requires
        obeys_distance_model(*distance),
    ensures
        bits == distance_bits(*distance, a@, b@),
{
    distance.eval(a, b).to_bits()
}

/// A graph under the metric that it measures by.
pub enum HnswIndex {
    Cosine(Graph),
    L2(Graph),
    InnerProduct(Graph),
}

impl HnswIndex {
    /// The metric that the graph measures by.
    pub open spec fn metric(self) -> DistanceMetric {
        match self {
            HnswIndex::Cosine(_) => DistanceMetric::Cosine,
            HnswIndex::L2(_) => DistanceMetric::L2,
            HnswIndex::InnerProduct(_) => DistanceMetric::InnerProduct,
        }
    }

    /// The graph itself.
    pub open spec fn graph(self) -> Graph {
        match self {
            HnswIndex::Cosine(graph) => graph,
            HnswIndex::L2(graph) => graph,
            HnswIndex::InnerProduct(graph) => graph,
        }
    }

    /// An empty graph for the metric, made with the distance function of that
    /// metric.
    pub fn new(
        metric: DistanceMetric,
        m: usize,
        max_elements: usize,
        max_layer: usize,
        ef_construction: usize,
        distances: Distances,
    ) -> (index: Self)
        requires
            m <= 256,
            1 <= max_layer,
            can_make_room(m, max_elements),
            can_reserve(ef_construction as int),
            obeys_distance_model(distances.of(metric)),
        ensures
            index.metric() == metric,
            graph_points(index.graph()) == Seq::<(Seq<u32>, usize)>::empty(),
            graph_distance(index.graph()) == distances.of(metric),
            metric is Cosine ==> index is Cosine && graph_distance(index->Cosine_0)
                == distances.cosine,
            metric is L2 ==> index is L2 && graph_distance(index->L2_0) == distances.l2,
            metric is InnerProduct ==> index is InnerProduct && graph_distance(
                index->InnerProduct_0,
            ) == distances.inner_product,
            graph_settings(index.graph()) == (m, max_elements, max_layer, ef_construction),
    {
        match metric {
            DistanceMetric::Cosine => HnswIndex::Cosine(
                graph_new(m, max_elements, max_layer, ef_construction, distances.cosine),
            ),
            DistanceMetric::L2 => HnswIndex::L2(
                graph_new(m, max_elements, max_layer, ef_construction, distances.l2),
            ),
            DistanceMetric::InnerProduct => HnswIndex::InnerProduct(
                graph_new(m, max_elements, max_layer, ef_construction, distances.inner_product),
            ),
        }
    }

    /// Adds a point to the graph.
    pub fn insert(&mut self, vector: &Vec<u32>, id: usize)
        requires
            obeys_distance_model(graph_distance(old(self).graph())),
            comparable(
                graph_distance(old(self).graph()),
                vector@,
                graph_points(old(self).graph()),
            ),
        ensures
            final(self).metric() == old(self).metric(),
            graph_points(final(self).graph()) == graph_points(old(self).graph()).push(
                (vector@, id),
            ),
            graph_distance(final(self).graph()) == graph_distance(old(self).graph()),
            graph_settings(final(self).graph()) == graph_settings(old(self).graph()),
    {
        match self {
            HnswIndex::Cosine(graph) => graph_insert(graph, vector, id),
            HnswIndex::L2(graph) => graph_insert(graph, vector, id),
            HnswIndex::InnerProduct(graph) => graph_insert(graph, vector, id),
        }
    }

    /// The distance function that the graph measures by.
    pub fn distance(&self) -> (distance: &DistFn<u32>)
        ensures
            *distance == graph_distance(self.graph()),
    {
        match self {
            HnswIndex::Cosine(graph) => graph_get_distance(graph),
            HnswIndex::L2(graph) => graph_get_distance(graph),
            HnswIndex::InnerProduct(graph) => graph_get_distance(graph),
        }
    }

    /// The points nearest to the query, as far as the graph finds them.
    pub fn search(&self, query: &[u32], k: usize, ef_search: usize) -> (hits: Vec<(usize, u32)>)
        requires
            obeys_distance_model(graph_distance(self.graph())),
            comparable(graph_distance(self.graph()), query@, graph_points(self.graph())),
            graph_points(self.graph()).len() > 0 ==> can_reserve(k as int) && can_reserve(
                ef_search as int,
            ),
        ensures
            hits@ == found(self.graph(), query@, k, ef_search),
            hits.len() <= k,
            graph_points(self.graph()).len() == 0 ==> hits.len() == 0,
            k > 0 && 0 < graph_points(self.graph()).len() <= i32::MAX ==> hits.len() > 0,
            nearest_first(hits@),
            drawn_from(
                hits@,
                graph_points(self.graph()),
                graph_distance(self.graph()),
                query@,
            ),
    {
        match self {
            HnswIndex::Cosine(graph) => graph_search(graph, query, k, ef_search),
            HnswIndex::L2(graph) => graph_search(graph, query, k, ef_search),
            HnswIndex::InnerProduct(graph) => graph_search(graph, query, k, ef_search),
        }
    }
}

} // verus!
