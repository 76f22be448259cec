//! The vector index: a graph that answers queries, beside the list of everything
//! that was put into it.
//!
//! The graph cannot be walked, so the list is what is written out. Reading it
//! back makes a new graph and inserts the vectors again.

use crate::codec::{
    begins_with, bincode_decode, bincode_encode, borrowed_entries, decode_failure, decoded,
    encodable, encoding, lemma_decoded, lemma_encoding_len, owned_entries,
};
use crate::error::{VectorError, VectorResult};
use crate::graph::{
    can_make_room, can_reserve, comparable, distance_bits, distance_eval, drawn_from, found,
    graph_distance, graph_points, graph_settings, hits_of, nearest_first, obeys_distance_model,
    Graph, HnswIndex,
};
use crate::metric::{distance_rank, is_distance, usable_distance, DistanceMetric, Distances};
use crate::node::NodeId;
use hnsw_rs::prelude::DistFn;
use vstd::prelude::*;

verus! {

/// Connections per node of the graph; the lowest layer has twice as many.
pub const MAX_CONNECTIONS: usize = 16;

/// Layers of the graph.
pub const MAX_LAYER: usize = 16;

/// Search width during insertion.
pub const EF_CONSTRUCTION: usize = 200;

/// The number of points that room is made for at least.
pub const MIN_CAPACITY: usize = 100_000;

/// The number of further points that room is made for when an index is loaded.
pub const SPARE_CAPACITY: usize = 10_000;

/// A point in the vector space, associated with a node.
#[derive(Clone, Debug)]
pub struct VectorPoint {
    pub node_id: NodeId,
    /// The patterns of the components.
    pub vector: Vec<u32>,
}

/// A vector as it is kept for writing out.
#[derive(Clone, Debug)]
pub struct StoredVector {
    pub node_id: u64,
    /// The patterns of the components.
    pub vector: Vec<u32>,
}

impl View for StoredVector {
    type V = (u64, Seq<u32>);

    open spec fn view(&self) -> (u64, Seq<u32>) {
        (self.node_id, self.vector@)
    }
}

/// The entries that stored vectors stand for.
pub open spec fn stored_entries(stored: Seq<StoredVector>) -> Seq<(u64, Seq<u32>)> {
    Seq::new(stored.len(), |i: int| stored[i]@)
}

/// The point of the graph that an entry becomes.
pub open spec fn point_of(entry: (u64, Seq<u32>)) -> (Seq<u32>, usize) {
    (entry.1, entry.0 as usize)
}

/// The points of the graph that entries become, in their order.
pub open spec fn points_of(entries: Seq<(u64, Seq<u32>)>) -> Seq<(Seq<u32>, usize)> {
    Seq::new(entries.len(), |i: int| point_of(entries[i]))
}

/// The distance function gives a distance from `vector` to the vector of every
/// entry.
pub open spec fn measurable(
    distance: DistFn<u32>,
    vector: Seq<u32>,
    entries: Seq<(u64, Seq<u32>)>,
) -> bool {
    forall|i: int|
        0 <= i < entries.len() ==> is_distance(
            distance_bits(distance, vector, (#[trigger] entries[i]).1),
        )
}

/// The distance function gives a distance from the vector of every entry to those
/// of the entries before it.
pub open spec fn mutually_measurable(
    distance: DistFn<u32>,
    entries: Seq<(u64, Seq<u32>)>,
) -> bool {
    forall|i: int|
        0 <= i < entries.len() ==> measurable(
            distance,
            (#[trigger] entries[i]).1,
            entries.take(i),
        )
}

/// The number of points that room is made for, where there are `len` already.
pub open spec fn capacity(len: int) -> int {
    if len + SPARE_CAPACITY > MIN_CAPACITY {
        len + SPARE_CAPACITY
    } else {
        MIN_CAPACITY as int
    }
}

/// The search width of a query for `k` neighbors: twice their number, as far as that
/// fits.
pub open spec fn search_width(k: usize) -> usize {
    if 2 * k <= usize::MAX {
        (2 * k) as usize
    } else {
        usize::MAX
    }
}

/// The nodes that hits of the graph stand for, each with the pattern of its
/// distance.
pub open spec fn neighbors_of(hits: Seq<(usize, u32)>) -> Seq<(NodeId, u32)> {
    Seq::new(hits.len(), |i: int| (NodeId(hits[i].0 as u64), hits[i].1))
}

/// The error with which bytes that begin with no list are refused.
pub open spec fn refused_for(error: VectorError, bytes: Seq<u8>) -> bool {
    error matches VectorError::IndexError(message) && message@ == "deserialization error: "@
        + decode_failure(bytes, usize::BITS)
}

/// The neighbors are the entries at the places `picks`, none of them twice: each
/// has the node of its entry, and the distance from the query to its vector.
pub open spec fn neighbors_at(
    neighbors: Seq<(NodeId, u32)>,
    picks: Seq<int>,
    entries: Seq<(u64, Seq<u32>)>,
    distance: DistFn<u32>,
    query: Seq<u32>,
) -> bool {
    &&& picks.len() == neighbors.len()
    &&& picks.no_duplicates()
    &&& forall|i: int|
        0 <= i < picks.len() ==> 0 <= #[trigger] picks[i] < entries.len() && neighbors[i] == (
            NodeId((entries[picks[i]].0 as usize) as u64),
            distance_bits(distance, query, entries[picks[i]].1),
        )
}

/// The neighbors are distinct entries, each with its distance from the query.
pub open spec fn neighbors_among(
    neighbors: Seq<(NodeId, u32)>,
    entries: Seq<(u64, Seq<u32>)>,
    distance: DistFn<u32>,
    query: Seq<u32>,
) -> bool {
    exists|picks: Seq<int>| neighbors_at(neighbors, picks, entries, distance, query)
}

/// What an index holds.
pub struct IndexView {
    /// The number of components of its vectors.
    pub dimensions: usize,
    /// The metric it was made for.
    pub metric: DistanceMetric,
    /// What was put into it, in that order.
    pub entries: Seq<(u64, Seq<u32>)>,
    /// The metric that its graph measures by.
    pub measured_by: DistanceMetric,
    /// Its graph.
    pub graph: Graph,
}

impl IndexView {
    /// The graph measures by the metric of the index, with a function that obeys the
    /// distance model. Its points are the entries of the index, inserted in their
    /// order, and the distances between those are distances.
    pub open spec fn consistent(self) -> bool {
        &&& self.measured_by == self.metric
        &&& graph_points(self.graph) == points_of(self.entries)
        &&& obeys_distance_model(self.distance())
        &&& mutually_measurable(self.distance(), self.entries)
        &&& graph_settings(self.graph).0 == MAX_CONNECTIONS
        &&& graph_settings(self.graph).2 == MAX_LAYER
        &&& graph_settings(self.graph).3 == EF_CONSTRUCTION
    }

    /// Every vector of the index has its number of components.
    pub open spec fn uniform(self) -> bool {
        forall|i: int|
            0 <= i < self.entries.len() ==> (#[trigger] self.entries[i]).1.len()
                == self.dimensions
    }

    /// The distance function that the index measures by.
    pub open spec fn distance(self) -> DistFn<u32> {
        graph_distance(self.graph)
    }
}

/// The neighbors answer a query for `k` of them.
pub open spec fn answers(
    neighbors: Seq<(NodeId, u32)>,
    index: IndexView,
    query: Seq<u32>,
    k: usize,
) -> bool {
    &&& neighbors == neighbors_of(found(index.graph, query, k, search_width(k)))
    &&& neighbors.len() <= k
    &&& k > 0 && 0 < index.entries.len() <= i32::MAX ==> neighbors.len() > 0
    &&& forall|i: int, j: int|
        0 <= i < j < neighbors.len() ==> distance_rank((#[trigger] neighbors[i]).1)
            <= distance_rank((#[trigger] neighbors[j]).1)
    &&& neighbors_among(neighbors, index.entries, index.distance(), query)
}

/// The entries that an index is loaded with: none where nothing was saved,
/// otherwise those that the bytes begin with, if they begin with a list.
pub open spec fn loaded(bytes: Option<&[u8]>) -> Option<Seq<(u64, Seq<u32>)>> {
    match bytes {
        None => Some(Seq::empty()),
        Some(bytes) => decoded(bytes@),
    }
}

/// The index is what loading makes of the entries.
pub open spec fn loads_as(
    index: VectorIndex,
    entries: Seq<(u64, Seq<u32>)>,
    dimensions: usize,
    metric: DistanceMetric,
    distance: DistFn<u32>,
) -> bool {
    &&& index.wf()
    &&& index@.dimensions == dimensions
    &&& index@.metric == metric
    &&& index@.entries == entries
    &&& index@.distance() == distance
    &&& graph_settings(index@.graph).1 == capacity(entries.len() as int)
}

/// A wrapper around the graph that also keeps what it was given.
pub struct VectorIndex {
    /// Number of dimensions
    dimensions: usize,
    /// Distance metric
    metric: DistanceMetric,
    /// The graph, under its metric
    hnsw: HnswIndex,
    /// All inserted vectors
    stored_vectors: Vec<StoredVector>,
}

impl View for VectorIndex {
    type V = IndexView;

    closed spec fn view(&self) -> IndexView {
        IndexView {
            dimensions: self.dimensions,
            metric: self.metric,
            entries: stored_entries(self.stored_vectors@),
            measured_by: self.hnsw.metric(),
            graph: self.hnsw.graph(),
        }
    }
}

proof fn lemma_points_push(entries: Seq<(u64, Seq<u32>)>, entry: (u64, Seq<u32>))
    ensures
        points_of(entries.push(entry)) == points_of(entries).push(point_of(entry)),
{
    assert(points_of(entries.push(entry)) =~= points_of(entries).push(point_of(entry)));
}

/// There is room for as many points as memory can hold stored vectors, and some.
proof fn lemma_room(max_elements: usize)
    requires
        max_elements <= usize::MAX / 16 + SPARE_CAPACITY,
    ensures
        can_make_room(MAX_CONNECTIONS, max_elements),
{
    let room = max_elements - max_elements as int / (2 * MAX_CONNECTIONS);
    assert(room == max_elements - max_elements / 32);
    if usize::BITS == 32 {
        assert(room * 4 <= isize::MAX);
    } else {
        assert(room * 8 <= isize::MAX);
    }
}

proof fn lemma_measurable_push(
    distance: DistFn<u32>,
    entries: Seq<(u64, Seq<u32>)>,
    entry: (u64, Seq<u32>),
)
    requires
        mutually_measurable(distance, entries),
        measurable(distance, entry.1, entries),
    ensures
        mutually_measurable(distance, entries.push(entry)),
{
    let longer = entries.push(entry);
    assert forall|i: int| 0 <= i < longer.len() implies measurable(
        distance,
        (#[trigger] longer[i]).1,
        longer.take(i),
    ) by {
        assert(longer.take(i) =~= entries.take(i));
        if i < entries.len() {
            assert(longer[i] == entries[i]);
        } else {
            assert(entries.take(i) =~= entries);
        }
    }
}

proof fn lemma_comparable(
    distance: DistFn<u32>,
    vector: Seq<u32>,
    entries: Seq<(u64, Seq<u32>)>,
)
    requires
        measurable(distance, vector, entries),
    ensures
        comparable(distance, vector, points_of(entries)),
{
    assert forall|i: int| 0 <= i < points_of(entries).len() implies is_distance(
        distance_bits(distance, vector, (#[trigger] points_of(entries)[i]).0),
    ) by {
        assert(points_of(entries)[i].0 == entries[i].1);
    }
}

/// Items that are drawn from a list, none more often than it is there, are found
/// at places of the list that are all different.
proof fn lemma_places<A>(items: Seq<A>, list: Seq<A>) -> (places: Seq<int>)
    requires
        items.to_multiset().subset_of(list.to_multiset()),
    ensures
        places.len() == items.len(),
        places.no_duplicates(),
        forall|i: int|
            0 <= i < places.len() ==> 0 <= #[trigger] places[i] < list.len() && list[places[i]]
                == items[i],
    decreases items.len(),
{
    if items.len() == 0 {
        Seq::empty()
    } else {
        let last = items.last();
        let n = items.len() - 1;
        items.to_multiset_ensures();
        list.to_multiset_ensures();
        assert(items.contains(last)) by {
            assert(items[n] == last);
        }
        assert(items.to_multiset().count(last) > 0);
        assert(list.contains(last));
        let j = choose|j: int| 0 <= j < list.len() && list[j] == last;
        let fewer = list.remove(j);
        assert(items.drop_last() =~= items.remove(n));
        assert(items.drop_last().to_multiset() == items.to_multiset().remove(last));
        assert(fewer.to_multiset() == list.to_multiset().remove(last));
        assert(items.drop_last().to_multiset().subset_of(fewer.to_multiset()));
        let inner = lemma_places(items.drop_last(), fewer);
        let moved = Seq::new(inner.len(), |i: int| if inner[i] < j { inner[i] } else { inner[i] + 1 });
        let places = moved.push(j);
        assert forall|i: int| 0 <= i < places.len() implies 0 <= #[trigger] places[i] < list.len()
            && list[places[i]] == items[i] by {
            if i < n {
                assert(0 <= inner[i] < fewer.len());
                assert(fewer[inner[i]] == items.drop_last()[i]);
            }
        }
        assert(places.no_duplicates()) by {
            assert forall|a: int, b: int|
                0 <= a < places.len() && 0 <= b < places.len() && a != b implies places[a]
                != places[b] by {
                if a < n && b < n {
                    assert(inner[a] != inner[b]);
                }
            }
        }
        places
    }
}

proof fn lemma_answers(hits: Seq<(usize, u32)>, index: IndexView, query: Seq<u32>, k: usize)
    requires
        index.consistent(),
        hits == found(index.graph, query, k, search_width(k)),
        hits.len() <= k,
        k > 0 && 0 < graph_points(index.graph).len() <= i32::MAX ==> hits.len() > 0,
        nearest_first(hits),
        drawn_from(hits, graph_points(index.graph), index.distance(), query),
    ensures
        answers(neighbors_of(hits), index, query, k),
{
    let neighbors = neighbors_of(hits);
    let origins = choose|origins: Seq<(Seq<u32>, usize)>|
        #![trigger origins.to_multiset()]
        origins.to_multiset().subset_of(graph_points(index.graph).to_multiset()) && hits_of(
            hits,
            origins,
            index.distance(),
            query,
        );
    let picks = lemma_places(origins, points_of(index.entries));
    assert forall|i: int| 0 <= i < picks.len() implies 0 <= #[trigger] picks[i]
        < index.entries.len() && neighbors[i] == (
        NodeId((index.entries[picks[i]].0 as usize) as u64),
        distance_bits(index.distance(), query, index.entries[picks[i]].1),
    ) by {
        assert(points_of(index.entries)[picks[i]] == origins[i]);
        assert(hits[i].0 == origins[i].1);
    }
    assert(neighbors_at(neighbors, picks, index.entries, index.distance(), query));
    assert forall|i: int, j: int| 0 <= i < j < neighbors.len() implies distance_rank(
        (#[trigger] neighbors[i]).1,
    ) <= distance_rank((#[trigger] neighbors[j]).1) by {
        assert(hits[i].1 == neighbors[i].1 && hits[j].1 == neighbors[j].1);
    }
}

/// The node of every hit, with the pattern of its distance.
pub fn neighbors(hits: &Vec<(usize, u32)>) -> (r: Vec<(NodeId, u32)>)
    ensures
        r@ == neighbors_of(hits@),
        r.len() == hits.len(),
        forall|i: int|
            0 <= i < hits.len() ==> #[trigger] r[i] == (NodeId(hits[i].0 as u64), hits[i].1),
{
    let mut r: Vec<(NodeId, u32)> = Vec::new();
    let mut i: usize = 0;
    while i < hits.len()
        invariant
            i <= hits.len(),
            r@ == neighbors_of(hits@.take(i as int)),
        decreases hits.len() - i,
    {
        r.push((NodeId::new(hits[i].0 as u64), hits[i].1));
        i += 1;
        assert(r@ =~= neighbors_of(hits@.take(i as int)));
    }
    assert(hits@.take(i as int) =~= hits@);
    r
}

/// The bytes that stored vectors are written out as.
pub fn encode_vectors(stored: &Vec<StoredVector>) -> (r: VectorResult<Vec<u8>>)
    ensures
        r is Ok,
        r->Ok_0@ == encoding(stored_entries(stored@)),
{
    let mut list: Vec<(u64, &Vec<u32>)> = Vec::new();
    let mut i: usize = 0;
    while i < stored.len()
        invariant
            i <= stored.len(),
            borrowed_entries(list@) == stored_entries(stored@.take(i as int)),
        decreases stored.len() - i,
    {
        let ghost before = list@;
        list.push((stored[i].node_id, &stored[i].vector));
        proof {
            assert(borrowed_entries(list@) =~= borrowed_entries(before).push(stored[i as int]@));
            assert(stored_entries(stored@.take(i + 1)) =~= stored_entries(
                stored@.take(i as int),
            ).push(stored[i as int]@));
        }
        i += 1;
    }
    assert(stored@.take(i as int) =~= stored@);
    match bincode_encode(&list) {
        Ok(bytes) => Ok(bytes),
        Err(text) => {
            let mut message = "serialization error: ".to_string();
            message.append(text.as_str());
            Err(VectorError::IndexError(message))
        },
    }
}

/// The stored vectors that bytes begin with.
pub fn decode_vectors(bytes: &[u8]) -> (r: VectorResult<Vec<StoredVector>>)
    ensures
        match decoded(bytes@) {
            Some(entries) => r is Ok && stored_entries(r->Ok_0@) == entries,
            None => r is Err && refused_for(r->Err_0, bytes@),
        },
        r is Ok ==> begins_with(bytes@, stored_entries(r->Ok_0@)),
{
    match bincode_decode(bytes) {
        Ok(list) => {
            let mut stored: Vec<StoredVector> = Vec::new();
            let ghost entries = owned_entries(list@);
            for item in iter: list
                invariant
                    iter.seq() == list@,
                    stored_entries(stored@) == owned_entries(list@.take(iter.index())),
            {
                let ghost before = stored@;
                let (node_id, vector) = item;
                stored.push(StoredVector { node_id, vector });
                proof {
                    let i = iter.index();
                    assert(stored_entries(stored@) =~= stored_entries(before).push(
                        (list@[i].0, list@[i].1@),
                    ));
                    assert(owned_entries(list@.take(i + 1)) =~= owned_entries(list@.take(i)).push(
                        (list@[i].0, list@[i].1@),
                    ));
                }
            }
            proof {
                assert(list@.take(list@.len() as int) =~= list@);
                lemma_decoded(bytes@, entries);
            }
            Ok(stored)
        },
        Err(text) => {
            let mut message = "deserialization error: ".to_string();
            message.append(text.as_str());
            Err(VectorError::IndexError(message))
        },
    }
}

/// Whether the distance function gives a distance from `vector` to each of the
/// first `len` stored vectors.
fn measures(
    distance: &DistFn<u32>,
    vector: &[u32],
    stored: &Vec<StoredVector>,
    len: usize,
) -> (r: bool)
    requires
        obeys_distance_model(*distance),
        len <= stored.len(),
    ensures
        r == measurable(*distance, vector@, stored_entries(stored@).take(len as int)),
{
    let ghost entries = stored_entries(stored@);
    let mut i: usize = 0;
    while i < len
        invariant
            i <= len <= stored.len(),
            obeys_distance_model(*distance),
            entries == stored_entries(stored@),
            measurable(*distance, vector@, entries.take(i as int)),
        decreases len - i,
    {
        let bits: u32 = distance_eval(distance, vector, stored[i].vector.as_slice());
        assert(entries.take(len as int)[i as int] == stored[i as int]@);
        if !usable_distance(bits) {
            return false;
        }
        proof {
            assert forall|j: int| 0 <= j < i + 1 implies is_distance(
                distance_bits(*distance, vector@, (#[trigger] entries.take(i + 1)[j]).1),
            ) by {
                if j < i {
                    assert(entries.take(i + 1)[j] == entries.take(i as int)[j]);
                }
            }
        }
        i += 1;
    }
    true
}

/// Whether the distance function gives a distance from each stored vector to those
/// before it.
fn measures_mutually(distance: &DistFn<u32>, stored: &Vec<StoredVector>) -> (r: bool)
    requires
        obeys_distance_model(*distance),
    ensures
        r == mutually_measurable(*distance, stored_entries(stored@)),
{
    let ghost entries = stored_entries(stored@);
    let mut i: usize = 0;
    while i < stored.len()
        invariant
            i <= stored.len(),
            obeys_distance_model(*distance),
            entries == stored_entries(stored@),
            forall|j: int|
                0 <= j < i ==> measurable(
                    *distance,
                    (#[trigger] entries[j]).1,
                    entries.take(j),
                ),
        decreases stored.len() - i,
    {
        assert(entries[i as int] == stored[i as int]@);
        if !measures(distance, stored[i].vector.as_slice(), stored, i) {
            return false;
        }
        i += 1;
    }
    true
}

impl VectorIndex {
    /// The index holds together: see `IndexView::consistent`.
    pub open spec fn wf(self) -> bool {
        self@.consistent()
    }

    /// The entries of an index can be written out.
    pub proof fn lemma_encodable(&self)
        ensures
            encodable(self@.entries),
    {
        assert(self@.entries.len() == self.stored_vectors.len());
        assert forall|i: int| 0 <= i < self@.entries.len() implies (
        #[trigger] self@.entries[i]).1.len() <= u64::MAX by {
            let vector = self.stored_vectors@[i].vector;
            assert(vector@.len() == vector.len());
        }
    }

    /// Create a new vector index
    pub fn new(dimensions: usize, metric: DistanceMetric, distances: Distances) -> (index: Self)
        requires
            obeys_distance_model(distances.of(metric)),
        ensures
            index.wf(),
            index@.dimensions == dimensions,
            index@.metric == metric,
            index@.entries.len() == 0,
            index@.uniform(),
            index@.distance() == distances.of(metric),
            metric is Cosine ==> index@.distance() == distances.cosine,
            metric is L2 ==> index@.distance() == distances.l2,
            metric is InnerProduct ==> index@.distance() == distances.inner_product,
            graph_settings(index@.graph).1 == capacity(0),
            graph_settings(index@.graph) == (16usize, 100_000usize, 16usize, 200usize),
    {
        proof {
            lemma_room(MIN_CAPACITY);
        }
        let hnsw = HnswIndex::new(
            metric,
            MAX_CONNECTIONS,
            MIN_CAPACITY,
            MAX_LAYER,
            EF_CONSTRUCTION,
            distances,
        );
        let index = VectorIndex { dimensions, metric, hnsw, stored_vectors: Vec::new() };
        assert(graph_points(index@.graph) =~= points_of(index@.entries));
        index
    }

    /// Add a vector to the index
    ///
    /// A vector with another number of components is refused. The distance to every
    /// vector of the index has to be one, neither NaN nor negative.
    pub fn add(&mut self, node_id: NodeId, vector: &Vec<u32>) -> (r: VectorResult<()>)
        requires
            old(self).wf(),
            vector.len() == old(self)@.dimensions ==> measurable(
                old(self)@.distance(),
                vector@,
                old(self)@.entries,
            ),
        ensures
            final(self).wf(),
            vector.len() != old(self)@.dimensions ==> r == VectorResult::<()>::Err(
                VectorError::DimensionMismatch {
                    expected: old(self)@.dimensions,
                    got: vector.len(),
                },
            ) && *final(self) == *old(self),
            vector.len() == old(self)@.dimensions ==> r == VectorResult::<()>::Ok(())
                && final(self)@.entries == old(self)@.entries.push((node_id.0, vector@)),
            old(self)@.uniform() ==> final(self)@.uniform(),
            final(self)@.dimensions == old(self)@.dimensions,
            final(self)@.metric == old(self)@.metric,
            final(self)@.distance() == old(self)@.distance(),
            graph_settings(final(self)@.graph) == graph_settings(old(self)@.graph),
    {
        if vector.len() != self.dimensions {
            return Err(
                VectorError::DimensionMismatch { expected: self.dimensions, got: vector.len() },
            );
        }
        proof {
            lemma_comparable(self@.distance(), vector@, self@.entries);
            lemma_points_push(self@.entries, (node_id.0, vector@));
            lemma_measurable_push(self@.distance(), self@.entries, (node_id.0, vector@));
        }
        self.hnsw.insert(vector, node_id.0 as usize);
        let copy = vector.clone();
        assert(copy@ =~= vector@);
        self.stored_vectors.push(StoredVector { node_id: node_id.0, vector: copy });
        assert(self@.entries =~= old(self)@.entries.push((node_id.0, vector@)));
        Ok(())
    }

    /// Search for nearest neighbors
    ///
    /// A query with another number of components is refused. The neighbors are what
    /// the graph finds with a search width of twice their number, as far as that fits:
    /// at most `k` of the vectors of the index, nearest first.
    pub fn search(&self, query: &[u32], k: usize) -> (r: VectorResult<Vec<(NodeId, u32)>>)
        requires
            self.wf(),
            query@.len() == self@.dimensions ==> measurable(
                self@.distance(),
                query@,
                self@.entries,
            ),
            query@.len() == self@.dimensions && self@.entries.len() > 0 ==> can_reserve(
                search_width(k) as int,
            ),
        ensures
            query@.len() != self@.dimensions ==> r == VectorResult::<Vec<(NodeId, u32)>>::Err(
                VectorError::DimensionMismatch {
                    expected: self@.dimensions,
                    got: query.len(),
                },
            ),
            query@.len() == self@.dimensions ==> r is Ok && answers(
                r->Ok_0@,
                self@,
                query@,
                k,
            ),
            query@.len() == self@.dimensions ==> r->Ok_0.len() == found(
                self@.graph,
                query@,
                k,
                search_width(k),
            ).len() && forall|i: int|
                0 <= i < r->Ok_0.len() ==> #[trigger] r->Ok_0[i] == (
                    NodeId(found(self@.graph, query@, k, search_width(k))[i].0 as u64),
                    found(self@.graph, query@, k, search_width(k))[i].1,
                ),
    {
        if query.len() != self.dimensions {
            return Err(
                VectorError::DimensionMismatch { expected: self.dimensions, got: query.len() },
            );
        }
        let ef_search: usize = if k <= usize::MAX / 2 { k * 2 } else { usize::MAX };
        proof {
            lemma_comparable(self@.distance(), query@, self@.entries);
            let pointer = usize::BITS / 8;
            assert(k * pointer <= ef_search * pointer) by (nonlinear_arith)
                requires
                    0 <= k <= ef_search,
                    0 <= pointer,
            ;
        }
        let hits = self.hnsw.search(query, k, ef_search);
        let r = neighbors(&hits);
        proof {
            lemma_answers(hits@, self@, query@, k);
        }
        Ok(r)
    }

    /// Get dimensions
    pub fn dimensions(&self) -> (r: usize)
        ensures
            r == self@.dimensions,
    {
        self.dimensions
    }

    /// Get metric
    pub fn metric(&self) -> (r: DistanceMetric)
        ensures
            r == self@.metric,
    {
        self.metric
    }

    /// Get count of stored vectors
    pub fn len(&self) -> (r: usize)
        ensures
            r == self@.entries.len(),
    {
        self.stored_vectors.len()
    }

    /// Check if index is empty
    pub fn is_empty(&self) -> (r: bool)
        ensures
            r == (self@.entries.len() == 0),
    {
        self.stored_vectors.len() == 0
    }

    /// The bytes to save the index as: the stored vectors, and nothing else.
    pub fn dump(&self) -> (r: VectorResult<Vec<u8>>)
        ensures
            r is Ok,
            r->Ok_0@ == encoding(self@.entries),
    {
        encode_vectors(&self.stored_vectors)
    }

    /// The index that stored vectors make: they are inserted, in their order, into a
    /// new graph for the metric.
    ///
    /// As a stored vector takes sixteen bytes at least, memory has no room for more
    /// of them than are accepted.
    pub fn from_stored(
        stored_vectors: Vec<StoredVector>,
        dimensions: usize,
        metric: DistanceMetric,
        distances: Distances,
    ) -> (index: Self)
        requires
            stored_vectors.len() <= usize::MAX / 16,
            obeys_distance_model(distances.of(metric)),
            mutually_measurable(distances.of(metric), stored_entries(stored_vectors@)),
        ensures
            index.wf(),
            index@.dimensions == dimensions,
            index@.metric == metric,
            index@.entries == stored_entries(stored_vectors@),
            index@.entries.len() == stored_vectors.len(),
            forall|i: int|
                0 <= i < stored_vectors.len() ==> #[trigger] index@.entries[i] == (
                    stored_vectors[i].node_id,
                    stored_vectors[i].vector@,
                ),
            index@.distance() == distances.of(metric),
            metric is Cosine ==> index@.distance() == distances.cosine,
            metric is L2 ==> index@.distance() == distances.l2,
            metric is InnerProduct ==> index@.distance() == distances.inner_product,
            graph_settings(index@.graph).1 == capacity(stored_vectors.len() as int),
            graph_settings(index@.graph).0 == 16,
            graph_settings(index@.graph).2 == 16,
            graph_settings(index@.graph).3 == 200,
    {
        let ghost entries = stored_entries(stored_vectors@);
        let wanted: usize = stored_vectors.len() + SPARE_CAPACITY;
        let max_elements: usize = if wanted > MIN_CAPACITY { wanted } else { MIN_CAPACITY };
        proof {
            lemma_room(max_elements);
        }
        let mut hnsw = HnswIndex::new(
            metric,
            MAX_CONNECTIONS,
            max_elements,
            MAX_LAYER,
            EF_CONSTRUCTION,
            distances,
        );
        assert(graph_points(hnsw.graph()) =~= points_of(entries.take(0)));
        let mut i: usize = 0;
        while i < stored_vectors.len()
            invariant
                i <= stored_vectors.len(),
                entries == stored_entries(stored_vectors@),
                obeys_distance_model(distances.of(metric)),
                mutually_measurable(distances.of(metric), entries),
                hnsw.metric() == metric,
                graph_distance(hnsw.graph()) == distances.of(metric),
                graph_settings(hnsw.graph()) == (
                    MAX_CONNECTIONS,
                    max_elements,
                    MAX_LAYER,
                    EF_CONSTRUCTION,
                ),
                graph_points(hnsw.graph()) == points_of(entries.take(i as int)),
            decreases stored_vectors.len() - i,
        {
            proof {
                assert(entries[i as int] == stored_vectors[i as int]@);
                lemma_comparable(
                    distances.of(metric),
                    entries[i as int].1,
                    entries.take(i as int),
                );
                lemma_points_push(entries.take(i as int), entries[i as int]);
                assert(entries.take(i + 1) =~= entries.take(i as int).push(entries[i as int]));
            }
            hnsw.insert(&stored_vectors[i].vector, stored_vectors[i].node_id as usize);
            i += 1;
        }
        assert(entries.take(i as int) =~= entries);
        VectorIndex { dimensions, metric, hnsw, stored_vectors }
    }

    /// Load an index from the bytes that it was saved as, or make a new one where
    /// nothing was saved.
    ///
    /// The vectors are not held against `dimensions`. The distances between them have
    /// to be distances, neither NaN nor negative.
    pub fn load(
        bytes: Option<&[u8]>,
        dimensions: usize,
        metric: DistanceMetric,
        distances: Distances,
    ) -> (r: VectorResult<Self>)
        requires
            obeys_distance_model(distances.of(metric)),
            loaded(bytes) is Some ==> mutually_measurable(
                distances.of(metric),
                loaded(bytes)->Some_0,
            ),
        ensures
            match loaded(bytes) {
                Some(entries) => r is Ok && loads_as(
                    r->Ok_0,
                    entries,
                    dimensions,
                    metric,
                    distances.of(metric),
                ),
                None => r is Err && refused_for(r->Err_0, bytes->Some_0@),
            },
            bytes is None ==> r is Ok && r->Ok_0@.entries.len() == 0,
            bytes is Some ==> match decoded(bytes->Some_0@) {
                Some(entries) => r is Ok && r->Ok_0@.entries == entries,
                None => r is Err && r->Err_0 is IndexError,
            },
            r is Ok ==> r->Ok_0@.dimensions == dimensions && r->Ok_0@.metric == metric,
            r is Ok && metric is Cosine ==> r->Ok_0@.distance() == distances.cosine,
            r is Ok && metric is L2 ==> r->Ok_0@.distance() == distances.l2,
            r is Ok && metric is InnerProduct ==> r->Ok_0@.distance() == distances.inner_product,
    {
        match bytes {
            None => {
                let index = VectorIndex::new(dimensions, metric, distances);
                assert(index@.entries =~= Seq::<(u64, Seq<u32>)>::empty());
                Ok(index)
            },
            Some(bytes) => match decode_vectors(bytes) {
                Ok(stored) => {
                    proof {
                        assert(bytes@.len() == bytes.len());
                        lemma_encoding_len(stored_entries(stored@));
                    }
                    Ok(VectorIndex::from_stored(stored, dimensions, metric, distances))
                },
                Err(error) => Err(error),
            },
        }
    }

    /// Adds a vector as `add` does, where the distance to every vector of the index
    /// is a distance, and otherwise does nothing.
    pub fn checked_add(&mut self, node_id: NodeId, vector: &Vec<u32>) -> (r: Option<
        VectorResult<()>,
    >)
        requires
            old(self).wf(),
        ensures
            final(self).wf(),
            r is None <==> vector.len() == old(self)@.dimensions && !measurable(
                old(self)@.distance(),
                vector@,
                old(self)@.entries,
            ),
            r is None ==> *final(self) == *old(self),
            vector.len() != old(self)@.dimensions ==> r == Some(
                VectorResult::<()>::Err(
                    VectorError::DimensionMismatch {
                        expected: old(self)@.dimensions,
                        got: vector.len(),
                    },
                ),
            ) && *final(self) == *old(self),
            r is Some && vector.len() == old(self)@.dimensions ==> r == Some(
                VectorResult::<()>::Ok(()),
            ) && final(self)@.entries == old(self)@.entries.push((node_id.0, vector@)),
            old(self)@.uniform() ==> final(self)@.uniform(),
            final(self)@.dimensions == old(self)@.dimensions,
            final(self)@.metric == old(self)@.metric,
            final(self)@.distance() == old(self)@.distance(),
            graph_settings(final(self)@.graph) == graph_settings(old(self)@.graph),
    {
        if vector.len() == self.dimensions {
            assert(self@.entries.take(self@.entries.len() as int) =~= self@.entries);
            if !measures(
                self.hnsw.distance(),
                vector.as_slice(),
                &self.stored_vectors,
                self.stored_vectors.len(),
            ) {
                return None;
            }
        }
        Some(self.add(node_id, vector))
    }

    /// Searches as `search` does, where the distance to every vector of the index is
    /// a distance.
    pub fn checked_search(&self, query: &[u32], k: usize) -> (r: Option<
        VectorResult<Vec<(NodeId, u32)>>,
    >)
        requires
            self.wf(),
            query@.len() == self@.dimensions && self@.entries.len() > 0 ==> can_reserve(
                search_width(k) as int,
            ),
        ensures
            r is None <==> query@.len() == self@.dimensions && !measurable(
                self@.distance(),
                query@,
                self@.entries,
            ),
            query@.len() != self@.dimensions ==> r == Some(
                VectorResult::<Vec<(NodeId, u32)>>::Err(
                    VectorError::DimensionMismatch {
                        expected: self@.dimensions,
                        got: query.len(),
                    },
                ),
            ),
            r is Some && query@.len() == self@.dimensions ==> r->Some_0 is Ok && answers(
                r->Some_0->Ok_0@,
                self@,
                query@,
                k,
            ),
    {
        if query.len() == self.dimensions {
            assert(self@.entries.take(self@.entries.len() as int) =~= self@.entries);
            if !measures(
                self.hnsw.distance(),
                query,
                &self.stored_vectors,
                self.stored_vectors.len(),
            ) {
                return None;
            }
        }
        Some(self.search(query, k))
    }

    /// Loads an index as `load` does, where the distances between the vectors are
    /// distances.
    pub fn checked_load(
        bytes: Option<&[u8]>,
        dimensions: usize,
        metric: DistanceMetric,
        distances: Distances,
    ) -> (r: Option<VectorResult<Self>>)
        requires
            obeys_distance_model(distances.of(metric)),
        ensures
            r is None <==> loaded(bytes) is Some && !mutually_measurable(
                distances.of(metric),
                loaded(bytes)->Some_0,
            ),
            r is Some ==> match loaded(bytes) {
                Some(entries) => r->Some_0 is Ok && loads_as(
                    r->Some_0->Ok_0,
                    entries,
                    dimensions,
                    metric,
                    distances.of(metric),
                ),
                None => r->Some_0 is Err && refused_for(r->Some_0->Err_0, bytes->Some_0@),
            },
            bytes is None ==> r is Some,
            r is Some && bytes is None ==> r->Some_0 is Ok && r->Some_0->Ok_0@.entries.len() == 0,
            bytes is Some && decoded(bytes->Some_0@) is None ==> r is Some && r->Some_0 is Err
                && r->Some_0->Err_0 is IndexError,
            r is Some && bytes is Some && decoded(bytes->Some_0@) is Some ==> r->Some_0 is Ok
                && r->Some_0->Ok_0@.entries == decoded(bytes->Some_0@)->Some_0,
    {
        match bytes {
            None => Some(VectorIndex::load(None, dimensions, metric, distances)),
            Some(bytes) => match decode_vectors(bytes) {
                Ok(stored) => {
                    proof {
                        assert(bytes@.len() == bytes.len());
                        lemma_encoding_len(stored_entries(stored@));
                    }
                    if !measures_mutually(distances.get(metric), &stored) {
                        return None;
                    }
                    Some(Ok(VectorIndex::from_stored(stored, dimensions, metric, distances)))
                },
                Err(error) => Some(Err(error)),
            },
        }
    }
}

} // verus!
