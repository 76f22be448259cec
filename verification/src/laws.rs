//! What holds of the library as a whole.

use crate::codec::{
    borrowed_entries, decode_failure, decoded, encoding, law_bytes_are_what_they_begin_with,
    law_cut_list_is_none, lemma_decoded, owned_entries,
};
use crate::error::VectorError;
use crate::graph::{
    can_make_room, can_reserve, distance_bits, found, graph_distance, graph_points,
    graph_settings, same_distances, Graph, HnswIndex,
};
use crate::index::{
    answers, loaded, loads_as, measurable, mutually_measurable, neighbors_at, neighbors_of,
    points_of, refused_for, search_width, stored_entries, IndexView, StoredVector, VectorIndex,
};
use crate::metric::{
    clamped, cosine_clamped, distance_rank, is_at_most_zero, is_distance, is_finite, is_nan,
    is_signed, DistanceMetric, Distances,
};
use crate::narrow::{
    is_nearest, law_narrowing_keeps_order, law_one_nearest_pattern, law_patterns_are_ordered,
    lemma_zero_and_one, value_f32, value_f64,
};
use crate::node::NodeId;
use hnsw_rs::prelude::DistFn;
use vstd::prelude::*;

verus! {

/// What the fields of a double-precision pattern say of the number: an exponent of
/// all ones is that of infinity and NaN, the highest bit is the sign, and the
/// patterns of zeros and negative numbers are those that are at most zero.
pub proof fn law_patterns_of_numbers(bits: u64)
    ensures
        is_finite(bits) <==> (bits / 0x10_0000_0000_0000) % 0x800 != 0x7ff,
        is_nan(bits) <==> (bits / 0x10_0000_0000_0000) % 0x800 == 0x7ff && bits
            % 0x10_0000_0000_0000 != 0,
        is_signed(bits) <==> bits / 0x8000_0000_0000_0000 == 1,
        is_at_most_zero(bits) <==> bits == 0 || 0x8000_0000_0000_0000 <= bits
            <= 0xfff0_0000_0000_0000,
{
}

/// The patterns of distances are those of zeros, positive numbers and infinity, and
/// they are ranked as the numbers are ordered.
pub proof fn law_distances_are_ranked_by_value(a: u32, b: u32)
    ensures
        is_distance(a) <==> (a < 0x8000_0000 || a % 0x8000_0000 == 0) && !((a / 0x80_0000) % 0x100
            == 0xff && a % 0x80_0000 != 0),
        is_distance(a) && is_distance(b) ==> (distance_rank(a) <= distance_rank(b) <==> value_f32(
            a % 0x8000_0000,
        ) <= value_f32(b % 0x8000_0000)),
{
    if is_distance(a) && is_distance(b) {
        law_patterns_are_ordered(a % 0x8000_0000, b % 0x8000_0000);
    }
}

/// An inner-product distance is reported as computed, up to single precision, where
/// the computed one is a number without a sign; as zero where it is negative; and as
/// one where it is no finite number.
pub proof fn law_inner_product_distance(r: u32, dist: u64)
    requires
        is_nearest(r, clamped(dist)),
    ensures
        dist < 0x7ff0_0000_0000_0000 ==> is_nearest(r, dist),
        0x8000_0000_0000_0000 <= dist < 0xfff0_0000_0000_0000 ==> r == 0,
        (dist / 0x10_0000_0000_0000) % 0x800 == 0x7ff ==> r == 0x3f80_0000,
{
    law_patterns_of_numbers(dist);
    lemma_zero_and_one();
    if 0x8000_0000_0000_0000 <= dist < 0xfff0_0000_0000_0000 {
        law_one_nearest_pattern(r, 0, 0);
    }
    if (dist / 0x10_0000_0000_0000) % 0x800 == 0x7ff {
        law_one_nearest_pattern(r, 0x3f80_0000, 0x3ff0_0000_0000_0000);
    }
}

/// A vector whose squared norm is at most zero is at cosine distance one from every
/// vector. Between other vectors, the distance is reported as computed, up to
/// single precision, where the computed one is a number without a sign; as zero where
/// it is negative; and as one where it is no finite number.
pub proof fn law_cosine_distance(r: u32, norm_a: u64, norm_b: u64, dist: u64)
    requires
        is_nearest(r, cosine_clamped(norm_a, norm_b, dist)),
    ensures
        norm_a == 0 || norm_b == 0 ==> r == 0x3f80_0000,
        0x8000_0000_0000_0000 <= norm_a <= 0xfff0_0000_0000_0000 ==> r == 0x3f80_0000,
        0x8000_0000_0000_0000 <= norm_b <= 0xfff0_0000_0000_0000 ==> r == 0x3f80_0000,
        (0 < norm_a < 0x8000_0000_0000_0000 || norm_a > 0xfff0_0000_0000_0000) && (0 < norm_b
            < 0x8000_0000_0000_0000 || norm_b > 0xfff0_0000_0000_0000) ==> {
            &&& dist < 0x7ff0_0000_0000_0000 ==> is_nearest(r, dist)
            &&& 0x8000_0000_0000_0000 <= dist < 0xfff0_0000_0000_0000 ==> r == 0
            &&& (dist / 0x10_0000_0000_0000) % 0x800 == 0x7ff ==> r == 0x3f80_0000
        },
{
    law_patterns_of_numbers(norm_a);
    law_patterns_of_numbers(norm_b);
    lemma_zero_and_one();
    if is_at_most_zero(norm_a) || is_at_most_zero(norm_b) {
        law_one_nearest_pattern(r, 0x3f80_0000, 0x3ff0_0000_0000_0000);
    } else {
        law_inner_product_distance(r, dist);
    }
}

/// The number that a double-precision pattern stands for, with its sign.
pub open spec fn signed_value(bits: u64) -> int {
    if bits < 0x8000_0000_0000_0000 {
        value_f64(bits) as int
    } else {
        -value_f64((bits - 0x8000_0000_0000_0000) as u64)
    }
}

/// Of two computed distances, the lesser is never reported as the greater, be they
/// negative or not.
pub proof fn law_reported_distances_keep_order(r_a: u32, r_b: u32, dist_a: u64, dist_b: u64)
    requires
        is_nearest(r_a, clamped(dist_a)),
        is_nearest(r_b, clamped(dist_b)),
        (dist_a / 0x10_0000_0000_0000) % 0x800 != 0x7ff,
        (dist_b / 0x10_0000_0000_0000) % 0x800 != 0x7ff,
        signed_value(dist_a) <= signed_value(dist_b),
    ensures
        r_a <= r_b,
{
    law_patterns_of_numbers(dist_a);
    law_patterns_of_numbers(dist_b);
    law_inner_product_distance(r_a, dist_a);
    law_inner_product_distance(r_b, dist_b);
    lemma_zero_and_one();
    let a = if is_signed(dist_a) { 0 } else { dist_a };
    let b = if is_signed(dist_b) { 0 } else { dist_b };
    law_narrowing_keeps_order(r_a, r_b, a, b);
}

/// Every metric has the distance function that bears its name, whatever the others
/// are.
pub proof fn law_metric_picks_its_function(distances: Distances)
    ensures
        distances.of(DistanceMetric::Cosine) == distances.cosine,
        distances.of(DistanceMetric::L2) == distances.l2,
        distances.of(DistanceMetric::InnerProduct) == distances.inner_product,
{
}

/// What is reported as a cosine or inner-product distance is always a distance,
/// neither NaN nor negative, whatever the formula gave.
pub proof fn law_resolved_distance_is_a_distance(
    cosine: u32,
    inner_product: u32,
    norm_a: u64,
    norm_b: u64,
    dist: u64,
)
    requires
        is_nearest(cosine, cosine_clamped(norm_a, norm_b, dist)),
        is_nearest(inner_product, clamped(dist)),
    ensures
        is_distance(cosine),
        is_distance(inner_product),
        is_finite(clamped(dist)) && !is_signed(clamped(dist)),
{
}

/// A computed distance that is a finite number and not negative is reported as it
/// is, up to single precision.
pub proof fn law_good_distance_is_kept(norm_a: u64, norm_b: u64, dist: u64)
    requires
        is_finite(dist),
        !is_signed(dist),
    ensures
        clamped(dist) == dist,
        !is_at_most_zero(norm_a) && !is_at_most_zero(norm_b) ==> cosine_clamped(
            norm_a,
            norm_b,
            dist,
        ) == dist,
{
}

/// A computed distance that is a number without a sign is the one that is reported
/// between two vectors with positive squared norms, however small; a negative one
/// counts as zero there.
pub proof fn law_positive_norms_decide_nothing(norm_a: u64, norm_b: u64, dist: u64)
    requires
        0 < norm_a < 0x8000_0000_0000_0000,
        0 < norm_b < 0x8000_0000_0000_0000,
    ensures
        dist < 0x7ff0_0000_0000_0000 ==> cosine_clamped(norm_a, norm_b, dist) == dist,
        0x8000_0000_0000_0000 <= dist < 0xfff0_0000_0000_0000 ==> cosine_clamped(
            norm_a,
            norm_b,
            dist,
        ) == 0 && clamped(dist) == 0,
{
}

/// What an index is saved as is read back as the entries of the index, also where
/// other bytes follow.
pub proof fn law_saved_entries_are_read_back(index: VectorIndex, tail: Seq<u8>)
    ensures
        decoded(encoding(index@.entries)) == Some(index@.entries),
        decoded(encoding(index@.entries) + tail) == Some(index@.entries),
{
    let bytes = encoding(index@.entries);
    index.lemma_encodable();
    assert(bytes.is_prefix_of(bytes));
    assert(bytes.is_prefix_of(bytes + tail));
    lemma_decoded(bytes, index@.entries);
    lemma_decoded(bytes + tail, index@.entries);
}

/// An index can be loaded from what it was saved as, for its own metric and with a
/// function that gives the same distances: the bytes are a list, and the distances
/// between its vectors are distances.
pub proof fn law_saved_index_can_be_loaded(index: VectorIndex, saved: &[u8], distances: Distances)
    requires
        index.wf(),
        saved@ == encoding(index@.entries),
        same_distances(distances.of(index@.metric), index@.distance()),
    ensures
        loaded(Some(saved)) == Some(index@.entries),
        mutually_measurable(distances.of(index@.metric), index@.entries),
{
    law_saved_entries_are_read_back(index, Seq::empty());
    let distance = distances.of(index@.metric);
    let entries = index@.entries;
    assert forall|i: int| 0 <= i < entries.len() implies measurable(
        distance,
        (#[trigger] entries[i]).1,
        entries.take(i),
    ) by {
        assert(measurable(index@.distance(), entries[i].1, entries.take(i)));
    }
}

/// An index that was loaded from what another was saved as has the same vectors in
/// its graph, inserted in the same order, measured by the metric that was asked for.
pub proof fn law_loaded_index_restores_the_graph(
    index: VectorIndex,
    loaded_index: VectorIndex,
    dimensions: usize,
    metric: DistanceMetric,
    distances: Distances,
)
    requires
        index.wf(),
        loads_as(loaded_index, index@.entries, dimensions, metric, distances.of(metric)),
    ensures
        graph_points(loaded_index@.graph) == graph_points(index@.graph),
        loaded_index@.measured_by == metric,
        loaded_index@.distance() == distances.of(metric),
{
}

/// Stored vectors are written out and read back one by one: each stands for the entry
/// in its place, with its node number and all of its components, in whatever form it
/// is handed on.
pub proof fn law_stored_vectors_are_their_entries(
    stored: Seq<StoredVector>,
    borrowed: Seq<(u64, &Vec<u32>)>,
    owned: Seq<(u64, Vec<u32>)>,
    i: int,
)
    ensures
        stored_entries(stored).len() == stored.len(),
        borrowed_entries(borrowed).len() == borrowed.len(),
        owned_entries(owned).len() == owned.len(),
        0 <= i < stored.len() ==> stored_entries(stored)[i].0 == stored[i].node_id
            && stored_entries(stored)[i].1 == stored[i].vector@,
        0 <= i < borrowed.len() ==> borrowed_entries(borrowed)[i].0 == borrowed[i].0
            && borrowed_entries(borrowed)[i].1 == borrowed[i].1@,
        0 <= i < owned.len() ==> owned_entries(owned)[i].0 == owned[i].0 && owned_entries(
            owned,
        )[i].1 == owned[i].1@,
{
}

/// Bytes are loaded as the list that they begin with, whatever their length, and are
/// refused where they begin with none. Where nothing was saved there is nothing to
/// load.
pub proof fn law_bytes_are_loaded_or_refused(bytes: &[u8], entries: Seq<(u64, Seq<u32>)>)
    requires
        entries.len() <= u64::MAX,
        forall|i: int| 0 <= i < entries.len() ==> (#[trigger] entries[i]).1.len() <= u64::MAX,
    ensures
        loaded(Some(bytes)) == decoded(bytes@),
        loaded(Some(bytes)) == Some(entries) <==> encoding(entries).is_prefix_of(bytes@),
        loaded(Some(bytes)) is Some ==> encoding(loaded(Some(bytes))->Some_0).is_prefix_of(bytes@),
        loaded(None) == Some(Seq::<(u64, Seq<u32>)>::empty()),
{
    law_bytes_are_what_they_begin_with(bytes@, entries);
}

/// What an index was saved as is refused once bytes are cut off its end, however few.
pub proof fn law_interrupted_save_is_refused(index: VectorIndex, bytes: &[u8], len: int)
    requires
        0 <= len < encoding(index@.entries).len(),
        bytes@ == encoding(index@.entries).take(len),
    ensures
        loaded(Some(bytes)) is None,
{
    index.lemma_encodable();
    law_cut_list_is_none(index@.entries, len);
}

/// Bytes that are no list are refused with an error of the index, whose text says so
/// and goes on with the reason.
pub proof fn law_refusal_gives_the_reason(error: VectorError, bytes: Seq<u8>)
    requires
        refused_for(error, bytes),
    ensures
        error is IndexError,
        error->IndexError_0@ == "deserialization error: "@ + decode_failure(bytes, usize::BITS),
{
}

/// A loaded index holds the entries that were read, inserted into its graph in their
/// order, and measures by the function that bears the name of the metric. There is
/// room for ten thousand more points, and for a hundred thousand at least.
pub proof fn law_loaded_index_is_built_from_its_entries(
    index: VectorIndex,
    entries: Seq<(u64, Seq<u32>)>,
    dimensions: usize,
    metric: DistanceMetric,
    distances: Distances,
    i: int,
)
    requires
        loads_as(index, entries, dimensions, metric, distances.of(metric)),
    ensures
        index@.dimensions == dimensions,
        index@.metric == metric,
        index@.entries == entries,
        graph_points(index@.graph).len() == entries.len(),
        0 <= i < entries.len() ==> graph_points(index@.graph)[i] == (
            entries[i].1,
            entries[i].0 as usize,
        ),
        metric is Cosine ==> graph_distance(index@.graph) == distances.cosine,
        metric is L2 ==> graph_distance(index@.graph) == distances.l2,
        metric is InnerProduct ==> graph_distance(index@.graph) == distances.inner_product,
        graph_settings(index@.graph).1 >= entries.len() + 10_000,
        graph_settings(index@.graph).1 >= 100_000,
        graph_settings(index@.graph).1 == entries.len() + 10_000 || graph_settings(
            index@.graph,
        ).1 == 100_000,
{
    law_index_holds_what_was_added(index, i);
}

/// The graph of an index holds one point for every entry, in the order in which they
/// were added: its vector, under the number of its node. It is made with sixteen
/// connections, sixteen layers and an insertion width of two hundred.
pub proof fn law_index_holds_what_was_added(index: VectorIndex, i: int)
    requires
        index.wf(),
    ensures
        graph_points(index@.graph).len() == index@.entries.len(),
        0 <= i < index@.entries.len() ==> graph_points(index@.graph)[i] == (
            index@.entries[i].1,
            index@.entries[i].0 as usize,
        ),
        index@.distance() == graph_distance(index@.graph),
        graph_settings(index@.graph).0 == 16,
        graph_settings(index@.graph).2 == 16,
        graph_settings(index@.graph).3 == 200,
{
}

/// Each kind of graph stands for the metric of its name.
pub proof fn law_graph_stands_for_its_metric(graph: Graph)
    ensures
        HnswIndex::Cosine(graph).metric() is Cosine,
        HnswIndex::L2(graph).metric() is L2,
        HnswIndex::InnerProduct(graph).metric() is InnerProduct,
        HnswIndex::Cosine(graph).graph() == graph,
        HnswIndex::L2(graph).graph() == graph,
        HnswIndex::InnerProduct(graph).graph() == graph,
{
}

/// A vector can be measured against entries exactly where the distance to the vector
/// of each is neither NaN nor negative; one more entry asks for one more distance.
pub proof fn law_measurable_entry_by_entry(
    distance: DistFn<u32>,
    vector: Seq<u32>,
    entries: Seq<(u64, Seq<u32>)>,
    entry: (u64, Seq<u32>),
)
    ensures
        measurable(distance, vector, Seq::empty()),
        measurable(distance, vector, entries.push(entry)) <==> measurable(
            distance,
            vector,
            entries,
        ) && (distance_bits(distance, vector, entry.1) <= 0x7f80_0000 || distance_bits(
            distance,
            vector,
            entry.1,
        ) == 0x8000_0000),
        mutually_measurable(distance, Seq::empty()),
        mutually_measurable(distance, entries.push(entry)) <==> mutually_measurable(
            distance,
            entries,
        ) && measurable(distance, entry.1, entries),
{
    let longer = entries.push(entry);
    let last = entries.len() as int;
    assert(longer[last] == entry);
    assert(longer.take(last) =~= entries);
    assert forall|i: int| 0 <= i < last implies longer[i] == #[trigger] entries[i]
        && longer.take(i) == entries.take(i) by {
        assert(longer.take(i) =~= entries.take(i));
    }
    if measurable(distance, vector, longer) {
        assert forall|i: int| 0 <= i < last implies is_distance(
            distance_bits(distance, vector, (#[trigger] entries[i]).1),
        ) by {
            assert(is_distance(distance_bits(distance, vector, longer[i].1)));
        }
    }
    if measurable(distance, vector, entries) {
        assert forall|i: int| 0 <= i < last implies is_distance(
            distance_bits(distance, vector, (#[trigger] longer[i]).1),
        ) by {
            assert(longer[i] == entries[i]);
        }
    }
    if mutually_measurable(distance, longer) {
        assert forall|i: int| 0 <= i < last implies measurable(
            distance,
            (#[trigger] entries[i]).1,
            entries.take(i),
        ) by {
            assert(measurable(distance, longer[i].1, longer.take(i)));
        }
    }
    if mutually_measurable(distance, entries) && measurable(distance, entry.1, entries) {
        assert forall|i: int| 0 <= i < longer.len() implies measurable(
            distance,
            (#[trigger] longer[i]).1,
            longer.take(i),
        ) by {
            if i < last {
                assert(longer[i] == entries[i]);
            }
        }
    }
}

/// A table can be reserved exactly where its pointers take no more bytes than half of
/// the address space, and there is room for as many points as a table of them.
pub proof fn law_tables_up_to_half_of_memory(len: nat, m: usize, max_elements: usize)
    requires
        m <= 256,
    ensures
        usize::BITS == 32 ==> (can_reserve(len as int) <==> len <= 0x1fff_ffff),
        usize::BITS == 64 ==> (can_reserve(len as int) <==> len <= 0x0fff_ffff_ffff_ffff),
        usize::BITS == 32 && max_elements <= 0x1fff_ffff ==> can_make_room(m, max_elements),
        usize::BITS == 64 && max_elements <= 0x0fff_ffff_ffff_ffff ==> can_make_room(
            m,
            max_elements,
        ),
        m < 2 ==> can_make_room(m, max_elements),
{
    if usize::BITS == 32 {
        assert(len * (usize::BITS / 8) == len * 4);
        assert(isize::MAX == 0x7fff_ffff);
    } else {
        assert(len * (usize::BITS / 8) == len * 8);
        assert(isize::MAX == 0x7fff_ffff_ffff_ffff);
    }
    if m >= 2 {
        let share = max_elements as int / (2 * m);
        assert(share >= 0) by (nonlinear_arith)
            requires
                share == max_elements as int / (2 * m),
                max_elements >= 0,
                m >= 2,
        ;
        if usize::BITS == 32 {
            assert((max_elements - share) * 4 <= max_elements * 4);
        } else {
            assert((max_elements - share) * 8 <= max_elements * 8);
        }
    }
}

/// The vectors of an index have its number of components exactly where each has it.
pub proof fn law_uniform_vector_by_vector(index: IndexView, longer: IndexView)
    requires
        longer.dimensions == index.dimensions,
        longer.entries.len() == index.entries.len() + 1,
        longer.entries.drop_last() == index.entries,
    ensures
        index.entries.len() == 0 ==> index.uniform(),
        longer.uniform() <==> index.uniform() && longer.entries.last().1.len()
            == index.dimensions,
{
    let last = index.entries.len() as int;
    assert forall|i: int| 0 <= i < last implies longer.entries[i] == #[trigger] index.entries[i] by {
        assert(longer.entries.drop_last()[i] == index.entries[i]);
    }
    if longer.uniform() {
        assert forall|i: int| 0 <= i < last implies (#[trigger] index.entries[i]).1.len()
            == index.dimensions by {
            assert(longer.entries[i].1.len() == longer.dimensions);
        }
    }
    if index.uniform() && longer.entries.last().1.len() == index.dimensions {
        assert forall|i: int| 0 <= i < longer.entries.len() implies (
        #[trigger] longer.entries[i]).1.len() == longer.dimensions by {
            if i < last {
                assert(longer.entries[i] == index.entries[i]);
            }
        }
    }
}

/// What an index is saved as depends on its entries alone, whatever its metric and
/// dimensions, and tells different entries apart.
pub proof fn law_saved_bytes_are_the_entries(a: VectorIndex, b: VectorIndex)
    ensures
        encoding(a@.entries) == encoding(b@.entries) <==> a@.entries == b@.entries,
{
    law_saved_entries_are_read_back(a, Seq::empty());
    law_saved_entries_are_read_back(b, Seq::empty());
}

/// The graph of an index measures by the metric of the index, and holds its entries
/// in the order in which they were added.
pub proof fn law_metric_is_honored(index: VectorIndex)
    requires
        index.wf(),
    ensures
        index@.measured_by == index@.metric,
        graph_points(index@.graph) == points_of(index@.entries),
{
}

/// Places that are all different and below a bound are no more than the bound.
proof fn lemma_few_places(places: Seq<int>, bound: nat)
    requires
        places.no_duplicates(),
        forall|i: int| 0 <= i < places.len() ==> 0 <= #[trigger] places[i] < bound,
    ensures
        places.len() <= bound,
{
    places.unique_seq_to_set();
    let range = vstd::set_lib::set_int_range(0, bound as int);
    vstd::set_lib::lemma_int_range(0, bound as int);
    assert forall|p: int| #[trigger] places.to_set().contains(p) implies range.contains(p) by {
        let i = choose|i: int| 0 <= i < places.len() && places[i] == p;
        assert(places[i] == p);
    }
    vstd::set_lib::lemma_len_subset(places.to_set(), range);
}

/// The neighbor is the node of the entry at place `j`, at its distance from the
/// query.
pub open spec fn is_entry(
    neighbor: (NodeId, u32),
    j: int,
    index: IndexView,
    query: Seq<u32>,
) -> bool {
    &&& 0 <= j < index.entries.len()
    &&& neighbor.0.0 == index.entries[j].0
    &&& neighbor.1 == distance_bits(index.distance(), query, index.entries[j].1)
}

/// The neighbor is the node of an entry, at a distance that is one.
pub open spec fn is_stored(neighbor: (NodeId, u32), index: IndexView, query: Seq<u32>) -> bool {
    is_distance(neighbor.1) && exists|j: int| is_entry(neighbor, j, index, query)
}

/// Every hit of the graph becomes one neighbor, in its place: the node with the
/// number of the hit, at the distance of the hit.
pub proof fn law_every_hit_is_a_neighbor(hits: Seq<(usize, u32)>, i: int)
    ensures
        neighbors_of(hits).len() == hits.len(),
        0 <= i < hits.len() ==> neighbors_of(hits)[i].0.0 == hits[i].0 && neighbors_of(hits)[i].1
            == hits[i].1,
{
}

/// A query is answered by all that the graph finds and nothing else, in the order of
/// the graph. That is no more than was asked for, and something where something was
/// asked for and is there.
pub proof fn law_answer_is_what_the_graph_finds(
    neighbors: Seq<(NodeId, u32)>,
    index: IndexView,
    query: Seq<u32>,
    k: usize,
    width: usize,
    i: int,
)
    requires
        answers(neighbors, index, query, k),
        width == 2 * k || 2 * k > usize::MAX && width == usize::MAX,
    ensures
        neighbors.len() == found(index.graph, query, k, width).len(),
        0 <= i < neighbors.len() ==> neighbors[i].0.0 == found(index.graph, query, k, width)[i].0
            && neighbors[i].1 == found(index.graph, query, k, width)[i].1,
        neighbors.len() <= k,
        k > 0 && 0 < index.entries.len() <= 0x7fff_ffff ==> neighbors.len() > 0,
{
    let hits = found(index.graph, query, k, width);
    law_every_hit_is_a_neighbor(hits, i);
}

/// The neighbors come nearest first: the number that the distance of one stands for
/// is no larger than that of any behind it.
pub proof fn law_neighbors_come_nearest_first(
    neighbors: Seq<(NodeId, u32)>,
    index: IndexView,
    query: Seq<u32>,
    k: usize,
    i: int,
    j: int,
)
    requires
        answers(neighbors, index, query, k),
        measurable(index.distance(), query, index.entries),
        0 <= i < j < neighbors.len(),
    ensures
        value_f32(neighbors[i].1 % 0x8000_0000) <= value_f32(neighbors[j].1 % 0x8000_0000),
{
    let picks = choose|picks: Seq<int>|
        neighbors_at(neighbors, picks, index.entries, index.distance(), query);
    assert(neighbors_at(neighbors, picks, index.entries, index.distance(), query));
    assert(0 <= picks[i] < index.entries.len() && 0 <= picks[j] < index.entries.len());
    law_distances_are_ranked_by_value(neighbors[i].1, neighbors[j].1);
}

/// A query finds no more neighbors than there are vectors. Each is a node that was
/// added, where node numbers fit a pointer, at a distance that is one.
pub proof fn law_neighbors_are_stored(
    neighbors: Seq<(NodeId, u32)>,
    index: IndexView,
    query: Seq<u32>,
    k: usize,
)
    requires
        answers(neighbors, index, query, k),
        measurable(index.distance(), query, index.entries),
        forall|i: int|
            0 <= i < index.entries.len() ==> (#[trigger] index.entries[i]).0 <= usize::MAX,
    ensures
        neighbors.len() <= index.entries.len(),
        forall|i: int|
            0 <= i < neighbors.len() ==> is_stored(#[trigger] neighbors[i], index, query),
{
    let picks = choose|picks: Seq<int>|
        neighbors_at(neighbors, picks, index.entries, index.distance(), query);
    assert(neighbors_at(neighbors, picks, index.entries, index.distance(), query));
    lemma_few_places(picks, index.entries.len());
    assert forall|i: int| 0 <= i < neighbors.len() implies is_stored(
        #[trigger] neighbors[i],
        index,
        query,
    ) by {
        assert(is_entry(neighbors[i], picks[i], index, query));
    }
}

/// The search width of a query is never less than the number of neighbors that it
/// asks for, and is twice that number wherever that fits.
pub proof fn law_search_width_covers_the_query(k: usize)
    ensures
        k <= search_width(k),
        2 * k <= usize::MAX ==> search_width(k) == 2 * k,
        2 * k > usize::MAX ==> search_width(k) == usize::MAX,
{
}

/// An index without vectors finds nothing.
pub proof fn law_empty_index_finds_nothing(
    neighbors: Seq<(NodeId, u32)>,
    index: IndexView,
    query: Seq<u32>,
    k: usize,
)
    requires
        answers(neighbors, index, query, k),
        index.entries.len() == 0,
    ensures
        neighbors.len() == 0,
{
    let picks = choose|picks: Seq<int>|
        neighbors_at(neighbors, picks, index.entries, index.distance(), query);
    assert(neighbors_at(neighbors, picks, index.entries, index.distance(), query));
    if neighbors.len() > 0 {
        assert(picks.contains(picks[0]));
    }
}

/// The only vector of an index is found by every query for at least one neighbor.
pub proof fn law_single_vector_is_found(
    neighbors: Seq<(NodeId, u32)>,
    index: IndexView,
    query: Seq<u32>,
    k: usize,
)
    requires
        answers(neighbors, index, query, k),
        index.entries.len() == 1,
        k > 0,
    ensures
        neighbors == seq![
            (
                NodeId((index.entries[0].0 as usize) as u64),
                distance_bits(index.distance(), query, index.entries[0].1),
            ),
        ],
{
    let picks = choose|picks: Seq<int>|
        neighbors_at(neighbors, picks, index.entries, index.distance(), query);
    assert(neighbors_at(neighbors, picks, index.entries, index.distance(), query));
    lemma_few_places(picks, 1);
    assert(picks[0] == 0);
    assert(neighbors =~= seq![neighbors[0]]);
}

} // verus!
