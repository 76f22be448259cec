use hnsw_rs::prelude::{DistFn, DistL2, Distance};
use std::collections::HashMap;
use vector_index::narrow::narrow;
use vector_index::{
    decode_vectors, encode_vectors, neighbors, CosineDistance, DistanceMetric, Distances,
    HnswIndex, InnerProductDistance, NodeId, StoredVector, VectorError, VectorIndex, VectorPoint,
};

fn patterns(components: &[f32]) -> Vec<u32> {
    components.iter().map(|c| c.to_bits()).collect()
}

fn components(patterns: &[u32]) -> Vec<f32> {
    patterns.iter().map(|p| f32::from_bits(*p)).collect()
}

fn cosine_eval(va: &[f32], vb: &[f32]) -> f32 {
    let mut dot: f64 = 0.0;
    let mut norm_a: f64 = 0.0;
    let mut norm_b: f64 = 0.0;
    for (a, b) in va.iter().zip(vb.iter()) {
        let (a, b) = (*a as f64, *b as f64);
        dot += a * b;
        norm_a += a * a;
        norm_b += b * b;
    }
    let dist = 1.0 - dot / (norm_a * norm_b).sqrt();
    let resolved = CosineDistance.resolve(norm_a.to_bits(), norm_b.to_bits(), dist.to_bits());
    f32::from_bits(resolved)
}

fn inner_product_eval(va: &[f32], vb: &[f32]) -> f32 {
    let mut dot: f64 = 0.0;
    for (a, b) in va.iter().zip(vb.iter()) {
        dot += (*a as f64) * (*b as f64);
    }
    let dist = 1.0 - dot;
    f32::from_bits(InnerProductDistance.resolve(dist.to_bits()))
}

fn l2_eval(va: &[f32], vb: &[f32]) -> f32 {
    if va.iter().zip(vb.iter()).any(|(a, b)| (a - b).is_nan()) {
        return f32::NAN;
    }
    DistL2.eval(va, vb)
}

fn distances() -> Distances {
    Distances {
        cosine: DistFn::new(Box::new(|a: &[u32], b: &[u32]| {
            cosine_eval(&components(a), &components(b))
        })),
        l2: DistFn::new(Box::new(|a: &[u32], b: &[u32]| l2_eval(&components(a), &components(b)))),
        inner_product: DistFn::new(Box::new(|a: &[u32], b: &[u32]| {
            inner_product_eval(&components(a), &components(b))
        })),
    }
}

fn index_of(dimensions: usize, metric: DistanceMetric, vectors: &[(u64, &[f32])]) -> VectorIndex {
    let mut index = VectorIndex::new(dimensions, metric, distances());
    for (id, vector) in vectors {
        index.add(NodeId::new(*id), &patterns(vector)).unwrap();
    }
    index
}

fn by_id(results: Vec<(NodeId, u32)>) -> HashMap<NodeId, f32> {
    results.into_iter().map(|(id, bits)| (id, f32::from_bits(bits))).collect()
}

fn mismatch<T>(result: Result<T, VectorError>) -> (usize, usize) {
    match result {
        Err(VectorError::DimensionMismatch { expected, got }) => (expected, got),
        _ => panic!("a dimension mismatch was due"),
    }
}

fn index_error<T>(result: Result<T, VectorError>) -> String {
    match result {
        Err(VectorError::IndexError(message)) => message,
        _ => panic!("an index error was due"),
    }
}

#[test]
fn test_vector_index_basic() {
    let mut index = VectorIndex::new(3, DistanceMetric::Cosine, distances());

    index.add(NodeId::new(1), &patterns(&[1.0, 0.0, 0.0])).unwrap();
    index.add(NodeId::new(2), &patterns(&[0.0, 1.0, 0.0])).unwrap();
    index.add(NodeId::new(3), &patterns(&[0.0, 0.1, 0.9])).unwrap();

    let results = index.search(&patterns(&[1.0, 0.1, 0.0]), 2).unwrap();
    assert!(results.len() >= 1 && results.len() <= 2);
    assert_eq!(results[0].0, NodeId::new(1));
}

#[test]
fn test_vector_index_persistence() {
    let mut index = VectorIndex::new(3, DistanceMetric::Cosine, distances());
    index.add(NodeId::new(1), &patterns(&[1.0, 0.0, 0.0])).unwrap();
    index.add(NodeId::new(2), &patterns(&[0.0, 1.0, 0.0])).unwrap();
    index.add(NodeId::new(3), &patterns(&[0.0, 0.1, 0.9])).unwrap();
    assert_eq!(index.len(), 3);

    let saved = index.dump().unwrap();

    let loaded = VectorIndex::load(Some(&saved), 3, DistanceMetric::Cosine, distances()).unwrap();
    assert_eq!(loaded.len(), 3);
    assert_eq!(loaded.dimensions(), 3);

    let results = loaded.search(&patterns(&[1.0, 0.1, 0.0]), 2).unwrap();
    assert_eq!(results.len(), 2);
    assert_eq!(results[0].0, NodeId::new(1));
}

#[test]
fn test_distance_metrics() {
    let v1 = vec![1.0, 0.0];
    let v2 = vec![0.0, 1.0];

    // Orthogonal
    assert!((cosine_eval(&v1, &v2) - 1.0).abs() < 1e-6);
    // Same
    assert!((cosine_eval(&v1, &v1) - 0.0).abs() < 1e-6);

    // Dot product = 0
    assert!((inner_product_eval(&v1, &v2) - 1.0).abs() < 1e-6);
}

#[test]
fn test_cosine_distance_nonnegative_on_near_identical() {
    let a = vec![0.57735026, 0.57735026, 0.57735026];
    let b = vec![0.57735027, 0.57735027, 0.57735027];
    let d = cosine_eval(&a, &b);
    assert!(d >= 0.0, "distance must be >= 0, got {}", d);
    assert!(d <= 1.0, "distance must be <= 1, got {}", d);
    assert!(d < 1e-6, "distance must be ~0, got {}", d);
}

#[test]
fn test_cosine_distance_nan_safe() {
    let a = vec![f32::NAN, 0.0, 0.0];
    let b = vec![1.0, 0.0, 0.0];
    let d = cosine_eval(&a, &b);
    assert!(d.is_finite(), "distance must be finite on NaN input, got {}", d);
    assert!(d >= 0.0 && d <= 1.0, "distance must be in [0,1] on NaN input, got {}", d);
}

#[test]
fn test_inner_product_distance_nonnegative_on_near_identical() {
    let a = vec![0.57735026, 0.57735026, 0.57735026];
    let b = vec![0.57735027, 0.57735027, 0.57735027];
    let d = inner_product_eval(&a, &b);
    assert!(d >= 0.0, "distance must be >= 0, got {}", d);
    assert!(d <= 1.0, "distance must be <= 1, got {}", d);
}

#[test]
fn test_vector_index_l2_metric_honored() {
    let mut idx = VectorIndex::new(2, DistanceMetric::L2, distances());
    idx.add(NodeId::new(1), &patterns(&[1.0, 0.0])).unwrap();
    idx.add(NodeId::new(2), &patterns(&[100.0, 0.0])).unwrap();

    let results = idx.search(&patterns(&[1.0, 0.0]), 2).unwrap();
    assert_eq!(results.len(), 2);
    let by_id = by_id(results);
    assert!(by_id[&NodeId::new(1)] < 1.0, "L2 dist to (1,0) should be ~0");
    assert!(by_id[&NodeId::new(2)] > 90.0, "L2 dist to (100,0) should be ~99");
}

#[test]
fn test_vector_index_inner_product_metric_honored() {
    let mut idx = VectorIndex::new(2, DistanceMetric::InnerProduct, distances());
    idx.add(NodeId::new(1), &patterns(&[1.0, 0.0])).unwrap();
    idx.add(NodeId::new(2), &patterns(&[100.0, 0.0])).unwrap();

    let results = idx.search(&patterns(&[1.0, 0.0]), 2).unwrap();
    assert_eq!(results.len(), 2);
    let by_id = by_id(results);
    assert!(by_id[&NodeId::new(2)] <= by_id[&NodeId::new(1)]);
}

#[test]
fn test_vector_index_l2_persistence_round_trip() {
    let mut idx = VectorIndex::new(2, DistanceMetric::L2, distances());
    idx.add(NodeId::new(1), &patterns(&[1.0, 0.0])).unwrap();
    idx.add(NodeId::new(2), &patterns(&[100.0, 0.0])).unwrap();
    let saved = idx.dump().unwrap();

    let loaded = VectorIndex::load(Some(&saved), 2, DistanceMetric::L2, distances()).unwrap();
    assert_eq!(loaded.metric(), DistanceMetric::L2);
    let results = loaded.search(&patterns(&[1.0, 0.0]), 2).unwrap();
    let by_id = by_id(results);
    assert!(by_id[&NodeId::new(1)] < 1.0);
    assert!(by_id[&NodeId::new(2)] > 90.0);
}

#[test]
fn new_index_is_empty() {
    let index = VectorIndex::new(4, DistanceMetric::InnerProduct, distances());
    assert_eq!(index.dimensions(), 4);
    assert_eq!(index.metric(), DistanceMetric::InnerProduct);
    assert_eq!(index.len(), 0);
    assert!(index.is_empty());
    assert!(index.search(&patterns(&[1.0, 2.0, 3.0, 4.0]), 5).unwrap().is_empty());
}

#[test]
fn an_empty_index_takes_any_number_of_neighbors() {
    let index = VectorIndex::new(1, DistanceMetric::L2, distances());
    for k in [0, 1, usize::MAX / 2, usize::MAX / 2 + 1, usize::MAX] {
        assert!(index.search(&patterns(&[1.0]), k).unwrap().is_empty());
        assert!(index.checked_search(&patterns(&[1.0]), k).unwrap().unwrap().is_empty());
    }
}

#[test]
fn graphs_with_few_connections_find_their_entry_point() {
    for (m, room) in [(0, usize::MAX), (1, usize::MAX), (2, 10), (256, 1000)] {
        let mut graph = HnswIndex::new(DistanceMetric::L2, m, room, 16, 200, distances());
        assert!(graph.search(&patterns(&[1.0]), 3, 6).is_empty());
        for id in 0..50usize {
            graph.insert(&patterns(&[id as f32]), id);
        }
        let hits = graph.search(&patterns(&[0.0]), 3, 6);
        assert!(hits.len() >= 1 && hits.len() <= 3);
        for (id, bits) in hits {
            assert_eq!(f32::from_bits(bits), id as f32);
        }
    }
}

#[test]
fn wrong_dimensions_are_refused() {
    let mut index = index_of(2, DistanceMetric::L2, &[(1, &[1.0, 0.0])]);
    assert_eq!(mismatch(index.add(NodeId::new(2), &patterns(&[1.0]))), (2, 1));
    assert_eq!(index.len(), 1);
    assert_eq!(mismatch(index.search(&patterns(&[1.0, 2.0, 3.0]), 1)), (2, 3));
    assert_eq!(mismatch(index.checked_add(NodeId::new(2), &patterns(&[])).unwrap()), (2, 0));
    assert_eq!(mismatch(index.checked_search(&patterns(&[1.0]), 1).unwrap()), (2, 1));
    // The length is looked at before the number of neighbors.
    assert_eq!(mismatch(index.search(&patterns(&[1.0]), usize::MAX)), (2, 1));
}

#[test]
fn the_only_vector_is_found_at_its_distance() {
    let index = index_of(2, DistanceMetric::L2, &[(7, &[3.0, 4.0])]);
    let found = index.search(&patterns(&[0.0, 0.0]), 3).unwrap();
    assert_eq!(found, vec![(NodeId::new(7), 5.0f32.to_bits())]);
    assert!(index.search(&patterns(&[0.0, 0.0]), 0).unwrap().is_empty());
}

#[test]
fn neighbors_come_nearest_first_and_are_stored() {
    let vectors: Vec<(u64, Vec<f32>)> =
        (0..40u64).map(|i| (100 + i, vec![i as f32, (i * i % 7) as f32])).collect();
    let mut index = VectorIndex::new(2, DistanceMetric::L2, distances());
    for (id, vector) in &vectors {
        assert!(index.checked_add(NodeId::new(*id), &patterns(vector)).unwrap().is_ok());
    }
    let query = [11.5, 2.0];
    let found = index.checked_search(&patterns(&query), 6).unwrap().unwrap();
    assert!(found.len() >= 1 && found.len() <= 6);
    for pair in found.windows(2) {
        assert!(f32::from_bits(pair[0].1) <= f32::from_bits(pair[1].1));
        assert_ne!(pair[0].0, pair[1].0);
    }
    for (id, bits) in found {
        let (_, vector) = vectors.iter().find(|(other, _)| *other == id.0).unwrap();
        assert_eq!(bits, l2_eval(&query, vector).to_bits());
    }
}

#[test]
fn metrics_disagree_on_the_same_vectors() {
    let vectors: &[(u64, &[f32])] = &[(1, &[1.0, 0.0]), (2, &[100.0, 0.0])];
    let query = patterns(&[1.0, 0.0]);
    let l2 = by_id(index_of(2, DistanceMetric::L2, vectors).search(&query, 2).unwrap());
    let cosine = by_id(index_of(2, DistanceMetric::Cosine, vectors).search(&query, 2).unwrap());
    assert_eq!(l2[&NodeId::new(2)], 99.0);
    assert_eq!(cosine[&NodeId::new(2)], 0.0);
    let product =
        by_id(index_of(2, DistanceMetric::InnerProduct, vectors).search(&query, 2).unwrap());
    assert_eq!(product[&NodeId::new(1)], 0.0);
    assert_eq!(product[&NodeId::new(2)], 0.0);
}

#[test]
fn large_node_numbers_survive() {
    let index = index_of(1, DistanceMetric::L2, &[(u64::MAX, &[1.0])]);
    let found = index.search(&patterns(&[1.0]), 1).unwrap();
    assert_eq!(found[0].0, NodeId::new(u64::MAX as usize as u64));
    let loaded = VectorIndex::load(
        Some(&index.dump().unwrap()),
        1,
        DistanceMetric::L2,
        distances(),
    )
    .unwrap();
    assert_eq!(loaded.dump().unwrap(), index.dump().unwrap());
}

#[test]
fn saved_bytes_are_exact() {
    let index = index_of(2, DistanceMetric::Cosine, &[(258, &[1.0, -2.0])]);
    let expected: Vec<u8> = vec![
        1, 0, 0, 0, 0, 0, 0, 0, // one entry
        2, 1, 0, 0, 0, 0, 0, 0, // node 258
        2, 0, 0, 0, 0, 0, 0, 0, // two components
        0, 0, 0x80, 0x3f, // 1.0
        0, 0, 0, 0xc0, // -2.0
    ];
    assert_eq!(index.dump().unwrap(), expected);
    let empty = VectorIndex::new(2, DistanceMetric::Cosine, distances());
    assert_eq!(empty.dump().unwrap(), vec![0u8; 8]);
}

#[test]
fn saved_bytes_do_not_depend_on_the_metric() {
    let vectors: &[(u64, &[f32])] = &[(1, &[1.0, 0.0]), (2, &[0.5, 0.25])];
    let a = index_of(2, DistanceMetric::Cosine, vectors).dump().unwrap();
    let b = index_of(2, DistanceMetric::InnerProduct, vectors).dump().unwrap();
    assert_eq!(a, b);
    let reloaded = VectorIndex::load(Some(&a), 2, DistanceMetric::L2, distances()).unwrap();
    assert_eq!(reloaded.metric(), DistanceMetric::L2);
    assert_eq!(reloaded.dump().unwrap(), a);
    let fewer = index_of(2, DistanceMetric::Cosine, &vectors[..1]).dump().unwrap();
    assert_ne!(a, fewer);
}

#[test]
fn bytes_after_the_list_are_ignored() {
    let index = index_of(1, DistanceMetric::L2, &[(1, &[1.0]), (2, &[2.0])]);
    let mut saved = index.dump().unwrap();
    saved.extend_from_slice(&[9, 9, 9]);
    let loaded = VectorIndex::load(Some(&saved), 1, DistanceMetric::L2, distances()).unwrap();
    assert_eq!(loaded.len(), 2);
}

#[test]
fn broken_bytes_are_refused() {
    let index = index_of(1, DistanceMetric::L2, &[(1, &[1.0])]);
    let saved = index.dump().unwrap();
    for len in 0..saved.len() {
        let cut = &saved[..len];
        let message =
            index_error(VectorIndex::load(Some(cut), 1, DistanceMetric::L2, distances()));
        assert!(message.starts_with("deserialization error: io error"), "{}", message);
        assert!(index_error(decode_vectors(cut)).starts_with("deserialization error: "));
    }
    let huge = vec![0xffu8; 64];
    assert!(index_error(
        VectorIndex::checked_load(Some(&huge), 1, DistanceMetric::L2, distances()).unwrap()
    )
    .starts_with("deserialization error: "));
}

#[test]
fn nothing_saved_loads_as_a_new_index() {
    let index = VectorIndex::load(None, 5, DistanceMetric::Cosine, distances()).unwrap();
    assert!(index.is_empty());
    assert_eq!(index.dimensions(), 5);
    let checked = VectorIndex::checked_load(None, 5, DistanceMetric::Cosine, distances());
    assert!(checked.unwrap().unwrap().is_empty());
}

#[test]
fn loading_does_not_look_at_the_dimensions() {
    let index = index_of(2, DistanceMetric::Cosine, &[(1, &[1.0, 0.0])]);
    let saved = index.dump().unwrap();
    let loaded = VectorIndex::load(Some(&saved), 3, DistanceMetric::Cosine, distances()).unwrap();
    assert_eq!(loaded.len(), 1);
    assert_eq!(loaded.dimensions(), 3);
}

#[test]
fn distances_that_are_none_are_noticed() {
    let mut index = index_of(1, DistanceMetric::L2, &[(1, &[1.0])]);
    assert!(index.checked_add(NodeId::new(2), &patterns(&[f32::NAN])).is_none());
    assert_eq!(index.len(), 1);
    assert!(index.checked_search(&patterns(&[f32::NAN]), 1).is_none());
    assert!(index.checked_add(NodeId::new(3), &patterns(&[f32::INFINITY])).unwrap().is_ok());
    assert!(index.checked_search(&patterns(&[f32::INFINITY]), 1).is_none());

    let saved = encode_vectors(&vec![
        StoredVector { node_id: 1, vector: patterns(&[f32::NAN]) },
        StoredVector { node_id: 2, vector: patterns(&[1.0]) },
    ])
    .unwrap();
    let l2 = VectorIndex::checked_load(Some(&saved), 1, DistanceMetric::L2, distances());
    assert!(l2.is_none());
    let cosine = VectorIndex::checked_load(Some(&saved), 1, DistanceMetric::Cosine, distances());
    assert_eq!(cosine.unwrap().unwrap().len(), 2);
}

#[test]
fn stored_vectors_make_an_index() {
    let stored = vec![
        StoredVector { node_id: 4, vector: patterns(&[0.0, 2.0]) },
        StoredVector { node_id: 5, vector: patterns(&[3.0, 0.0]) },
    ];
    let bytes = encode_vectors(&stored).unwrap();
    let read = decode_vectors(&bytes).unwrap();
    assert_eq!(read.len(), 2);
    assert_eq!(read[0].node_id, 4);
    assert_eq!(read[1].vector, patterns(&[3.0, 0.0]));
    let index = VectorIndex::from_stored(read, 2, DistanceMetric::L2, distances());
    let found = index.search(&patterns(&[3.0, 0.5]), 1).unwrap();
    assert_eq!(found, vec![(NodeId::new(5), 0.5f32.to_bits())]);
}

#[test]
fn hits_become_nodes() {
    let point = VectorPoint { node_id: NodeId::new(9), vector: patterns(&[1.0]) };
    assert_eq!(point.clone().node_id, NodeId(9));
    let hits = vec![(9usize, 1.0f32.to_bits()), (3, 2.0f32.to_bits())];
    assert_eq!(
        neighbors(&hits),
        vec![(NodeId::new(9), 0x3f80_0000), (NodeId::new(3), 0x4000_0000)]
    );
}

#[test]
fn resolved_distances_are_usable() {
    let one = 1.0f64.to_bits();
    let some = |dist: f64| f32::from_bits(CosineDistance.resolve(one, one, dist.to_bits()));
    assert_eq!(some(0.25), 0.25);
    assert_eq!(some(2.0), 2.0);
    assert_eq!(some(-1e-12), 0.0);
    assert_eq!(some(f64::NAN), 1.0);
    assert_eq!(some(f64::INFINITY), 1.0);
    assert_eq!(some(f64::NEG_INFINITY), 1.0);
    assert_eq!(some(f64::MAX), f32::INFINITY);

    let norms = |a: f64, b: f64| {
        f32::from_bits(CosineDistance.resolve(a.to_bits(), b.to_bits(), 0.5f64.to_bits()))
    };
    assert_eq!(norms(0.0, 1.0), 1.0);
    assert_eq!(norms(1.0, -0.0), 1.0);
    assert_eq!(norms(f64::NEG_INFINITY, 1.0), 1.0);
    assert_eq!(norms(f64::NAN, 1.0), 0.5);
    assert_eq!(norms(2.0, 3.0), 0.5);

    let product = |dist: f64| f32::from_bits(InnerProductDistance.resolve(dist.to_bits()));
    assert_eq!(product(-99.0), 0.0);
    assert_eq!(product(101.0), 101.0);
    assert_eq!(product(f64::NAN), 1.0);
}

#[test]
fn cosine_measures_the_angle() {
    let v = [3.0, 4.0];
    assert!((cosine_eval(&v, &[6.0, 8.0]) - 0.0).abs() < 1e-6);
    assert!((cosine_eval(&v, &[-4.0, 3.0]) - 1.0).abs() < 1e-6);
    assert!((cosine_eval(&v, &[-3.0, -4.0]) - 2.0).abs() < 1e-6);
    assert_eq!(cosine_eval(&v, &[0.0, 0.0]), 1.0);
}

#[test]
fn narrowing_rounds_as_a_cast_does() {
    let mut cases: Vec<u64> = vec![
        0,
        1,
        1.0f64.to_bits(),
        f64::MIN_POSITIVE.to_bits(),
        f64::MAX.to_bits(),
        (f32::MAX as f64).to_bits(),
        (f32::MIN_POSITIVE as f64).to_bits(),
        (f32::from_bits(1) as f64).to_bits(),
        (f32::from_bits(1) as f64 / 2.0).to_bits(),
        (f32::from_bits(1) as f64 * 1.5).to_bits(),
        (f32::from_bits(1) as f64 * 2.5).to_bits(),
        0.1f64.to_bits(),
        1.9999999999999998f64.to_bits(),
    ];
    for exponent in 860..1160u64 {
        for fraction in [0u64, 1, 0x0fff_ffff, 0x1000_0000, 0x1000_0001, 0x3000_0000] {
            cases.push((exponent << 52) + fraction);
            cases.push((exponent << 52) + 0x8_0000_0000_0000 + fraction);
            cases.push((exponent << 52) + 0xf_ffff_e000_0000 + fraction % 0x2000_0000);
        }
    }
    let mut state: u64 = 88172645463325252;
    for _ in 0..20000 {
        state ^= state << 13;
        state ^= state >> 7;
        state ^= state << 17;
        cases.push((state >> 1) % 0x7ff0_0000_0000_0000);
        cases.push(((860 + state % 300) << 52) + (state >> 12));
    }
    for wide in cases {
        let expected = (f64::from_bits(wide) as f32).to_bits();
        assert_eq!(narrow(wide), expected, "{:x}", wide);
    }
}
