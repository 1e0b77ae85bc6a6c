//! Concepts, shapes and their memory.

use llamanyon::ace::gam::{
    adaptive_k, predict_latency, DepthMode, GamParams, Headroom, Urgency, UNITS_PER_MS,
};
use llamanyon::ace::geo::{compress, expand, split, warp};
use llamanyon::ace::graph::{
    ConceptNode, GraphState, RelationType, Shape, HALF_SIMILAR, SLIGHTLY_SIMILAR,
};
use llamanyon::ace::homology::{
    build_vietoris_rips, fold, intersect, persistent_h0, persistent_h1, Bar,
};
use llamanyon::ace::memory::{
    Clock, ForgettingCurve, SimilarityCache, WorkingSet, SIMILARITY_TTL, WORKING_SET_MAX,
    WORKING_SET_TTL,
};
use llamanyon::ace::morph::{initial_coupling, initial_coupling_at, morph_params, morphed, sinkhorn_rounds};

fn urgency(u: f64) -> Urgency {
    if u > 0.8 {
        Urgency::High
    } else if u < 0.2 {
        Urgency::Low
    } else {
        Urgency::Normal
    }
}

fn headroom(t: f64) -> Headroom {
    if t < 0.25 {
        Headroom::Hot
    } else if t > 0.75 {
        Headroom::Cool
    } else {
        Headroom::Normal
    }
}

fn params(n: usize, u: f64, d: DepthMode, t: f64, recent: usize) -> GamParams {
    adaptive_k(n, urgency(u), d, headroom(t), recent)
}

fn units(similarity: f64) -> i32 {
    (similarity * 8192.0).floor() as i32
}

fn dummy_node(id: u32, val: i8) -> ConceptNode {
    ConceptNode::new(id, [val; 64])
}

fn node_on(id: u32, axis: usize, val: i8) -> ConceptNode {
    let mut v = [0i8; 64];
    v[axis] = val;
    ConceptNode::new(id, v)
}

// --- effort ---------------------------------------------------------------

#[test]
fn test_small_surface() {
    let p = params(500, 0.5, DepthMode::Surface, 0.8, 150);
    assert!(p.k >= 8);
    assert!(p.sinkhorn_iters >= 10);
}

#[test]
fn test_large_exhaustive() {
    let p = params(15000, 0.1, DepthMode::Exhaustive, 0.9, 2000);
    assert!(p.k >= 8);
    assert!(p.k <= 128);
}

#[test]
fn test_urgent() {
    let p = params(3000, 0.95, DepthMode::Deep, 0.5, 300);
    assert!(p.k <= 32);
    assert!(p.sinkhorn_iters <= 15);
}

#[test]
fn test_hot_chip() {
    let p = params(4000, 0.9, DepthMode::Surface, 0.1, 400);
    assert!(p.k <= 16);
    assert!(p.sinkhorn_iters >= 10);
}

#[test]
fn test_predict_latency_bounds() {
    let ms = predict_latency(32, 5000);
    assert!(ms > 0);
    assert!(ms < 100 * UNITS_PER_MS);
}

#[test]
fn latency_grows_with_effort_and_size() {
    assert!(predict_latency(16, 5000) <= predict_latency(32, 5000));
    assert!(predict_latency(32, 4000) <= predict_latency(32, 5000));
}

#[test]
fn more_urgency_never_takes_more_effort() {
    let calm = params(3000, 0.5, DepthMode::Deep, 0.5, 300);
    let urgent = params(3000, 0.95, DepthMode::Deep, 0.5, 300);
    assert!(urgent.k <= calm.k);
    assert!(urgent.sinkhorn_iters <= calm.sinkhorn_iters);
}

// --- graph ----------------------------------------------------------------

#[test]
fn dot_is_exact_and_symmetric() {
    let a = dummy_node(1, 3);
    let b = dummy_node(2, -5);
    assert_eq!(a.dot(&b.vector), -960);
    assert_eq!(b.dot(&a.vector), -960);
    assert_eq!(dummy_node(1, -128).dot(&[-128; 64]), 64 * 16384);
}

#[test]
fn connections_are_put_in_once() {
    let mut a = dummy_node(1, 0);
    a.add_connection(2, RelationType::IsA, 10);
    a.add_connection(2, RelationType::PartOf, 20);
    a.add_connection(2, RelationType::IsA, 30);
    assert_eq!(a.connections.len(), 2);
    assert!(a.has_connection(2, RelationType::IsA));
    assert!(!a.has_connection(3, RelationType::IsA));
    assert_eq!(a.connection_weight(2, RelationType::IsA), 30);
    assert_eq!(a.connection_weight(3, RelationType::IsA), 0);
    assert_eq!(RelationType::Contradicts.name(), "contradicts");
}

#[test]
fn edges_are_the_similar_pairs_in_order() {
    let nodes = vec![node_on(1, 0, 100), node_on(2, 0, 100), node_on(3, 1, 100)];
    let edges = Shape::compute_edges(&nodes, HALF_SIMILAR);
    assert_eq!(edges, vec![(0, 1, 10_000)]);
    let mut shape = Shape::new("s", nodes);
    assert_eq!(shape.node_ids(), vec![1, 2, 3]);
    shape.rebuild_edges(20_000);
    assert!(shape.edges.is_empty());
    shape.rebuild_edges(SLIGHTLY_SIMILAR);
    assert_eq!(shape.edges, vec![(0, 1, 10_000)]);
}

#[test]
fn a_removed_concept_is_gone() {
    let mut g = GraphState::new();
    let a = g.add_node([1; 64]);
    let b = g.add_node([2; 64]);
    assert_eq!(g.len(), 2);
    g.get_mut(b).unwrap().add_connection(a, RelationType::Causes, 1);
    g.remove(a);
    assert!(g.get(a).is_none());
    assert_eq!(g.concept_count(), 1);
    assert!(g.get(b).is_some());
}

#[test]
fn similar_concepts_come_strongest_first() {
    let mut g = GraphState::new();
    let a = g.add_node([1; 64]);
    let b = g.add_node([3; 64]);
    let c = g.add_node([2; 64]);
    let r = g.find_similar(&[1; 64], 2);
    assert_eq!(r, vec![(b, 192), (c, 128)]);
    assert_eq!(g.find_similar(&[1; 64], 9).len(), 3);
    assert!(a != b && b != c);
}

// --- operations on shapes -------------------------------------------------

#[test]
fn test_warp_identity() {
    let shape = Shape::new("test", vec![dummy_node(1, 42)]);
    let mut ident = [0.0f32; 4096];
    let mut bias = [0.0f32; 64];
    for i in 0..64 {
        ident[i * 64 + i] = 1.0;
    }
    bias[0] = 0.0;
    let vectors: Vec<[i8; 64]> = shape
        .nodes
        .iter()
        .map(|node| {
            let mut v = [0i8; 64];
            for i in 0..64 {
                let mut sum = bias[i];
                for j in 0..64 {
                    sum += ident[i * 64 + j] * node.vector[j] as f32;
                }
                v[i] = sum.round().max(-128.0).min(127.0) as i8;
            }
            v
        })
        .collect();
    let warped = warp(&shape, &vectors);
    assert_eq!(warped.nodes[0].vector[0], 42);
    assert_eq!(warped.name, "test_warped");
}

#[test]
fn test_expand() {
    let shape = Shape::new("test", vec![dummy_node(1, 10)]);
    // three variants, each entry moved by less than a half
    let expanded = expand(&shape, &vec![vec![[10; 64], [11; 64], [9; 64]]]);
    assert!(expanded.len() >= 1);
}

#[test]
fn expand_keeps_close_variants_only() {
    let shape = Shape::new("e", vec![dummy_node(7, 10)]);
    let expanded = expand(&shape, &vec![vec![[10; 64], [8; 64], [9; 64]]]);
    // 64 * 10 * 9 = 5760 is close, 64 * 10 * 8 = 5120 is not
    assert_eq!(expanded.node_ids(), vec![7, 8, 9]);
    assert_eq!(expanded.nodes[1].vector, [10; 64]);
    assert_eq!(expanded.nodes[2].vector, [9; 64]);
    assert_eq!(expanded.nodes[0].vector, [10; 64]);
    assert_eq!(expanded.name, "e_expanded");
}

#[test]
fn test_compress() {
    let shape = Shape::new("test", vec![dummy_node(1, 1), dummy_node(2, 2), dummy_node(3, 3)]);
    let keep = ((shape.len() as f64) * 0.5).ceil() as usize;
    let compressed = compress(&shape, Some(keep));
    assert!(compressed.len() <= 2);
}

#[test]
fn compress_keeps_the_most_confident() {
    let mut nodes = vec![dummy_node(1, 1), dummy_node(2, 2), dummy_node(3, 3)];
    nodes[0].confidence = 5;
    nodes[1].confidence = 9;
    nodes[2].confidence = 9;
    let shape = Shape::new("c", nodes);
    assert_eq!(compress(&shape, Some(2)).node_ids(), vec![2, 3]);
    assert_eq!(compress(&shape, Some(0)).node_ids(), vec![2]);
    assert_eq!(compress(&shape, Some(9)).node_ids(), vec![2, 3, 1]);
    assert_eq!(compress(&shape, None).node_ids(), vec![1, 2, 3]);
    assert_eq!(compress(&shape, None).name, "c");
}

#[test]
fn test_split() {
    let shape = Shape::new("test", vec![dummy_node(1, 0), dummy_node(2, 100)]);
    let parts = split(&shape, units(0.5));
    assert!(parts.len() >= 1);
}

#[test]
fn split_finds_connected_components() {
    let mut nodes = vec![
        node_on(1, 0, 100),
        node_on(2, 1, 100),
        node_on(3, 0, 100),
        node_on(4, 5, 100),
    ];
    // a concept between the two axes joins them
    let mut v = [0i8; 64];
    v[0] = 80;
    v[1] = 80;
    nodes.push(ConceptNode::new(5, v));
    let shape = Shape::new("s", nodes);
    let parts = split(&shape, HALF_SIMILAR);
    let ids: Vec<Vec<u32>> = parts.iter().map(|p| p.node_ids()).collect();
    let mut sorted = ids.clone();
    for p in sorted.iter_mut() {
        p.sort();
    }
    assert_eq!(sorted, vec![vec![1, 2, 3, 5], vec![4]]);
    assert_eq!(parts[0].name, "s_split0");
    assert_eq!(parts[1].name, "s_split1");
    assert!(split(&Shape::empty("none"), 0).is_empty());
}

// --- homology -------------------------------------------------------------

#[test]
fn test_h0_basic() {
    let nodes = vec![dummy_node(1, 0), dummy_node(2, 10), dummy_node(3, 100)];
    let shape = Shape::new("test", nodes);
    let barcodes = persistent_h0(&shape);
    assert!(barcodes.len() >= 1);
}

#[test]
fn h0_counts_components() {
    let nodes = vec![node_on(1, 0, 100), node_on(2, 0, 90), node_on(3, 1, 100)];
    let shape = Shape::new("h", nodes);
    // one edge, of 9000, joins the first two
    assert_eq!(
        persistent_h0(&shape),
        vec![
            Bar { birth: 0, death: None },
            Bar { birth: 0, death: None },
            Bar { birth: 0, death: Some(8192 - 9000) },
        ]
    );
    assert!(persistent_h1(&shape, 100).is_empty());
}

#[test]
fn every_concept_has_a_bar_and_a_triangle_has_a_loop() {
    // edges of 9000, 8000 and 7200
    let nodes = vec![node_on(1, 0, 100), node_on(2, 0, 90), node_on(3, 0, 80)];
    let shape = Shape::new("t", nodes);
    assert_eq!(
        persistent_h0(&shape),
        vec![
            Bar { birth: 0, death: None },
            Bar { birth: 0, death: Some(8192 - 8000) },
            Bar { birth: 0, death: Some(8192 - 9000) },
        ]
    );
    // the weakest edge closes the loop
    assert_eq!(persistent_h1(&shape, 992), vec![Bar { birth: 8192 - 7200, death: None }]);
    assert!(persistent_h1(&shape, 991).is_empty());
    assert!(persistent_h0(&Shape::empty("none")).is_empty());
}

#[test]
fn loops_are_the_edges_beyond_a_spanning_forest() {
    // four concepts on one axis have six edges, three of them in the tree
    let nodes = (0..4).map(|i| node_on(i, 0, 100)).collect();
    let shape = Shape::new("four", nodes);
    assert_eq!(shape.edges.len(), 6);
    assert_eq!(persistent_h1(&shape, 0).len(), 6 - 4 + 1);
}

#[test]
fn folding_takes_the_weighted_mean() {
    let mut nodes = vec![node_on(1, 0, 100), node_on(2, 0, 90), node_on(3, 1, 100)];
    nodes[0].confidence = 3;
    nodes[1].confidence = 1;
    let shape = Shape::new("h", nodes);
    assert!(shape.is_sound());
    let folded = fold(&shape, 0);
    assert_eq!(folded.name, "h_folded");
    assert_eq!(folded.node_ids(), vec![1, 3]);
    // (3 * 100 + 90) / 4 = 97.5
    assert_eq!(folded.nodes[0].vector[0], 98);
    assert_eq!(folded.nodes[0].vector[1], 0);
    assert_eq!(folded.nodes[0].confidence, 3);
    assert_eq!(folded.nodes[1].vector[1], 100);
    // the bar of the edge is -808 long
    assert_eq!(fold(&shape, -807).len(), 2);
    let apart = fold(&shape, -808);
    assert_eq!(apart.node_ids(), vec![1, 2, 3]);
    assert_eq!(apart.nodes[1].vector, shape.nodes[1].vector);
    assert_eq!(fold(&shape, i32::MIN).len(), 3);
    assert_eq!(fold(&shape, i32::MAX).len(), 2);
}

#[test]
fn folding_without_confidence_takes_the_plain_mean() {
    let mut nodes = vec![node_on(1, 5, -100), node_on(2, 5, -95), node_on(3, 5, -100)];
    for n in nodes.iter_mut() {
        n.confidence = 0;
    }
    let folded = fold(&Shape::new("m", nodes), 0);
    assert_eq!(folded.len(), 1);
    // -295 / 3 = -98.3
    assert_eq!(folded.nodes[0].vector[5], -98);
    let one = Shape::new("one", vec![node_on(7, 0, 100)]);
    assert_eq!(fold(&one, 0).name, "one");
}

#[test]
fn edges_join_positions_of_a_sound_shape() {
    let mut shape = Shape::new("t", vec![node_on(1, 0, 100), node_on(2, 0, 90)]);
    assert!(shape.is_sound());
    shape.edges[0].1 = 2;
    assert!(!shape.is_sound());
}

#[test]
fn complex_of_a_triangle() {
    let nodes = vec![node_on(1, 0, 100), node_on(2, 0, 90), node_on(3, 0, 80)];
    let shape = Shape::new("t", nodes);
    let c = build_vietoris_rips(&shape, 1000);
    let sizes: Vec<usize> = c.iter().map(|s| s.vertices.len()).collect();
    assert_eq!(sizes, vec![1, 1, 1, 2, 2, 2, 3]);
    assert_eq!(c[6].vertices, vec![0, 1, 2]);
    assert_eq!(c[6].filtration, 8192 - 9000);
}

#[test]
fn test_fold() {
    let nodes = vec![dummy_node(1, 0), dummy_node(2, 1)];
    let shape = Shape::new("test", nodes);
    let folded = fold(&shape, units(0.1));
    assert!(folded.len() <= 2);
}

#[test]
fn test_intersect() {
    let a = Shape::new("a", vec![dummy_node(1, 42)]);
    let b = Shape::new("b", vec![dummy_node(2, 42)]);
    let result = intersect(&a, &b, units(0.9));
    assert!(!result.is_empty());
}

#[test]
fn intersect_of_unlike_shapes_is_empty() {
    let a = Shape::new("a", vec![node_on(1, 0, 100)]);
    let b = Shape::new("b", vec![node_on(2, 1, 100)]);
    assert!(intersect(&a, &b, units(0.9)).is_empty());
}

// --- memory ---------------------------------------------------------------

#[test]
fn test_working_set() {
    let mut ws = WorkingSet::new();
    ws.touch(1);
    ws.touch(2);
    assert!(ws.contains(1));
    assert!(ws.contains(2));
    assert_eq!(ws.len(), 2);
}

#[test]
fn working_set_drops_by_age_and_number() {
    let mut ws = WorkingSet::new();
    assert!(ws.is_empty());
    ws.touch_at(1, 0);
    ws.touch_at(2, 10);
    assert_eq!(ws.ids_at(WORKING_SET_TTL), vec![2]);
    // what is too old does not count, though nothing was used since
    assert!(!ws.contains_at(1, WORKING_SET_TTL));
    assert!(ws.contains_at(2, WORKING_SET_TTL));
    assert_eq!(ws.len_at(WORKING_SET_TTL - 1), 2);
    assert_eq!(ws.len_at(WORKING_SET_TTL), 1);
    assert_eq!(ws.len_at(WORKING_SET_TTL + 10), 0);
    ws.touch_at(3, WORKING_SET_TTL);
    assert!(!ws.contains_at(1, WORKING_SET_TTL));
    assert!(ws.contains_at(2, WORKING_SET_TTL));
    assert_eq!(ws.ids_at(WORKING_SET_TTL), vec![2, 3]);
    let mut full = WorkingSet::new();
    for i in 0..(WORKING_SET_MAX as u32 + 5) {
        full.touch_at(i, 0);
    }
    assert_eq!(full.len_at(0), WORKING_SET_MAX);
    assert!(!full.contains_at(4, 0));
    assert!(full.contains_at(5, 0));
    let mut now = WorkingSet::new();
    now.touch(8);
    assert_eq!(now.ids(), vec![8]);
    assert!(!now.is_empty());
}

#[test]
fn test_similarity_cache() {
    let mut cache: SimilarityCache<f64> = SimilarityCache::new(100);
    assert!(cache.get(1, 2).is_none());
    cache.insert(1, 2, 0.95);
    assert!((cache.get(1, 2).unwrap() - 0.95).abs() < 1e-6);
    let (hits, lookups) = cache.hit_rate();
    assert!(hits as f64 / lookups as f64 > 0.0);
    assert_eq!((hits, lookups), (1, 2));
}

#[test]
fn similarity_cache_ages_and_evicts() {
    let mut cache: SimilarityCache<i32> = SimilarityCache::new(2);
    assert_eq!(cache.hit_rate(), (1, 1));
    cache.insert_at(1, 2, 12, 0);
    assert_eq!(cache.get_at(2, 1, SIMILARITY_TTL - 1), Some(12));
    // the lookup used it anew
    assert_eq!(cache.get_at(1, 2, 2 * SIMILARITY_TTL - 2), Some(12));
    assert_eq!(cache.get_at(1, 2, 9 * SIMILARITY_TTL), None);
    cache.insert_at(1, 2, 13, 0);
    cache.insert_at(3, 4, 34, 0);
    cache.insert_at(5, 6, 56, 0);
    assert_eq!(cache.get_at(1, 2, 0), None);
    assert_eq!(cache.get_at(3, 4, 0), Some(34));
    assert_eq!(cache.get_at(6, 5, 0), Some(56));
    cache.clear();
    assert_eq!(cache.get_at(3, 4, 0), None);
    assert_eq!(cache.hit_rate(), (0, 1));
}

#[test]
fn the_cache_drops_what_was_used_longest_ago() {
    let mut cache: SimilarityCache<f64> = SimilarityCache::new(2);
    assert_eq!(cache.capacity(), 2);
    cache.insert(1, 2, 0.1);
    cache.insert(3, 4, 0.3);
    assert_eq!(cache.get(1, 2), Some(0.1));
    cache.insert(5, 6, 0.5);
    assert_eq!(cache.get(3, 4), None);
    assert_eq!(cache.get(2, 1), Some(0.1));
    assert_eq!(cache.get(5, 6), Some(0.5));
    // a new score is a use too
    cache.insert(1, 2, 0.2);
    cache.insert(7, 8, 0.7);
    assert_eq!(cache.get(5, 6), None);
    assert_eq!(cache.get(1, 2), Some(0.2));
}

#[test]
fn forgetting_takes_out_one_concept() {
    let mut fc = ForgettingCurve::new();
    for id in [4, 2, 9, 2] {
        fc.touch_at(id, id as u64);
    }
    assert_eq!(fc.len(), 3);
    assert_eq!(fc.ids(), vec![4, 2, 9]);
    fc.remove(2);
    assert_eq!(fc.len(), 2);
    assert_eq!(fc.stale_at(1, 1, 1_000_000_000_000), vec![4, 9]);
    fc.remove(2);
    assert_eq!(fc.len(), 2);
    fc.touch_at(2, 0);
    assert_eq!(fc.stale_at(1, 1, 1_000_000_000_000), vec![4, 9, 2]);
}

#[test]
fn test_forgetting_curve() {
    let mut fc = ForgettingCurve::new();
    fc.touch(1);
    fc.touch(2);
    let s = fc.score(1).unwrap();
    assert!(s.uses_by_nano as f64 / s.nanos as f64 > 0.0);
    assert!(fc.score(99).is_none());
    let stale = fc.stale(100, 1);
    assert!(!stale.is_empty());
}

#[test]
fn forgetting_curve_scores_exactly() {
    let mut fc = ForgettingCurve::new();
    fc.touch_at(1, 0);
    fc.touch_at(1, 1_000_000_000);
    fc.touch_at(2, 3_000_000_000);
    // two uses, one second ago: 2 / 2
    let s = fc.score_at(1, 2_000_000_000).unwrap();
    assert_eq!((s.uses_by_nano, s.nanos), (2_000_000_000, 2_000_000_000));
    // 2 / 5 and 1 / 3 at five seconds
    assert_eq!(fc.stale_at(2, 5, 5_000_000_000), vec![2]);
    assert_eq!(fc.stale_at(1, 2, 5_000_000_000), vec![1, 2]);
    assert!(fc.stale_at(1, 3, 5_000_000_000).is_empty());
    fc.remove(1);
    assert_eq!(fc.len(), 1);
    assert!(fc.score_at(1, 0).is_none());
    fc.remove(2);
    assert!(fc.is_empty());
}

#[test]
fn the_clock_goes_on() {
    let clock = Clock::start();
    let a = clock.nanos();
    let mut b = clock.nanos();
    while b == a {
        b = clock.nanos();
    }
    assert!(b > a);
    assert!(b < 20_000_000_000);
}

// --- morph ----------------------------------------------------------------

fn dummy_shape(name: &str, count: usize) -> Shape {
    let nodes: Vec<ConceptNode> = (0..count)
        .map(|i| {
            let mut v = [0i8; 64];
            v[0] = i as i8;
            ConceptNode::new(i as u32 + 1, v)
        })
        .collect();
    Shape::new(name, nodes)
}

#[test]
fn test_morph_small() {
    let from = dummy_shape("from", 5);
    let to = dummy_shape("to", 5);
    let mut cache: SimilarityCache<i32> = SimilarityCache::new(100);

    let p = morph_params(&from, &to, urgency(0.5), DepthMode::Surface, headroom(0.8), 5);
    let coupling = initial_coupling_at(&from, &to, p.k, &mut cache, 0);
    let vectors: Vec<[i8; 64]> = coupling
        .iter()
        .map(|row| {
            let mut v = [0f64; 64];
            let total: f64 = row.iter().map(|(_, s)| (*s as f64 / 8192.0).exp()).sum();
            for (id, s) in row {
                let node = to.nodes.iter().find(|n| n.id == *id).unwrap();
                for j in 0..64 {
                    v[j] += (*s as f64 / 8192.0).exp() / total * node.vector[j] as f64;
                }
            }
            v.map(|x| x.round() as i8)
        })
        .collect();
    let shape = morphed(&from, &vectors);
    assert!(!shape.is_empty());
    assert!(p.k >= 8);
    assert_eq!(shape.name, "from_morphed");
    assert_eq!(shape.node_ids(), vec![1, 2, 3, 4, 5]);
    assert_eq!(shape.nodes[0].vector[0], 2);
}

#[test]
fn coupling_prefers_the_most_similar_and_the_cache_changes_nothing() {
    let from = dummy_shape("from", 3);
    let to = dummy_shape("to", 4);
    let mut cache: SimilarityCache<i32> = SimilarityCache::new(100);
    let cold = initial_coupling_at(&from, &to, 2, &mut cache, 0);
    // node 3 of `from` is (2, 0, ..); its products with `to` are 0, 2, 4 and 6
    assert_eq!(cold[2], vec![(4, 6), (3, 4)]);
    assert_eq!(cold[0], vec![(1, 0), (2, 0)]);
    let warm = initial_coupling_at(&from, &to, 2, &mut cache, 1);
    assert_eq!(cold, warm);
    let mut small: SimilarityCache<i32> = SimilarityCache::new(2);
    assert_eq!(initial_coupling(&from, &to, 2, &mut small), cold);
    let (_, lookups) = small.hit_rate();
    assert_eq!(lookups, 12);
}

#[test]
fn early_termination_takes_five_rounds() {
    assert_eq!(sinkhorn_rounds(20, true), 5);
    assert_eq!(sinkhorn_rounds(3, true), 3);
    assert_eq!(sinkhorn_rounds(20, false), 20);
}
