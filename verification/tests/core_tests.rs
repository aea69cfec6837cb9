use od2net::codec::CacheUnavailable;
use od2net::cost::{scaled_cost, slope_factor_of, slope_from_heights, SlopeFactor};
use od2net::counts::Counts;
use od2net::network::{Edge, EdgeKey, Lts, Network, NodeId, RawEdge, Tag, WayId};
use od2net::position::Position;
use od2net::router::{detailed_routes, route_all, Demand, RoutingIndex, WEIGHT_SCALE};
use od2net::summary::RunSummary;

fn raw_edge(n1: i64, n2: i64, fwd: Option<u64>, bwd: Option<u64>, slope: Option<i64>) -> RawEdge {
    RawEdge {
        node1: NodeId(n1),
        node2: NodeId(n2),
        way_id: WayId(100 + n1),
        tags: Vec::new(),
        geometry: Vec::new(),
        length_mm: 100_000,
        lts: Lts::Lts2,
        forward_base: fwd,
        backward_base: bwd,
        slope,
        nearby_amenities: 0,
    }
}

fn three_node_network() -> Network {
    let nodes = vec![
        (NodeId(1), Position::new(0, 0)),
        (NodeId(2), Position::new(1000, 0)),
        (NodeId(3), Position::new(2000, 0)),
    ];
    let edges = vec![
        raw_edge(1, 2, Some(10), Some(10), None),
        raw_edge(2, 3, Some(10), Some(10), None),
    ];
    Network::build(nodes, edges)
}

#[test]
fn speed_slope_test() {
    let speed_flat = 15.0;
    let slope = 3.0_f64;
    let length = 50.0_f64;
    let f = Edge::calculate_slope_factor((slope * 10_000.0) as i64, (length * 1000.0) as u64);
    let slope_factor = f.num as f64 / f.den as f64;
    let slope_speed = speed_flat / slope_factor;
    let delta = slope_speed - 12.67241;
    assert!(delta < f64::EPSILON);

    let slope = -8.0_f64;
    let length = 100.0_f64;
    let f = Edge::calculate_slope_factor((slope * 10_000.0) as i64, (length * 1000.0) as u64);
    let slope_factor = f.num as f64 / f.den as f64;
    let slope_speed = speed_flat / slope_factor;
    let delta = slope_speed - 37.17009;
    assert!(delta < f64::EPSILON);
}

#[test]
fn flat_slope_gives_unscaled_cost() {
    let f = slope_factor_of(0, 100_000);
    assert_eq!(f.num, f.den);
    assert_eq!(scaled_cost(500, f), 500);
    assert_eq!(scaled_cost(0, f), 0);
}

#[test]
fn slope_factor_is_asymmetric() {
    // 3% slope on a 50 m edge: negating the slope changes the factor.
    let fwd = slope_factor_of(30_000, 50_000);
    let bwd = slope_factor_of(-30_000, 50_000);
    assert_ne!(
        (fwd.num as u128) * (bwd.den as u128),
        (bwd.num as u128) * (fwd.den as u128)
    );
    // 25% slope: fixed penalty forward, quadratic reward band backward.
    let fwd = slope_factor_of(250_000, 50_000);
    let bwd = slope_factor_of(-250_000, 50_000);
    assert_ne!(
        (fwd.num as u128) * (bwd.den as u128),
        (bwd.num as u128) * (fwd.den as u128)
    );
}

#[test]
fn climb_boundary_is_a_discontinuity() {
    // Exactly 20%: still the quadratic law, 1 + 400/g^2 with g = 7.
    let f = slope_factor_of(200_000, 50_000);
    assert_eq!(f.den, 100_000_000 * 14 * 14);
    assert_eq!(f.num, f.den + 160_000_000_000);
    let factor = f.num as f64 / f.den as f64;
    let expected = 1.0 + 400.0 / 49.0;
    assert!((factor - expected).abs() < 1e-12);
    // 20.0001%: the very next representable slope draws the fixed 10.
    let f = slope_factor_of(200_001, 50_000);
    assert_eq!((f.num, f.den), (10, 1));
}

#[test]
fn steep_descent_capped_at_three_halves() {
    assert_eq!(slope_factor_of(-300_001, 50_000), SlopeFactor { num: 3, den: 2 });
    assert_eq!(slope_factor_of(-1_000_000, 50_000), SlopeFactor { num: 3, den: 2 });
    assert_eq!(slope_factor_of(-999_999_999, 1), SlopeFactor { num: 3, den: 2 });
    // Exactly -30% is still on the quadratic band, just under 1.5.
    let f = slope_factor_of(-300_000, 50_000);
    assert!((f.num as u128) * 2 < 3 * (f.den as u128));
}

#[test]
fn scaled_cost_rounds_to_nearest() {
    assert_eq!(scaled_cost(100, SlopeFactor { num: 3, den: 2 }), 150);
    assert_eq!(scaled_cost(5, SlopeFactor { num: 1, den: 3 }), 2);
    assert_eq!(scaled_cost(100, SlopeFactor { num: 10, den: 1 }), 1000);
}

#[test]
fn slope_from_heights_exact() {
    // 3 m gained over 100 m is a 3% slope: 30_000 fixed-point units.
    assert_eq!(slope_from_heights(0, 3000, 100_000), 30_000);
    assert_eq!(slope_from_heights(3000, 0, 100_000), -30_000);
    assert_eq!(slope_from_heights(500, 500, 100_000), 0);
}

#[test]
fn apply_elevation_gives_directional_factors() {
    let nodes = vec![(NodeId(1), Position::new(0, 0))];
    let edges = vec![raw_edge(1, 1, Some(10), None, None)];
    let net = Network::build(nodes, edges);
    let e = net.edges.get(&EdgeKey { from: NodeId(1), to: NodeId(1) }).unwrap();
    let (slope, (fwd, bwd)) = e.apply_elevation(0, 3000);
    assert_eq!(slope, 30_000);
    assert_eq!(fwd, slope_factor_of(30_000, 100_000));
    assert_eq!(bwd, slope_factor_of(-30_000, 100_000));
    assert_ne!(
        (fwd.num as u128) * (bwd.den as u128),
        (bwd.num as u128) * (fwd.den as u128)
    );
}

fn counts_equal(a: &Counts, b: &Counts, keys: &[EdgeKey], pts: &[Position]) -> bool {
    if a.errors != b.errors {
        return false;
    }
    for k in keys {
        if a.count_per_edge.get(k).copied() != b.count_per_edge.get(k).copied() {
            return false;
        }
    }
    for p in pts {
        if a.count_per_origin.get(p).copied() != b.count_per_origin.get(p).copied() {
            return false;
        }
        if a.count_per_destination.get(p).copied() != b.count_per_destination.get(p).copied() {
            return false;
        }
    }
    a.total_distance_by_lts == b.total_distance_by_lts
}

fn sample_counts(seed: u64) -> Counts {
    let mut c = Counts::new();
    c.errors = seed;
    c.count_per_edge
        .add_weight(EdgeKey { from: NodeId(1), to: NodeId(2) }, 10 + seed);
    c.count_per_edge
        .add_weight(EdgeKey { from: NodeId(2), to: NodeId(3) }, 20 + seed);
    c.count_per_origin.add_weight(Position::new(5, 5), seed + 1);
    c.count_per_destination.add_weight(Position::new(6, 6), seed + 2);
    c.total_distance_by_lts[2] = 100 * seed;
    c
}

#[test]
fn counts_combine_monoid_laws_concrete() {
    let keys = [
        EdgeKey { from: NodeId(1), to: NodeId(2) },
        EdgeKey { from: NodeId(2), to: NodeId(3) },
    ];
    let pts = [Position::new(5, 5), Position::new(6, 6)];

    // Unit: combining with an empty Counts changes nothing.
    let mut a = sample_counts(3);
    a.combine(Counts::new());
    assert!(counts_equal(&a, &sample_counts(3), &keys, &pts));

    // Commutativity.
    let mut ab = sample_counts(3);
    ab.combine(sample_counts(7));
    let mut ba = sample_counts(7);
    ba.combine(sample_counts(3));
    assert!(counts_equal(&ab, &ba, &keys, &pts));

    // Associativity.
    let mut left = sample_counts(3);
    left.combine(sample_counts(7));
    left.combine(sample_counts(11));
    let mut bc = sample_counts(7);
    bc.combine(sample_counts(11));
    let mut right = sample_counts(3);
    right.combine(bc);
    assert!(counts_equal(&left, &right, &keys, &pts));
}

#[test]
fn end_to_end_three_nodes() {
    let net = three_node_network();
    let index = RoutingIndex::build(&net);
    let demands = vec![Demand {
        origin: Position::new(0, 0),
        destination: Position::new(2000, 0),
        weight: WEIGHT_SCALE,
    }];
    let counts = route_all(&index, &net, &demands, 1_000_000);
    assert_eq!(counts.errors, 0);
    assert_eq!(
        counts.count_per_edge.get(&EdgeKey { from: NodeId(1), to: NodeId(2) }),
        Some(&1_000_000)
    );
    assert_eq!(
        counts.count_per_edge.get(&EdgeKey { from: NodeId(2), to: NodeId(3) }),
        Some(&1_000_000)
    );
    assert_eq!(counts.count_per_origin.get(&Position::new(0, 0)), Some(&1_000_000));
    assert_eq!(
        counts.count_per_destination.get(&Position::new(2000, 0)),
        Some(&1_000_000)
    );
    // Both traversed edges are 100 m of stress class 2.
    assert_eq!(counts.total_distance_by_lts, vec![0, 0, 200_000, 0, 0]);
}

#[test]
fn partitioned_routing_matches_sequential() {
    let net = three_node_network();
    let index = RoutingIndex::build(&net);
    let d1 = Demand {
        origin: Position::new(0, 0),
        destination: Position::new(2000, 0),
        weight: 500_000,
    };
    let d2 = Demand {
        origin: Position::new(2000, 0),
        destination: Position::new(0, 0),
        weight: 250_000,
    };
    let all = vec![d1, d2];
    let sequential = route_all(&index, &net, &all, 1_000_000);
    let mut merged = route_all(&index, &net, &vec![d1], 1_000_000);
    merged.combine(route_all(&index, &net, &vec![d2], 1_000_000));
    let keys = [
        EdgeKey { from: NodeId(1), to: NodeId(2) },
        EdgeKey { from: NodeId(2), to: NodeId(3) },
    ];
    let pts = [Position::new(0, 0), Position::new(2000, 0)];
    assert!(counts_equal(&sequential, &merged, &keys, &pts));
}

#[test]
fn unroutable_demand_counts_one_error() {
    let net = three_node_network();
    let index = RoutingIndex::build(&net);
    let demands = vec![Demand {
        origin: Position::new(0, 0),
        destination: Position::new(50_000_000, 0),
        weight: WEIGHT_SCALE,
    }];
    let counts = route_all(&index, &net, &demands, 1_000_000);
    assert_eq!(counts.errors, 1);
    assert_eq!(
        counts.count_per_edge.get(&EdgeKey { from: NodeId(1), to: NodeId(2) }),
        None
    );
    assert_eq!(counts.count_per_edge.len(), 0);
    assert_eq!(counts.total_distance_by_lts, vec![0, 0, 0, 0, 0]);
}

#[test]
fn one_way_edge_is_impassable_backward() {
    let nodes = vec![
        (NodeId(1), Position::new(0, 0)),
        (NodeId(2), Position::new(1000, 0)),
    ];
    let edges = vec![raw_edge(1, 2, Some(10), None, None)];
    let net = Network::build(nodes, edges);
    let index = RoutingIndex::build(&net);
    let back = vec![Demand {
        origin: Position::new(1000, 0),
        destination: Position::new(0, 0),
        weight: WEIGHT_SCALE,
    }];
    let counts = route_all(&index, &net, &back, 1_000_000);
    assert_eq!(counts.errors, 1);
}

#[test]
fn parallel_edges_collapse_to_last() {
    let nodes = vec![
        (NodeId(1), Position::new(0, 0)),
        (NodeId(2), Position::new(1000, 0)),
    ];
    let edges = vec![
        raw_edge(1, 2, Some(10), Some(10), None),
        raw_edge(1, 2, Some(99), Some(99), None),
    ];
    let net = Network::build(nodes, edges);
    assert_eq!(net.edges.len(), 1);
    let e = net.edges.get(&EdgeKey { from: NodeId(1), to: NodeId(2) }).unwrap();
    assert_eq!(e.forward_cost, Some(99));
}

#[test]
fn nearest_node_respects_radius_and_order() {
    let net = three_node_network();
    // Closest to (900, 0) is node 2 at distance^2 = 10000.
    assert_eq!(net.nearest_node(Position::new(900, 0), 1_000_000), Some(NodeId(2)));
    // Radius too small: no node within range.
    assert_eq!(net.nearest_node(Position::new(900, 0), 9_999), None);
    // Exactly on the boundary is still within range.
    assert_eq!(net.nearest_node(Position::new(900, 0), 10_000), Some(NodeId(2)));
}

#[test]
fn cache_fallback_scenario() {
    // Load on missing contents reports CacheUnavailable...
    let loaded = Network::load_from_bin(None);
    assert!(matches!(loaded, Err(CacheUnavailable::Missing)));
    // ...so the caller builds and saves...
    let net = three_node_network();
    let bytes = net.save_to_bin();
    // ...after which a load succeeds and yields an equal network.
    let reloaded = Network::load_from_bin(Some(&bytes)).unwrap();
    assert_eq!(reloaded.intersections.len(), 3);
    assert_eq!(reloaded.edges.len(), 2);
    assert_eq!(
        reloaded.intersections.get(&NodeId(2)),
        Some(&Position::new(1000, 0))
    );
    let k = EdgeKey { from: NodeId(1), to: NodeId(2) };
    let orig = net.edges.get(&k).unwrap();
    let back = reloaded.edges.get(&k).unwrap();
    assert_eq!(back.way_id, orig.way_id);
    assert_eq!(back.length_mm, orig.length_mm);
    assert_eq!(back.lts, orig.lts);
    assert_eq!(back.forward_cost, orig.forward_cost);
    assert_eq!(back.backward_cost, orig.backward_cost);
    assert_eq!(back.slope, orig.slope);
    // Saving the reloaded network reproduces the same image.
    assert_eq!(reloaded.save_to_bin(), bytes);
}

#[test]
fn corrupt_cache_is_reported() {
    assert!(matches!(
        Network::load_from_bin(Some(&vec![1, 2, 3])),
        Err(CacheUnavailable::Corrupt)
    ));
    // A valid image truncated in the middle is corrupt too.
    let net = three_node_network();
    let mut bytes = net.save_to_bin();
    bytes.truncate(bytes.len() - 1);
    assert!(matches!(
        Network::load_from_bin(Some(&bytes)),
        Err(CacheUnavailable::Corrupt)
    ));
    // Trailing garbage is rejected as well.
    let mut bytes = net.save_to_bin();
    bytes.push(0);
    assert!(matches!(
        Network::load_from_bin(Some(&bytes)),
        Err(CacheUnavailable::Corrupt)
    ));
}

#[test]
fn cache_roundtrip_keeps_tags_and_geometry() {
    let nodes = vec![(NodeId(7), Position::new(-5, 9))];
    let mut e = raw_edge(7, 7, Some(42), None, Some(-12_345));
    e.tags = vec![Tag { key: b"highway".to_vec(), value: b"cycleway".to_vec() }];
    e.geometry = vec![Position::new(-5, 9), Position::new(12, -40)];
    let net = Network::build(nodes, vec![e]);
    let bytes = net.save_to_bin();
    let reloaded = Network::load_from_bin(Some(&bytes)).unwrap();
    let k = EdgeKey { from: NodeId(7), to: NodeId(7) };
    let back = reloaded.edges.get(&k).unwrap();
    assert_eq!(back.tags.len(), 1);
    assert_eq!(back.tags[0].key, b"highway".to_vec());
    assert_eq!(back.tags[0].value, b"cycleway".to_vec());
    assert_eq!(back.geometry, vec![Position::new(-5, 9), Position::new(12, -40)]);
    assert_eq!(back.slope, Some(-12_345));
    assert!(back.slope_factor.is_some());
}

#[test]
fn detailed_routes_preserve_input_order() {
    let net = three_node_network();
    let index = RoutingIndex::build(&net);
    let demands = vec![
        Demand {
            origin: Position::new(0, 0),
            destination: Position::new(2000, 0),
            weight: WEIGHT_SCALE,
        },
        Demand {
            origin: Position::new(0, 0),
            destination: Position::new(50_000_000, 0),
            weight: WEIGHT_SCALE,
        },
        Demand {
            origin: Position::new(2000, 0),
            destination: Position::new(0, 0),
            weight: WEIGHT_SCALE,
        },
    ];
    let details = detailed_routes(&index, &net, &demands, 1_000_000, 2);
    assert_eq!(details.len(), 2);
    assert!(details[0].found);
    assert_eq!(details[0].cost, 20);
    assert_eq!(details[0].steps.len(), 2);
    assert_eq!(details[0].origin, Position::new(0, 0));
    assert!(!details[1].found);
    assert_eq!(details[1].destination, Position::new(50_000_000, 0));
}

#[test]
fn run_summary_derives_totals() {
    let mut c = Counts::new();
    c.errors = 3;
    let s = RunSummary::new(10, &c);
    assert_eq!(s.num_requests, 10);
    assert_eq!(s.errors, 3);
    assert_eq!(s.succeeded, 7);
    assert_eq!(s.failure_per_mille, 300);
    let s = RunSummary::new(0, &Counts::new());
    assert_eq!(s.failure_per_mille, 0);
    assert_eq!(s.succeeded, 0);
}

#[test]
fn lts_index_roundtrip() {
    for i in 0..5u8 {
        let l = Lts::from_index(i).unwrap();
        assert_eq!(l.to_index(), i as usize);
    }
    assert!(Lts::from_index(5).is_none());
    assert!(Lts::from_index(200).is_none());
}

#[test]
fn position_identity_is_exact() {
    let p = Position::new(-1_234_567, 891_011);
    let q = Position::new(-1_234_567, 891_011);
    assert_eq!(p, q);
    assert_ne!(p, Position::new(-1_234_567, 891_012));
    assert_eq!(p.lon, -1_234_567);
    assert_eq!(p.lat, 891_011);
}

#[test]
fn index_cache_load_or_build() {
    let net = three_node_network();
    // No cache: the index is built and a fresh image is handed back.
    let (index, fresh) = RoutingIndex::load_or_build(None, &net);
    let bytes = fresh.expect("a fresh image to persist");
    // With the cache present: it is reused and no new image appears.
    let (cached, none) = RoutingIndex::load_or_build(Some(&bytes), &net);
    assert!(none.is_none());
    assert_eq!(cached.to_cache_bytes(), bytes);
    // The reused index routes exactly like the fresh one.
    let demands = vec![Demand {
        origin: Position::new(0, 0),
        destination: Position::new(2000, 0),
        weight: WEIGHT_SCALE,
    }];
    let a = route_all(&index, &net, &demands, 1_000_000);
    let b = route_all(&cached, &net, &demands, 1_000_000);
    let keys = [
        EdgeKey { from: NodeId(1), to: NodeId(2) },
        EdgeKey { from: NodeId(2), to: NodeId(3) },
    ];
    let pts = [Position::new(0, 0), Position::new(2000, 0)];
    assert!(counts_equal(&a, &b, &keys, &pts));
    // An unusable cache image falls back to a rebuild.
    let (_, rebuilt) = RoutingIndex::load_or_build(Some(&vec![9, 9, 9]), &net);
    assert!(rebuilt.is_some());
}
