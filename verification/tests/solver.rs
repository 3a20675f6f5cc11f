use ontrack_core::cost::order_key;
use ontrack_core::solver::{dropped_nodes, nearest_neighbor, open_locations, open_matrix, validate};
use ontrack_core::{Location, RoutePlan, SolveError, SolverBackend, SolverConfig, TspRun, TwoOptSearch};

fn loc(addr: &str) -> Location {
    Location { address: addr.to_string(), lat: Some(0.0f64.to_bits()), lng: Some(0.0f64.to_bits()) }
}

fn bits(m: &[Vec<f64>]) -> Vec<Vec<u64>> {
    m.iter().map(|row| row.iter().map(|x| x.to_bits()).collect()).collect()
}

fn cost(m: &[Vec<u64>], a: usize, b: usize) -> f64 {
    f64::from_bits(m[a][b])
}

fn route_cost(m: &[Vec<u64>], order: &[usize]) -> f64 {
    order.windows(2).map(|w| cost(m, w[0], w[1])).sum()
}

/// Runs a solve to the end, deciding each 2-opt move on the f64 costs.
fn solve(locs: &[Location], matrix: &[Vec<f64>], config: SolverConfig) -> Result<(RoutePlan, f64), SolveError> {
    let m = bits(matrix);
    let mut run = TspRun::start(locs, &m, config)?;
    while let Some((a, b, c, d)) = run.pending_move() {
        let delta = (cost(&m, a, c) + cost(&m, b, d)) - (cost(&m, a, b) + cost(&m, c, d));
        run.record(delta < -1e-9);
    }
    let plan = run.finish(locs);
    let total = route_cost(&m, &plan.ordered_indices);
    Ok((plan, total))
}

#[test]
fn solves_trivial_route() {
    let locs = vec![loc("A"), loc("B"), loc("C")];
    let matrix = vec![vec![0.0, 10.0, 15.0], vec![10.0, 0.0, 20.0], vec![15.0, 20.0, 0.0]];
    let (r, _) = solve(&locs, &matrix, SolverConfig::default()).unwrap();
    assert_eq!(r.ordered_indices.len(), 3);
    assert_eq!(r.ordered_indices[0], 0);
}

#[test]
fn two_opt_improves_crossed_route() {
    let locs: Vec<Location> = (0..4).map(|i| loc(&format!("P{i}"))).collect();
    let matrix = vec![
        vec![0.0, 1.0, 2.0, 1.0],
        vec![1.0, 0.0, 1.0, 2.0],
        vec![2.0, 1.0, 0.0, 1.0],
        vec![1.0, 2.0, 1.0, 0.0],
    ];
    let cfg_nn = SolverConfig { backend: SolverBackend::NearestNeighbor, ..Default::default() };
    let cfg_opt = SolverConfig::default();
    let (_, nn_total) = solve(&locs, &matrix, cfg_nn).unwrap();
    let (_, opt_total) = solve(&locs, &matrix, cfg_opt).unwrap();
    assert!(opt_total <= nn_total);
}

#[test]
fn trivial_route_is_exact() {
    let locs = vec![loc("A"), loc("B"), loc("C")];
    let matrix = vec![vec![0.0, 10.0, 15.0], vec![10.0, 0.0, 20.0], vec![15.0, 20.0, 0.0]];
    let (r, total) = solve(&locs, &matrix, SolverConfig::default()).unwrap();
    assert_eq!(r.ordered_indices, vec![0, 1, 2]);
    assert_eq!(r.ordered_addresses, vec!["A".to_string(), "B".to_string(), "C".to_string()]);
    assert!(r.dropped_nodes.is_empty());
    assert_eq!(r.backend_used, "nearest-neighbor+2opt");
    assert_eq!(total, 30.0);
}

#[test]
fn nearest_neighbor_backend_is_named() {
    let locs = vec![loc("A"), loc("B")];
    let matrix = vec![vec![0.0, 1.0], vec![1.0, 0.0]];
    let cfg = SolverConfig { backend: SolverBackend::NearestNeighbor, ..Default::default() };
    let (r, _) = solve(&locs, &matrix, cfg).unwrap();
    assert_eq!(r.backend_used, "nearest-neighbor");
}

#[test]
fn nearest_neighbor_prefers_cheapest_then_lowest_index() {
    let m = bits(&[
        vec![0.0, 5.0, 3.0, 3.0],
        vec![5.0, 0.0, 1.0, 9.0],
        vec![3.0, 1.0, 0.0, 2.0],
        vec![3.0, 9.0, 2.0, 0.0],
    ]);
    // From 0 the cheapest are 2 and 3 at 3.0: the lower index wins.
    assert_eq!(nearest_neighbor(&m, 0), vec![0, 2, 1, 3]);
}

#[test]
fn nearest_neighbor_stops_at_unreachable_stops() {
    let inf = f64::INFINITY;
    let m = bits(&[vec![0.0, 1.0, inf], vec![1.0, 0.0, f64::NAN], vec![inf, inf, 0.0]]);
    assert_eq!(nearest_neighbor(&m, 0), vec![0, 1]);
    assert_eq!(dropped_nodes(3, &vec![0, 1]), vec![2]);
}

#[test]
fn unreachable_stop_is_dropped_by_a_solve() {
    let inf = f64::INFINITY;
    let locs = vec![loc("A"), loc("B"), loc("C")];
    let matrix = vec![vec![0.0, 1.0, inf], vec![1.0, 0.0, inf], vec![inf, inf, 0.0]];
    let (r, _) = solve(&locs, &matrix, SolverConfig::default()).unwrap();
    assert_eq!(r.ordered_indices, vec![0, 1]);
    assert_eq!(r.dropped_nodes, vec![2]);
}

#[test]
fn negative_zero_ties_with_zero() {
    let m = bits(&[vec![0.0, 0.0, -0.0], vec![0.0, 0.0, 0.0], vec![0.0, 0.0, 0.0]]);
    assert_eq!(nearest_neighbor(&m, 0), vec![0, 1, 2]);
}

#[test]
fn order_keys_follow_f64_order() {
    let samples = [
        f64::NEG_INFINITY, -1e300, -2.5, -1.0, -f64::MIN_POSITIVE, -0.0, 0.0, f64::MIN_POSITIVE, 1e-9, 1.0, 2.5,
        1e300, f64::INFINITY,
    ];
    for &x in &samples {
        for &y in &samples {
            assert_eq!(order_key(x.to_bits()) < order_key(y.to_bits()), x < y, "{x} {y}");
        }
        assert!(!(order_key(f64::NAN.to_bits()) < order_key(x.to_bits())));
    }
}

#[test]
fn validation_errors() {
    let locs = vec![loc("A"), loc("B")];
    assert_eq!(validate(&[], &[], 0), Err(SolveError::NoLocations));
    assert_eq!(
        validate(&locs, &bits(&[vec![0.0, 1.0]]), 0),
        Err(SolveError::MatrixShape { rows: 1, cols: 2, locations: 2 })
    );
    assert_eq!(
        validate(&locs, &bits(&[vec![0.0, 1.0], vec![1.0]]), 0),
        Err(SolveError::MatrixShape { rows: 2, cols: 2, locations: 2 })
    );
    assert_eq!(validate(&locs, &[], 0), Err(SolveError::MatrixShape { rows: 0, cols: 0, locations: 2 }));
    assert_eq!(
        validate(&locs, &bits(&[vec![0.0, 1.0], vec![1.0, 0.0]]), 2),
        Err(SolveError::DepotOutOfRange { depot_index: 2, locations: 2 })
    );
    assert_eq!(validate(&locs, &bits(&[vec![0.0, 1.0], vec![1.0, 0.0]]), 1), Ok(()));
    let cfg = SolverConfig { depot_index: 5, ..Default::default() };
    assert!(matches!(solve(&locs, &[vec![0.0, 1.0], vec![1.0, 0.0]], cfg), Err(SolveError::DepotOutOfRange { .. })));
}

#[test]
fn depot_starts_the_route() {
    let locs = vec![loc("A"), loc("B"), loc("C")];
    let matrix = vec![vec![0.0, 1.0, 2.0], vec![1.0, 0.0, 1.0], vec![2.0, 1.0, 0.0]];
    let cfg = SolverConfig { depot_index: 2, ..Default::default() };
    let (r, _) = solve(&locs, &matrix, cfg).unwrap();
    assert_eq!(r.ordered_indices, vec![2, 1, 0]);
}

#[test]
fn two_opt_uncrosses_a_tour() {
    // Tour 0-2-1-3 crosses itself; reversing positions 1..=2 gives 0-1-2-3.
    let mut search = TwoOptSearch::new(vec![0, 2, 1, 3], 5);
    assert_eq!(search.pending_move(), Some((0, 2, 1, 3)));
    search.record(true);
    assert_eq!(search.order(), &vec![0, 1, 2, 3]);
    // The pass improved, so a second pass runs and finds nothing.
    assert_eq!(search.pending_move(), Some((0, 1, 2, 3)));
    search.record(false);
    assert!(search.is_done());
    assert_eq!(search.into_order(), vec![0, 1, 2, 3]);
}

#[test]
fn two_opt_respects_pass_limit_and_short_tours() {
    assert!(TwoOptSearch::new(vec![0, 1, 2], 50).is_done());
    assert!(TwoOptSearch::new(vec![0, 1, 2, 3], 0).is_done());
    let mut search = TwoOptSearch::new(vec![0, 1, 2, 3, 4], 1);
    let mut moves = 0;
    while let Some(_) = search.pending_move() {
        search.record(true);
        moves += 1;
    }
    // One pass over 5 stops evaluates (1,2), (1,3), (2,3).
    assert_eq!(moves, 3);
    let mut order = search.into_order();
    assert_eq!(order[0], 0);
    assert_eq!(order[4], 4);
    order.sort();
    assert_eq!(order, vec![0, 1, 2, 3, 4]);
}

#[test]
fn open_problem_appends_a_free_end() {
    let locs = vec![loc("A"), loc("B")];
    let open_locs = open_locations(&locs);
    assert_eq!(open_locs.len(), 3);
    assert_eq!(open_locs[2].address, "__end__");
    assert!(!open_locs[2].is_resolved());
    let m = open_matrix(&bits(&[vec![0.0, 4.0], vec![4.0, 0.0]]), 2);
    assert_eq!(m, bits(&[vec![0.0, 4.0, 0.0], vec![4.0, 0.0, 0.0], vec![0.0, 0.0, 0.0]]));
}

#[test]
fn open_route_drops_the_end_stop() {
    let locs = vec![loc("A"), loc("B"), loc("C")];
    let matrix = bits(&[vec![0.0, 5.0, 1.0], vec![5.0, 0.0, 1.0], vec![1.0, 1.0, 0.0]]);
    let open_locs = open_locations(&locs);
    let open_m = open_matrix(&matrix, 3);
    let mut run = TspRun::start(&open_locs, &open_m, SolverConfig::default()).unwrap();
    while let Some((a, b, c, d)) = run.pending_move() {
        let delta = (cost(&open_m, a, c) + cost(&open_m, b, d)) - (cost(&open_m, a, b) + cost(&open_m, c, d));
        run.record(delta < -1e-9);
    }
    let plan = run.finish(&open_locs).close_open(3);
    assert!(!plan.ordered_indices.contains(&3));
    assert!(!plan.ordered_addresses.iter().any(|a| a == "__end__"));
    assert_eq!(plan.ordered_indices.len(), 3);
    assert_eq!(plan.ordered_indices[0], 0);
}
