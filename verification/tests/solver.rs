use cvrp_savings::problem::{Challenge, Solution};
use cvrp_savings::routes::route_cost;
use cvrp_savings::scores::{cut_nonnegative, sort_scores};
use cvrp_savings::two_opt::apply_2opt;

fn symmetric_matrix(n: usize, entries: &[(usize, usize, i32)]) -> Vec<Vec<i32>> {
    let mut d = vec![vec![0i32; n]; n];
    for &(i, j, v) in entries {
        d[i][j] = v;
        d[j][i] = v;
    }
    d
}

fn three_customer_challenge(max_capacity: i32) -> Challenge {
    // d(0,1) = d(0,2) = d(0,3) = 10, d(1,2) = 5, d(1,3) = 18, d(2,3) = 12.
    let d = symmetric_matrix(
        4,
        &[(0, 1, 10), (0, 2, 10), (0, 3, 10), (1, 2, 5), (1, 3, 18), (2, 3, 12)],
    );
    Challenge {
        distance_matrix: d,
        demands: vec![0, 3, 3, 3],
        max_capacity,
        num_nodes: 4,
    }
}

/// Every customer appears exactly once across the routes, each route is
/// depot-framed, and every multi-customer route fits the capacity.
fn assert_solution_valid(c: &Challenge, s: &Solution) {
    let n = c.num_nodes;
    let mut seen = vec![0usize; n];
    for route in &s.routes {
        assert!(route.len() >= 3);
        assert_eq!(route[0], 0);
        assert_eq!(route[route.len() - 1], 0);
        let interior = &route[1..route.len() - 1];
        let mut demand = 0i64;
        for &node in interior {
            assert!(1 <= node && node < n);
            seen[node] += 1;
            demand += c.demands[node] as i64;
        }
        assert!(demand <= c.max_capacity as i64 || interior.len() == 1);
    }
    for node in 1..n {
        assert_eq!(seen[node], 1, "customer visited once");
    }
}

fn framed_cost(c: &Challenge, s: &Solution) -> i64 {
    s.routes
        .iter()
        .map(|r| r.windows(2).map(|w| c.distance_matrix[w[0]][w[1]] as i64).sum::<i64>())
        .sum()
}

#[test]
fn savings_prefers_the_cheapest_pair() {
    let c = three_customer_challenge(6);
    let sol = cvrp_savings::savings_two_opt::solve_challenge(&c).unwrap();
    assert_solution_valid(&c, &sol);
    // Savings: (1,2) scores 10+10-5 = 15, (2,3) scores 8, (1,3) scores 2.
    // (1,2) merges with demand 6; nothing else fits the capacity.
    assert_eq!(sol.routes, vec![vec![0, 1, 2, 0], vec![0, 3, 0]]);
}

#[test]
fn tight_capacity_leaves_singletons() {
    // Any pair sums to demand 6 > 3, so no merge is accepted.
    let c = three_customer_challenge(3);
    let sol = cvrp_savings::savings_two_opt::solve_challenge(&c).unwrap();
    assert_solution_valid(&c, &sol);
    assert_eq!(sol.routes, vec![vec![0, 1, 0], vec![0, 2, 0], vec![0, 3, 0]]);
}

#[test]
fn negative_savings_merge_nothing() {
    // d(1,2) = 10 > d(1,0) + d(0,2) = 2: the only pair scores -8.
    let d = symmetric_matrix(3, &[(0, 1, 1), (0, 2, 1), (1, 2, 10)]);
    let c = Challenge {
        distance_matrix: d,
        demands: vec![0, 1, 1],
        max_capacity: 100,
        num_nodes: 3,
    };
    let sol = cvrp_savings::savings_two_opt::solve_challenge(&c).unwrap();
    assert_solution_valid(&c, &sol);
    assert_eq!(sol.routes, vec![vec![0, 1, 0], vec![0, 2, 0]]);
}

#[test]
fn cutoff_stops_at_the_first_negative_score() {
    // Processing stops outright at the first negative score: the positive
    // score standing after it is never reached.
    let scores: Vec<(i128, usize, usize)> = vec![(5, 1, 2), (0, 1, 3), (-1, 2, 3), (7, 1, 4)];
    let pref = cut_nonnegative(&scores);
    assert_eq!(pref, vec![(5, 1, 2), (0, 1, 3)]);
}

#[test]
fn sort_orders_by_score_then_enumeration() {
    let mut scores: Vec<(i128, usize, usize)> = vec![(2, 1, 4), (8, 2, 3), (2, 1, 2), (-3, 3, 4)];
    sort_scores(&mut scores);
    assert_eq!(scores, vec![(8, 2, 3), (2, 1, 2), (2, 1, 4), (-3, 3, 4)]);
}

#[test]
fn two_opt_uncrosses_a_route() {
    // Customers 1..=6 on a line at 0, 10, 20, 30, 40, 50; the depot off to
    // one side. The order 1,3,2,4,6,5 zig-zags for a length of 80.
    let pos = [60i32, 0, 10, 20, 30, 40, 50];
    let mut d = vec![vec![0i32; 7]; 7];
    for i in 0..7 {
        for j in 0..7 {
            d[i][j] = (pos[i] - pos[j]).abs();
        }
    }
    let mut routes = vec![vec![1usize, 3, 2, 4, 6, 5]];
    let before = route_cost(&d, &routes[0], 7);
    assert_eq!(before, 80);
    apply_2opt(&mut routes, &d, 7);
    let after = route_cost(&d, &routes[0], 7);
    assert!(after < before);
    // The ends are pinned; the nodes are only rearranged.
    assert_eq!(routes[0][0], 1);
    assert_eq!(routes[0][5], 5);
    let mut sorted_nodes = routes[0].clone();
    sorted_nodes.sort();
    assert_eq!(sorted_nodes, vec![1, 2, 3, 4, 5, 6]);
}

#[test]
fn two_opt_never_lengthens() {
    let c = three_customer_challenge(9);
    let mut routes = vec![vec![1usize, 3, 2]];
    let before = route_cost(&c.distance_matrix, &routes[0], 4);
    apply_2opt(&mut routes, &c.distance_matrix, 4);
    let after = route_cost(&c.distance_matrix, &routes[0], 4);
    assert!(after <= before);
}

#[test]
fn identical_runs_give_identical_output() {
    let c = three_customer_challenge(6);
    let first = cvrp_savings::savings_two_opt::solve_challenge(&c).unwrap();
    let second = cvrp_savings::savings_two_opt::solve_challenge(&c).unwrap();
    assert_eq!(first.routes, second.routes);
    let g1 = cvrp_savings::grid_search::solve_challenge(&c).unwrap();
    let g2 = cvrp_savings::grid_search::solve_challenge(&c).unwrap();
    assert_eq!(g1.routes, g2.routes);
}

#[test]
fn grid_search_keeps_the_cheapest_candidate() {
    let c = three_customer_challenge(6);
    let sol = cvrp_savings::grid_search::solve_challenge(&c).unwrap();
    assert_solution_valid(&c, &sol);
    // The cheapest partition is [0,1,2,0] (cost 25) plus [0,3,0] (cost 20).
    assert_eq!(framed_cost(&c, &sol), 45);
    assert_eq!(sol.routes, vec![vec![0, 1, 2, 0], vec![0, 3, 0]]);
}

#[test]
fn depot_alone_solves_to_no_routes() {
    let c = Challenge {
        distance_matrix: vec![vec![0]],
        demands: vec![0],
        max_capacity: 1,
        num_nodes: 1,
    };
    let sol = cvrp_savings::savings_two_opt::solve_challenge(&c).unwrap();
    assert!(sol.routes.is_empty());
}

#[test]
fn oversized_lone_customer_survives_as_a_singleton() {
    // A single node whose demand exceeds the capacity is never merged and is
    // returned as its own route, capacity notwithstanding.
    let d = symmetric_matrix(3, &[(0, 1, 4), (0, 2, 4), (1, 2, 3)]);
    let c = Challenge {
        distance_matrix: d,
        demands: vec![0, 9, 1],
        max_capacity: 5,
        num_nodes: 3,
    };
    let sol = cvrp_savings::savings_two_opt::solve_challenge(&c).unwrap();
    assert_eq!(sol.routes, vec![vec![0, 1, 0], vec![0, 2, 0]]);
}

#[test]
fn route_cost_sums_consecutive_legs() {
    let d = symmetric_matrix(4, &[(0, 1, 7), (1, 2, 5), (2, 3, 11), (0, 3, 2), (0, 2, 9), (1, 3, 6)]);
    let r: Vec<usize> = vec![0, 1, 2, 3, 0];
    assert_eq!(route_cost(&d, &r, 4), 7 + 5 + 11 + 2);
    let empty: Vec<usize> = vec![];
    assert_eq!(route_cost(&d, &empty, 4), 0);
}

#[test]
fn grid_search_tight_capacity_leaves_singletons() {
    let c = three_customer_challenge(3);
    let sol = cvrp_savings::grid_search::solve_challenge(&c).unwrap();
    assert_solution_valid(&c, &sol);
    assert_eq!(sol.routes, vec![vec![0, 1, 0], vec![0, 2, 0], vec![0, 3, 0]]);
}

#[test]
fn score_formulas_give_exact_values() {
    let c = three_customer_challenge(6);
    let cw = cvrp_savings::scoring::cw_scores(&c);
    // Plain savings of (1,2): d(1,0) + d(0,2) - d(1,2) = 10 + 10 - 5.
    assert_eq!(cw[0], (15, 1, 2));
    assert_eq!(cw[1], (2, 1, 3));
    assert_eq!(cw[2], (8, 2, 3));
    // With λ = 1, μ = ν = 0 the generalised score is the plain savings
    // scaled by 10·S for the total demand S = 9.
    let gen = cvrp_savings::scoring::gen_scores(&c, 10, 0, 0);
    assert_eq!(gen[0], (15 * 90, 1, 2));
    assert_eq!(gen[1], (2 * 90, 1, 3));
    assert_eq!(gen[2], (8 * 90, 2, 3));
    // ν = 0.1 adds ν·(dem i + dem j)/avg, scaled: vt·n·(dem i + dem j) = 1·4·6.
    let gen_nu = cvrp_savings::scoring::gen_scores(&c, 10, 0, 1);
    assert_eq!(gen_nu[0], (15 * 90 + 24, 1, 2));
}
