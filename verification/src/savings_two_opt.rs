//! The construction-then-refinement policy: one Clarke-Wright savings merge
//! followed by 2-opt local search.

use vstd::prelude::*;
use crate::assemble::{finish_solution, lemma_interior_framed};
use crate::engine::{construct_routes, constructed};
use crate::problem::{Challenge, Solution, challenge_wf};
use crate::routes::{
    demand_sum, in_range0, lemma_demand_sum_multiset, lemma_partition_multiset, partition_seqs,
    path_cost, solution_interiors, solution_wf,
};
use crate::scoring::{cw_score_list, cw_scores};
use crate::two_opt::{apply_2opt, two_opt_fix, two_opt_optimal};

verus! {

/// Solve the instance: score every pair by the Clarke-Wright savings, merge
/// greedily, refine each route by 2-opt, and frame the result by the depot.
///
/// Every well-formed instance receives a solution; the absent sentinel never
/// arises on this path. The routes are exactly those of the savings
/// construction over the Clarke-Wright score list, each refined to its
/// 2-opt fixed point: the nodes rearranged between the route's fixed ends,
/// the route never lengthened, and no improving swap left.
pub fn solve_challenge(challenge: &Challenge) -> (result: Option<Solution>)
    requires
        challenge_wf(*challenge),
    ensures
        result is Some,
        solution_wf(*challenge, result.unwrap()),
        ({
            let d = challenge.distance_matrix@;
            let built = constructed(
                cw_score_list(d, challenge.num_nodes as int),
                challenge.demands@,
                challenge.max_capacity as int,
                challenge.num_nodes as int,
            );
            let ints = solution_interiors(result.unwrap());
            &&& ints.len() == built.len()
            &&& forall|t: int|
                0 <= t < built.len() ==> (#[trigger] ints[t]).to_multiset()
                    == built[t].to_multiset() && ints[t].len() == built[t].len() && ints[t][0]
                    == built[t][0] && ints[t][ints[t].len() - 1] == built[t][built[t].len() - 1]
                    && path_cost(d, ints[t]) <= path_cost(d, built[t]) && two_opt_optimal(
                    d,
                    ints[t],
                ) && ints[t] == two_opt_fix(d, built[t], challenge.num_nodes as int)
        }),
{
    let n = challenge.num_nodes;
    let scores = cw_scores(challenge);
    let mut routes = construct_routes(challenge, scores);
    let ghost built = routes@;
    proof {
        let bare = built.map_values(|r: Vec<usize>| r@);
        assert forall|idx: int| 0 <= idx < built.len() implies in_range0(
            (#[trigger] built[idx])@,
            n as int,
        ) by {
            assert(bare[idx] == built[idx]@);
        }
    }
    apply_2opt(&mut routes, &challenge.distance_matrix, n);
    proof {
        let bare0 = built.map_values(|r: Vec<usize>| r@);
        let bare1 = routes@.map_values(|r: Vec<usize>| r@);
        assert forall|t: int| 0 <= t < built.len() implies (#[trigger] bare0[t]).to_multiset()
            == bare1[t].to_multiset() by {
            assert(bare0[t] == built[t]@ && bare1[t] == routes@[t]@);
        }
        lemma_partition_multiset(bare0, bare1, n as int);
        assert forall|idx: int|
            0 <= idx < routes@.len() implies demand_sum(
            challenge.demands@,
            (#[trigger] routes@[idx])@,
        ) <= challenge.max_capacity || routes@[idx]@.len() == 1 by {
            lemma_demand_sum_multiset(challenge.demands@, built[idx]@, routes@[idx]@);
            assert(demand_sum(challenge.demands@, built[idx]@) <= challenge.max_capacity
                || built[idx]@.len() == 1);
        }
    }
    let ghost refined = routes@;
    let sol = finish_solution(challenge, routes);
    proof {
        let d = challenge.distance_matrix@;
        let cspec = constructed(
            cw_score_list(d, challenge.num_nodes as int),
            challenge.demands@,
            challenge.max_capacity as int,
            challenge.num_nodes as int,
        );
        let ints = solution_interiors(sol);
        assert(built.map_values(|r: Vec<usize>| r@) == cspec);
        assert forall|t: int|
            0 <= t < cspec.len() implies (#[trigger] ints[t]) == refined[t]@ && cspec[t]
            == built[t]@ && built[t]@.len() >= 1 by {
            lemma_interior_framed(refined[t]@);
            assert(sol.routes@[t]@ == crate::assemble::framed(refined[t]@));
            assert(built.map_values(|r: Vec<usize>| r@)[t] == built[t]@);
            assert(partition_seqs(built.map_values(|r: Vec<usize>| r@), n as int));
        }
    }
    Some(sol)
}

} // verus!
