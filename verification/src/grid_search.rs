//! The parameter-search policy: sweep a three-dimensional grid of savings
//! coefficients, construct a candidate for every point with no local search,
//! and keep the first candidate of the strictly lowest total distance.

use vstd::prelude::*;
use crate::assemble::{finish_solution, framed};
use crate::engine::{construct_routes, constructed};
use crate::problem::{Challenge, Solution, challenge_wf};
use crate::routes::{
    in_range0, interior, lemma_no_dup_len, lemma_total_cost_views, route_framed, routes_cost,
    solution_interiors, solution_wf, total_cost, total_cost_seqs,
};
use crate::scoring::{gen_score_list, gen_scores, total_demand};

verus! {

/// The framed routes the savings construction yields at one grid point.
pub open spec fn candidate_routes(c: Challenge, lt: int, mt: int, vt: int) -> Seq<Seq<usize>> {
    constructed(
        gen_score_list(c.distance_matrix@, c.demands@, c.num_nodes as int, lt, mt, vt),
        c.demands@,
        c.max_capacity as int,
        c.num_nodes as int,
    ).map_values(|r: Seq<usize>| framed(r))
}

/// The total travelled distance of one grid point's candidate, depot legs
/// included.
pub open spec fn candidate_cost(c: Challenge, lt: int, mt: int, vt: int) -> int {
    total_cost_seqs(c.distance_matrix@, candidate_routes(c, lt, mt, vt))
}

/// `(a, b, c2)` is a point of the coefficient grid.
pub open spec fn grid_point(a: int, b: int, c2: int) -> bool {
    1 <= a <= 20 && 0 <= b <= 20 && 0 <= c2 <= 20
}

/// `(a, b, c2)` is enumerated strictly before `(lt, mt, vt)` in the sweep.
pub open spec fn grid_before(a: int, b: int, c2: int, lt: int, mt: int, vt: int) -> bool {
    a < lt || (a == lt && (b < mt || (b == mt && c2 < vt)))
}

/// Construct and price one grid point's candidate solution.
fn candidate(challenge: &Challenge, lt: i32, mt: i32, vt: i32) -> (out: (Solution, i128))
    requires
        challenge_wf(*challenge),
        0 <= lt <= 20,
        0 <= mt <= 20,
        0 <= vt <= 20,
    ensures
        solution_wf(*challenge, out.0),
        out.1 == total_cost(challenge.distance_matrix@, out.0.routes@),
        out.0.routes@.map_values(|r: Vec<usize>| r@) == candidate_routes(
            *challenge,
            lt as int,
            mt as int,
            vt as int,
        ),
        out.1 == candidate_cost(*challenge, lt as int, mt as int, vt as int),
{
    let n = challenge.num_nodes;
    let scores = gen_scores(challenge, lt, mt, vt);
    let routes = construct_routes(challenge, scores);
    let sol = finish_solution(challenge, routes);
    proof {
        let ints = solution_interiors(sol);
        assert forall|idx: int|
            0 <= idx < sol.routes@.len() implies in_range0(
            (#[trigger] sol.routes@[idx])@,
            n as int,
        ) && sol.routes@[idx]@.len() <= n + 1 by {
            let r = sol.routes@[idx]@;
            assert(route_framed(r, n as int));
            assert(ints[idx] == interior(r));
            assert forall|q: int| 0 <= q < r.len() implies 0 <= #[trigger] r[q] < n by {
                if 1 <= q < r.len() - 1 {
                    assert(interior(r)[q - 1] == r[q]);
                }
            }
            lemma_no_dup_len(interior(r), n as int);
        }
    }
    proof {
        let cand = candidate_routes(*challenge, lt as int, mt as int, vt as int);
        assert forall|idx: int|
            0 <= idx < sol.routes@.len() implies sol.routes@.map_values(|r: Vec<usize>| r@)[idx]
            == cand[idx] by {
            assert(sol.routes@[idx]@ == framed(routes@[idx]@));
            assert(routes@.map_values(|r: Vec<usize>| r@)[idx] == routes@[idx]@);
        }
        assert(sol.routes@.map_values(|r: Vec<usize>| r@) =~= cand);
        lemma_total_cost_views(challenge.distance_matrix@, sol.routes@);
    }
    let cost = routes_cost(&challenge.distance_matrix, &sol.routes, n);
    (sol, cost)
}

/// Solve the instance by sweeping λ over 0.1..=2.0 and μ, ν over 0.0..=2.0,
/// each in steps of a tenth, scoring and merging at every grid point and
/// retaining the first candidate of the strictly lowest total distance.
///
/// The mean demand divides the scores, so an instance of several customers
/// with no demand at all is outside this policy's domain; an instance of at
/// most one customer has no pair to score and is always solvable. Any other
/// well-formed instance receives a solution.
pub fn solve_challenge(challenge: &Challenge) -> (result: Option<Solution>)
    requires
        challenge_wf(*challenge),
        total_demand(challenge.demands@, challenge.num_nodes as int) >= 1 || challenge.num_nodes
            <= 2,
    ensures
        result is Some,
        solution_wf(*challenge, result.unwrap()),
        forall|a: int, b: int, c2: int|
            grid_point(a, b, c2) ==> total_cost(
                challenge.distance_matrix@,
                result.unwrap().routes@,
            ) <= #[trigger] candidate_cost(*challenge, a, b, c2),
        exists|a: int, b: int, c2: int|
            grid_point(a, b, c2) && result.unwrap().routes@.map_values(|r: Vec<usize>| r@)
                == #[trigger] candidate_routes(*challenge, a, b, c2) && total_cost(
                challenge.distance_matrix@,
                result.unwrap().routes@,
            ) == candidate_cost(*challenge, a, b, c2) && (forall|a2: int, b2: int, c3: int|
                grid_point(a2, b2, c3) && grid_before(a2, b2, c3, a, b, c2)
                    ==> #[trigger] candidate_cost(*challenge, a2, b2, c3) > candidate_cost(
                    *challenge,
                    a,
                    b,
                    c2,
                )),
{
    let mut best_sol: Option<Solution> = None;
    let mut best_cost: i128 = 0;
    let mut lt: i32 = 1;
    while lt <= 20
        invariant
            1 <= lt <= 21,
            challenge_wf(*challenge),
            total_demand(challenge.demands@, challenge.num_nodes as int) >= 1
                || challenge.num_nodes <= 2,
            lt > 1 ==> best_sol is Some,
            best_sol is Some ==> solution_wf(*challenge, best_sol.unwrap()) && best_cost
                == total_cost(challenge.distance_matrix@, best_sol.unwrap().routes@),
            best_sol is Some ==> exists|a: int, b: int, c2: int|
                grid_point(a, b, c2) && best_sol.unwrap().routes@.map_values(|r: Vec<usize>| r@)
                    == #[trigger] candidate_routes(*challenge, a, b, c2) && best_cost
                    == candidate_cost(*challenge, a, b, c2) && (forall|a2: int, b2: int, c3: int|
                    grid_point(a2, b2, c3) && grid_before(a2, b2, c3, a, b, c2)
                        ==> #[trigger] candidate_cost(*challenge, a2, b2, c3) > candidate_cost(
                        *challenge,
                        a,
                        b,
                        c2,
                    )),
            forall|a: int, b: int, c2: int|
                grid_point(a, b, c2) && grid_before(a, b, c2, lt as int, 0, 0) ==> best_sol
                    is Some && best_cost <= #[trigger] candidate_cost(*challenge, a, b, c2),
        decreases 21 - lt,
    {
        let mut mt: i32 = 0;
        while mt <= 20
            invariant
                1 <= lt <= 20,
                0 <= mt <= 21,
                challenge_wf(*challenge),
                total_demand(challenge.demands@, challenge.num_nodes as int) >= 1
                    || challenge.num_nodes <= 2,
                lt > 1 || mt > 0 ==> best_sol is Some,
                best_sol is Some ==> solution_wf(*challenge, best_sol.unwrap()) && best_cost
                    == total_cost(challenge.distance_matrix@, best_sol.unwrap().routes@),
                best_sol is Some ==> exists|a: int, b: int, c2: int|
                    grid_point(a, b, c2) && best_sol.unwrap().routes@.map_values(
                        |r: Vec<usize>| r@,
                    ) == #[trigger] candidate_routes(*challenge, a, b, c2) && best_cost
                        == candidate_cost(*challenge, a, b, c2) && (forall|a2: int, b2: int, c3: int| grid_point(a2, b2, c3) && grid_before(a2, b2, c3, a, b, c2) ==> #[trigger] candidate_cost(*challenge, a2, b2, c3) > candidate_cost(*challenge, a, b, c2)),
                forall|a: int, b: int, c2: int|
                    grid_point(a, b, c2) && grid_before(a, b, c2, lt as int, mt as int, 0)
                        ==> best_sol is Some && best_cost <= #[trigger] candidate_cost(
                        *challenge,
                        a,
                        b,
                        c2,
                    ),
            decreases 21 - mt,
        {
            let mut vt: i32 = 0;
            while vt <= 20
                invariant
                    1 <= lt <= 20,
                    0 <= mt <= 20,
                    0 <= vt <= 21,
                    challenge_wf(*challenge),
                    total_demand(challenge.demands@, challenge.num_nodes as int) >= 1
                        || challenge.num_nodes <= 2,
                    lt > 1 || mt > 0 || vt > 0 ==> best_sol is Some,
                    best_sol is Some ==> solution_wf(*challenge, best_sol.unwrap()) && best_cost
                        == total_cost(challenge.distance_matrix@, best_sol.unwrap().routes@),
                    best_sol is Some ==> exists|a: int, b: int, c2: int|
                        grid_point(a, b, c2) && best_sol.unwrap().routes@.map_values(
                            |r: Vec<usize>| r@,
                        ) == #[trigger] candidate_routes(*challenge, a, b, c2) && best_cost
                            == candidate_cost(*challenge, a, b, c2) && (forall|a2: int, b2: int, c3: int| grid_point(a2, b2, c3) && grid_before(a2, b2, c3, a, b, c2) ==> #[trigger] candidate_cost(*challenge, a2, b2, c3) > candidate_cost(*challenge, a, b, c2)),
                    forall|a: int, b: int, c2: int|
                        grid_point(a, b, c2) && grid_before(
                            a,
                            b,
                            c2,
                            lt as int,
                            mt as int,
                            vt as int,
                        ) ==> best_sol is Some && best_cost <= #[trigger] candidate_cost(
                            *challenge,
                            a,
                            b,
                            c2,
                        ),
                decreases 21 - vt,
            {
                let pair = candidate(challenge, lt, mt, vt);
                let ghost prev_cost = best_cost;
                let take_it = match &best_sol {
                    Option::None => true,
                    Option::Some(_) => pair.1 < best_cost,
                };
                if take_it {
                    best_cost = pair.1;
                    best_sol = Some(pair.0);
                }
                proof {
                    if take_it {
                        assert forall|a2: int, b2: int, c3: int|
                            grid_point(a2, b2, c3) && grid_before(
                                a2,
                                b2,
                                c3,
                                lt as int,
                                mt as int,
                                vt as int,
                            ) implies #[trigger] candidate_cost(*challenge, a2, b2, c3)
                            > best_cost by {
                            assert(prev_cost <= candidate_cost(*challenge, a2, b2, c3));
                        }
                    }
                    assert forall|a: int, b: int, c2: int|
                        grid_point(a, b, c2) && grid_before(
                            a,
                            b,
                            c2,
                            lt as int,
                            mt as int,
                            vt + 1,
                        ) implies best_sol is Some && best_cost <= #[trigger] candidate_cost(
                        *challenge,
                        a,
                        b,
                        c2,
                    ) by {
                        if !grid_before(a, b, c2, lt as int, mt as int, vt as int) {
                            assert(a == lt && b == mt && c2 == vt);
                            assert(best_cost <= candidate_cost(
                                *challenge,
                                lt as int,
                                mt as int,
                                vt as int,
                            ));
                        }
                    }
                }
                vt = vt + 1;
            }
            proof {
                assert forall|a: int, b: int, c2: int|
                    grid_point(a, b, c2) && grid_before(a, b, c2, lt as int, mt + 1, 0) implies
                    grid_before(a, b, c2, lt as int, mt as int, 21) by {}
            }
            mt = mt + 1;
        }
        proof {
            assert forall|a: int, b: int, c2: int|
                grid_point(a, b, c2) && grid_before(a, b, c2, lt + 1, 0, 0) implies grid_before(
                a,
                b,
                c2,
                lt as int,
                21,
                0,
            ) by {}
        }
        lt = lt + 1;
    }
    proof {
        assert forall|a: int, b: int, c2: int| grid_point(a, b, c2) implies grid_before(
            a,
            b,
            c2,
            21,
            0,
            0,
        ) by {}
    }
    best_sol
}

} // verus!
