//! The shared savings-merge construction: sort the scored pairs, stop at the
//! first negative score, merge greedily, and collect the routes.

use vstd::prelude::*;
use crate::assemble::{collect_routes, collected};
use crate::merge::{initial_demand_table, initial_table, merge_routes, merge_run};
use crate::problem::{Challenge, challenge_wf};
use crate::routes::{demand_sum, partition_seqs};
use crate::scores::{
    cut_nonnegative, first_negative, lemma_first_negative_props, pairs_of, score_leq, sort_scores,
};

verus! {

/// What one construction returns, as a function of the scored pairs alone:
/// sort them into processing order, keep everything before the first
/// negative score, run the greedy merge, and sweep up the owned routes.
pub open spec fn constructed(
    scores: Seq<(i128, usize, usize)>,
    dem: Seq<i32>,
    cap: int,
    n: int,
) -> Seq<Seq<usize>> {
    let sorted = scores.sort_by(score_leq());
    let pref = sorted.take(first_negative(sorted));
    let pairs = pref.map_values(|e: (i128, usize, usize)| (e.1, e.2));
    collected(merge_run(initial_table(n), initial_demand_table(dem, n), pairs, cap).0, n)
}

/// Run one savings-merge construction over the given scored pairs.
///
/// The pairs are sorted into processing order, everything from the first
/// negatively scored pair onwards is discarded outright, and the remainder
/// drives the greedy merge. The live routes of the final table come back,
/// the depot not yet attached.
pub fn construct_routes(challenge: &Challenge, scores: Vec<(i128, usize, usize)>) -> (routes: Vec<
    Vec<usize>,
>)
    requires
        challenge_wf(*challenge),
        forall|t: int|
            0 <= t < scores@.len() ==> 1 <= (#[trigger] scores@[t]).1 < challenge.num_nodes && 1
                <= scores@[t].2 < challenge.num_nodes && scores@[t].1 != scores@[t].2,
    ensures
        partition_seqs(routes@.map_values(|r: Vec<usize>| r@), challenge.num_nodes as int),
        forall|idx: int|
            0 <= idx < routes@.len() ==> demand_sum(challenge.demands@, (#[trigger] routes@[idx])@)
                <= challenge.max_capacity || routes@[idx]@.len() == 1,
        routes@.map_values(|r: Vec<usize>| r@) == constructed(
            scores@,
            challenge.demands@,
            challenge.max_capacity as int,
            challenge.num_nodes as int,
        ),
{
    broadcast use vstd::seq_lib::group_to_multiset_ensures;

    let n = challenge.num_nodes;
    let mut sorted = scores;
    sort_scores(&mut sorted);
    proof {
        assert forall|t: int|
            0 <= t < sorted@.len() implies 1 <= (#[trigger] sorted@[t]).1 < n && 1 <= sorted@[t].2
            < n && sorted@[t].1 != sorted@[t].2 by {
            assert(sorted@.contains(sorted@[t]));
            assert(sorted@.to_multiset().count(sorted@[t]) > 0);
            assert(scores@.contains(sorted@[t]));
            let q = choose|q: int| 0 <= q < scores@.len() && scores@[q] == sorted@[t];
            assert(1 <= (scores@[q]).1 < n);
        }
    }
    let pref = cut_nonnegative(&sorted);
    let pairs = pairs_of(&pref);
    proof {
        assert forall|t: int|
            0 <= t < pairs@.len() implies 1 <= (#[trigger] pairs@[t]).0 < n && 1 <= pairs@[t].1 < n
            && pairs@[t].0 != pairs@[t].1 by {
            lemma_first_negative_props(sorted@);
            assert(pairs@[t] == ((pref@[t].1, pref@[t].2)));
            assert(pref@[t] == sorted@.take(first_negative(sorted@))[t]);
            assert(pref@[t] == sorted@[t]);
        }
    }
    let rt = merge_routes(&pairs, &challenge.demands, challenge.max_capacity, n);
    let out = collect_routes(&rt, &challenge.demands, challenge.max_capacity, n);
    proof {
        assert(pairs@ =~= sorted@.take(first_negative(sorted@)).map_values(
            |e: (i128, usize, usize)| (e.1, e.2),
        ));
    }
    out
}

} // verus!
