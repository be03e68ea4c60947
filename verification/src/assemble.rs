//! Turning the merged route table into the external route list.
//!
//! Each live route stands in the table under both of its endpoints; taking
//! only the slots whose key is the route's own first node emits every route
//! exactly once. Framing by the depot happens last, after any refinement.

use vstd::prelude::*;
use crate::problem::{Challenge, NODE_LIMIT, Solution, challenge_wf};
use crate::merge::{owner, route_ok, table_covered, table_view, table_wf};
use crate::routes::{
    covered, demand_sum, in_range, interior, partition_seqs, route_framed, seqs_disjoint,
    solution_interiors, solution_wf,
};

verus! {

/// A route wrapped by the depot on both ends.
pub open spec fn framed(r: Seq<usize>) -> Seq<usize> {
    seq![0usize] + r + seq![0usize]
}

/// The interior of a framed route is the route itself.
pub proof fn lemma_interior_framed(r: Seq<usize>)
    ensures
        interior(framed(r)) == r,
        framed(r).len() == r.len() + 2,
        framed(r)[0] == 0usize,
        framed(r)[framed(r).len() - 1] == 0usize,
{
    assert(interior(framed(r)) =~= r);
}

/// The routes a left-to-right sweep over slots `1..k` emits: each live
/// route once, at its owner slot.
pub open spec fn collected(rt: Seq<Seq<usize>>, k: int) -> Seq<Seq<usize>>
    decreases k,
{
    if k <= 1 {
        Seq::empty()
    } else {
        let pre = collected(rt, k - 1);
        if rt[k - 1].len() > 0 && rt[k - 1][0] == (k - 1) as usize {
            pre.push(rt[k - 1])
        } else {
            pre
        }
    }
}

/// Collect each live route of the table once, under its owner slot.
///
/// The result inherits the table's guarantees: the routes partition the
/// customers, and every merged route fits the capacity; a customer left on
/// its own carries just its own demand, within capacity or not.
pub fn collect_routes(rt: &Vec<Vec<usize>>, demands: &Vec<i32>, max_capacity: i32, n: usize) -> (sol:
    Vec<Vec<usize>>)
    requires
        table_wf(rt@, demands@, max_capacity as int, n as int),
        n <= NODE_LIMIT,
    ensures
        partition_seqs(sol@.map_values(|r: Vec<usize>| r@), n as int),
        forall|idx: int|
            0 <= idx < sol@.len() ==> demand_sum(demands@, (#[trigger] sol@[idx])@) <= max_capacity
                || sol@[idx]@.len() == 1,
        sol@.map_values(|r: Vec<usize>| r@) == collected(table_view(rt@), n as int),
{
    let ghost cap = max_capacity as int;
    let mut sol: Vec<Vec<usize>> = Vec::new();
    let ghost mut owners: Seq<int> = Seq::empty();
    let mut k: usize = 1;
    while k < n
        invariant
            1 <= k <= n,
            table_wf(rt@, demands@, cap, n as int),
            n <= NODE_LIMIT,
            cap == max_capacity as int,
            owners.len() == sol@.len(),
            forall|a: int, b: int| 0 <= a < b < owners.len() ==> owners[a] < owners[b],
            forall|a: int| 0 <= a < owners.len() ==> 1 <= #[trigger] owners[a] < k,
            forall|a: int|
                0 <= a < owners.len() ==> owner(rt@, #[trigger] owners[a]) && sol@[a]@
                    == rt@[owners[a]]@,
            forall|q: int| 1 <= q < k && owner(rt@, q) ==> owners.contains(q),
            sol@.map_values(|r: Vec<usize>| r@) == collected(table_view(rt@), k as int),
        decreases n - k,
    {
        let ghost sol0 = sol@;
        let cur_len = rt[k].len();
        if cur_len > 0 && rt[k][0] == k {
            let mut fr: Vec<usize> = Vec::new();
            let mut t: usize = 0;
            while t < cur_len
                invariant
                    0 <= t <= cur_len,
                    k < n == rt@.len(),
                    cur_len == rt@[k as int]@.len(),
                    fr@ == rt@[k as int]@.take(t as int),
                decreases cur_len - t,
            {
                fr.push(rt[k][t]);
                proof {
                    assert(rt@[k as int]@.take(t + 1) =~= rt@[k as int]@.take(t as int).push(
                        rt@[k as int]@[t as int],
                    ));
                }
                t = t + 1;
            }
            proof {
                assert(rt@[k as int]@.take(cur_len as int) =~= rt@[k as int]@);
            }
            sol.push(fr);
            proof {
                assert(sol@.map_values(|r: Vec<usize>| r@) =~= sol0.map_values(
                    |r: Vec<usize>| r@,
                ).push(fr@));
                assert(table_view(rt@)[k as int] == rt@[k as int]@);
                assert(owner(rt@, k as int));
                let prior = owners;
                owners = owners.push(k as int);
                assert(owners[owners.len() - 1] == k as int);
                assert forall|q: int| prior.contains(q) implies owners.contains(q) by {
                    let a = choose|a: int| 0 <= a < prior.len() && prior[a] == q;
                    assert(owners[a] == q);
                }
            }
        }
        proof {
            assert(table_view(rt@)[k as int] == rt@[k as int]@);
            assert(sol@.map_values(|r: Vec<usize>| r@) == collected(table_view(rt@), k + 1));
        }
        k = k + 1;
    }
    proof {
        let rs = sol@.map_values(|r: Vec<usize>| r@);
        assert forall|idx: int| 0 <= idx < sol@.len() implies (demand_sum(
            demands@,
            (#[trigger] sol@[idx])@,
        ) <= cap || sol@[idx]@.len() == 1) by {
            let o = owners[idx];
            assert(owner(rt@, o) && sol@[idx]@ == rt@[o]@);
            assert(route_ok(rt@, demands@, cap, n as int, o));
        }
        assert forall|idx: int| 0 <= idx < rs.len() implies in_range(
            #[trigger] rs[idx],
            n as int,
        ) && rs[idx].no_duplicates() && rs[idx].len() >= 1 by {
            let o = owners[idx];
            assert(owner(rt@, o) && sol@[idx]@ == rt@[o]@);
            assert(route_ok(rt@, demands@, cap, n as int, o));
            assert(rs[idx] == sol@[idx]@);
        }
        assert forall|a: int, b: int| 0 <= a < b < rs.len() implies seqs_disjoint(
            #[trigger] rs[a],
            #[trigger] rs[b],
        ) by {
            let oa = owners[a];
            let ob = owners[b];
            assert(owner(rt@, oa) && owner(rt@, ob) && oa < ob);
            assert(seqs_disjoint(rt@[oa]@, rt@[ob]@));
            assert(rs[a] == sol@[a]@ && rs[b] == sol@[b]@);
        }
        assert forall|m: usize| 1 <= m < n implies #[trigger] covered(rs, m) by {
            assert(table_covered(rt@, m));
            let k0 = choose|k0: int| #[trigger] owner(rt@, k0) && rt@[k0]@.contains(m);
            assert(owners.contains(k0));
            let idx = choose|idx: int| 0 <= idx < owners.len() && owners[idx] == k0;
            assert(rs[idx] == sol@[idx]@);
            assert(rs[idx].contains(m));
        }
    }
    sol
}

/// Prefix and suffix every route with the depot.
pub fn frame_routes(routes: Vec<Vec<usize>>) -> (out: Vec<Vec<usize>>)
    ensures
        out@.len() == routes@.len(),
        forall|idx: int| 0 <= idx < out@.len() ==> (#[trigger] out@[idx])@ == framed(routes@[idx]@),
{
    let mut out: Vec<Vec<usize>> = Vec::new();
    let mut k: usize = 0;
    while k < routes.len()
        invariant
            0 <= k <= routes@.len(),
            out@.len() == k,
            forall|idx: int|
                0 <= idx < k ==> (#[trigger] out@[idx])@ == framed(routes@[idx]@),
        decreases routes@.len() - k,
    {
        let cur_len = routes[k].len();
        let mut fr: Vec<usize> = Vec::new();
        fr.push(0);
        let mut t: usize = 0;
        while t < cur_len
            invariant
                0 <= t <= cur_len,
                k < routes@.len(),
                cur_len == routes@[k as int]@.len(),
                fr@ == seq![0usize] + routes@[k as int]@.take(t as int),
            decreases cur_len - t,
        {
            fr.push(routes[k][t]);
            proof {
                assert(routes@[k as int]@.take(t + 1) =~= routes@[k as int]@.take(t as int).push(
                    routes@[k as int]@[t as int],
                ));
                assert(fr@ =~= seq![0usize] + routes@[k as int]@.take(t + 1));
            }
            t = t + 1;
        }
        fr.push(0);
        proof {
            assert(routes@[k as int]@.take(cur_len as int) =~= routes@[k as int]@);
            assert(fr@ =~= framed(routes@[k as int]@));
        }
        out.push(fr);
        k = k + 1;
    }
    out
}

/// Frame the routes by the depot and package them as the external solution.
pub fn finish_solution(challenge: &Challenge, routes: Vec<Vec<usize>>) -> (sol: Solution)
    requires
        challenge_wf(*challenge),
        partition_seqs(routes@.map_values(|r: Vec<usize>| r@), challenge.num_nodes as int),
        forall|idx: int|
            0 <= idx < routes@.len() ==> demand_sum(challenge.demands@, (#[trigger] routes@[idx])@)
                <= challenge.max_capacity || routes@[idx]@.len() == 1,
    ensures
        solution_wf(*challenge, sol),
        sol.routes@.len() == routes@.len(),
        forall|idx: int|
            0 <= idx < routes@.len() ==> (#[trigger] sol.routes@[idx])@ == framed(routes@[idx]@),
{
    let ghost pre = routes@;
    let ghost n = challenge.num_nodes as int;
    let framed_routes = frame_routes(routes);
    let sol = Solution { routes: framed_routes };
    proof {
        let bare = pre.map_values(|r: Vec<usize>| r@);
        let ints = solution_interiors(sol);
        assert forall|t: int| 0 <= t < ints.len() implies #[trigger] ints[t] == bare[t] by {
            lemma_interior_framed(pre[t]@);
            assert(sol.routes@[t]@ == framed(pre[t]@));
        }
        assert(ints =~= bare);
        assert forall|i: int| 0 <= i < sol.routes@.len() implies route_framed(
            (#[trigger] sol.routes@[i])@,
            n,
        ) by {
            lemma_interior_framed(pre[i]@);
            assert(in_range(bare[i], n) && bare[i].len() >= 1);
        }
        assert forall|i: int| 0 <= i < sol.routes@.len() implies demand_sum(
            challenge.demands@,
            interior((#[trigger] sol.routes@[i])@),
        ) <= challenge.max_capacity || interior(sol.routes@[i]@).len() == 1 by {
            lemma_interior_framed(pre[i]@);
        }
    }
    sol
}

} // verus!
