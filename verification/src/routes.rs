//! Mathematical model of routes: node ranges, disjointness, demand sums,
//! path costs, and what it means for a route list to partition the customers
//! and for a [`Solution`](crate::problem::Solution) to be well formed.

use vstd::prelude::*;
use crate::problem::{Challenge, Solution, challenge_wf, dist, matrix_wf};

verus! {

/// Every element of `r` is a customer node: in `1..n`.
pub open spec fn in_range(r: Seq<usize>, n: int) -> bool {
    forall|k: int| 0 <= k < r.len() ==> 1 <= #[trigger] r[k] < n
}

/// Every element of `r` is a node: in `0..n` (the depot allowed).
pub open spec fn in_range0(r: Seq<usize>, n: int) -> bool {
    forall|k: int| 0 <= k < r.len() ==> 0 <= #[trigger] r[k] < n
}

/// No node occurs in both `a` and `b`.
pub open spec fn seqs_disjoint(a: Seq<usize>, b: Seq<usize>) -> bool {
    forall|x: usize| a.contains(x) ==> !b.contains(x)
}

/// The summed demand of the nodes of `r`.
pub open spec fn demand_sum(dem: Seq<i32>, r: Seq<usize>) -> int
    decreases r.len(),
{
    if r.len() == 0 {
        0
    } else {
        dem[r[0] as int] + demand_sum(dem, r.drop_first())
    }
}

/// The travelled distance along `r`: the sum of the distances of consecutive
/// node pairs. A route of fewer than two nodes travels nothing.
pub open spec fn path_cost(d: Seq<Vec<i32>>, r: Seq<usize>) -> int
    decreases r.len(),
{
    if r.len() < 2 {
        0
    } else {
        dist(d, r[0] as int, r[1] as int) + path_cost(d, r.drop_first())
    }
}

/// The summed travelled distance of a route list.
pub open spec fn total_cost(d: Seq<Vec<i32>>, rs: Seq<Vec<usize>>) -> int
    decreases rs.len(),
{
    if rs.len() == 0 {
        0
    } else {
        path_cost(d, rs[0]@) + total_cost(d, rs.drop_first())
    }
}

/// Some route of `rs` visits node `m`.
pub open spec fn covered(rs: Seq<Seq<usize>>, m: usize) -> bool {
    exists|i: int| 0 <= i < rs.len() && #[trigger] rs[i].contains(m)
}

/// The route list visits every customer node of `1..n` exactly once:
/// each route is non-empty and duplicate-free over customers, routes are
/// pairwise disjoint, and every customer appears somewhere.
pub open spec fn partition_seqs(rs: Seq<Seq<usize>>, n: int) -> bool {
    &&& forall|i: int|
        0 <= i < rs.len() ==> in_range(#[trigger] rs[i], n) && rs[i].no_duplicates()
            && rs[i].len() >= 1
    &&& forall|i: int, j: int|
        0 <= i < j < rs.len() ==> seqs_disjoint(#[trigger] rs[i], #[trigger] rs[j])
    &&& forall|m: usize| 1 <= m < n ==> #[trigger] covered(rs, m)
}

/// The customers of a depot-framed route: everything but its first and last
/// element.
pub open spec fn interior(r: Seq<usize>) -> Seq<usize> {
    r.subrange(1, r.len() - 1)
}

/// A depot-framed route: it begins and ends at the depot and visits only
/// customer nodes in between.
pub open spec fn route_framed(r: Seq<usize>, n: int) -> bool {
    &&& r.len() >= 3
    &&& r[0] == 0usize
    &&& r[r.len() - 1] == 0usize
    &&& in_range(interior(r), n)
}

/// The interiors of the routes of a solution.
pub open spec fn solution_interiors(s: Solution) -> Seq<Seq<usize>> {
    s.routes@.map_values(|r: Vec<usize>| interior(r@))
}

/// A well-formed solution for instance `c`: every route is depot-framed, the
/// interiors partition the customers, and every route of two or more
/// customers keeps its summed demand within capacity. A lone customer is
/// never merged, so its route carries exactly its own demand, within capacity
/// or not: the instance promises nothing about a single node's demand.
pub open spec fn solution_wf(c: Challenge, s: Solution) -> bool {
    let n = c.num_nodes as int;
    &&& forall|i: int| 0 <= i < s.routes@.len() ==> route_framed(#[trigger] s.routes@[i]@, n)
    &&& partition_seqs(solution_interiors(s), n)
    &&& forall|i: int|
        0 <= i < s.routes@.len() ==> demand_sum(c.demands@, interior(#[trigger] s.routes@[i]@))
            <= c.max_capacity || interior(s.routes@[i]@).len() == 1
}

// ---------------------------------------------------------------------------
// Demand sums
// ---------------------------------------------------------------------------

/// Appending a node adds its demand.
pub proof fn lemma_demand_sum_push(dem: Seq<i32>, r: Seq<usize>, x: usize)
    ensures
        demand_sum(dem, r.push(x)) == demand_sum(dem, r) + dem[x as int],
    decreases r.len(),
{
    reveal_with_fuel(demand_sum, 3);
    if r.len() == 0 {
        assert(r.push(x).drop_first() =~= Seq::<usize>::empty());
    } else {
        assert(r.push(x).drop_first() =~= r.drop_first().push(x));
        lemma_demand_sum_push(dem, r.drop_first(), x);
    }
}

/// Demand sums add over concatenation.
pub proof fn lemma_demand_sum_concat(dem: Seq<i32>, a: Seq<usize>, b: Seq<usize>)
    ensures
        demand_sum(dem, a + b) == demand_sum(dem, a) + demand_sum(dem, b),
    decreases a.len(),
{
    if a.len() == 0 {
        assert(a + b =~= b);
    } else {
        assert((a + b).drop_first() =~= a.drop_first() + b);
        lemma_demand_sum_concat(dem, a.drop_first(), b);
    }
}

/// Reversing a route does not change its summed demand.
pub proof fn lemma_demand_sum_reverse(dem: Seq<i32>, r: Seq<usize>)
    ensures
        demand_sum(dem, r.reverse()) == demand_sum(dem, r),
    decreases r.len(),
{
    if r.len() > 0 {
        assert(r.reverse() =~= r.drop_first().reverse().push(r[0]));
        lemma_demand_sum_reverse(dem, r.drop_first());
        lemma_demand_sum_push(dem, r.drop_first().reverse(), r[0]);
    }
}

/// Over non-negative demands, a demand sum is non-negative.
pub proof fn lemma_demand_sum_nonneg(dem: Seq<i32>, r: Seq<usize>, n: int)
    requires
        in_range(r, n),
        dem.len() >= n,
        forall|k: int| 0 <= k < n ==> 0 <= #[trigger] dem[k],
    ensures
        demand_sum(dem, r) >= 0,
    decreases r.len(),
{
    if r.len() > 0 {
        assert(in_range(r.drop_first(), n));
        lemma_demand_sum_nonneg(dem, r.drop_first(), n);
    }
}

// ---------------------------------------------------------------------------
// Path costs
// ---------------------------------------------------------------------------

/// Appending a node extends the path by one final leg.
pub proof fn lemma_path_cost_push(d: Seq<Vec<i32>>, r: Seq<usize>, x: usize)
    ensures
        path_cost(d, r.push(x)) == path_cost(d, r) + if r.len() >= 1 {
            dist(d, r[r.len() - 1] as int, x as int)
        } else {
            0
        },
    decreases r.len(),
{
    reveal_with_fuel(path_cost, 3);
    if r.len() == 0 {
    } else if r.len() == 1 {
        assert(r.push(x).drop_first() =~= seq![x]);
    } else {
        assert(r.push(x).drop_first() =~= r.drop_first().push(x));
        lemma_path_cost_push(d, r.drop_first(), x);
    }
}

/// Path costs add over concatenation, plus the junction leg where both
/// halves are non-empty.
pub proof fn lemma_path_cost_concat(d: Seq<Vec<i32>>, a: Seq<usize>, b: Seq<usize>)
    ensures
        path_cost(d, a + b) == path_cost(d, a) + path_cost(d, b) + if a.len() >= 1 && b.len()
            >= 1 {
            dist(d, a[a.len() - 1] as int, b[0] as int)
        } else {
            0
        },
    decreases a.len(),
{
    if a.len() == 0 {
        assert(a + b =~= b);
    } else if a.len() == 1 {
        if b.len() == 0 {
            assert(a + b =~= a);
        } else {
            assert((a + b).drop_first() =~= b);
        }
    } else {
        assert((a + b).drop_first() =~= a.drop_first() + b);
        lemma_path_cost_concat(d, a.drop_first(), b);
    }
}

/// Over a symmetric matrix, a route travelled backwards costs the same.
pub proof fn lemma_path_cost_reverse(d: Seq<Vec<i32>>, r: Seq<usize>, n: int)
    requires
        matrix_wf(d, n),
        in_range0(r, n),
    ensures
        path_cost(d, r.reverse()) == path_cost(d, r),
    decreases r.len(),
{
    if r.len() >= 2 {
        let t = r.drop_first();
        assert(r.reverse() =~= t.reverse().push(r[0]));
        assert(in_range0(t, n));
        lemma_path_cost_reverse(d, t, n);
        lemma_path_cost_push(d, t.reverse(), r[0]);
        assert(t.reverse()[t.len() - 1] == t[0]);
    } else if r.len() == 1 {
        assert(r.reverse() =~= r);
    }
}

/// Over a matrix of non-negative entries, a path cost is non-negative.
pub proof fn lemma_path_cost_nonneg(d: Seq<Vec<i32>>, r: Seq<usize>, n: int)
    requires
        matrix_wf(d, n),
        in_range0(r, n),
    ensures
        path_cost(d, r) >= 0,
    decreases r.len(),
{
    if r.len() >= 2 {
        assert(in_range0(r.drop_first(), n));
        lemma_path_cost_nonneg(d, r.drop_first(), n);
    }
}

/// A path over `len` nodes costs at most `len - 1` maximal legs.
pub proof fn lemma_path_cost_bound(d: Seq<Vec<i32>>, r: Seq<usize>, n: int)
    requires
        matrix_wf(d, n),
        in_range0(r, n),
        r.len() >= 1,
    ensures
        path_cost(d, r) <= (r.len() - 1) * 0x7fff_ffff,
    decreases r.len(),
{
    if r.len() >= 2 {
        assert(in_range0(r.drop_first(), n));
        lemma_path_cost_bound(d, r.drop_first(), n);
        assert(dist(d, r[0] as int, r[1] as int) <= 0x7fff_ffff);
    }
}

// ---------------------------------------------------------------------------
// Total costs
// ---------------------------------------------------------------------------

/// Appending a route adds its path cost.
pub proof fn lemma_total_cost_push(d: Seq<Vec<i32>>, rs: Seq<Vec<usize>>, r: Vec<usize>)
    ensures
        total_cost(d, rs.push(r)) == total_cost(d, rs) + path_cost(d, r@),
    decreases rs.len(),
{
    reveal_with_fuel(total_cost, 3);
    if rs.len() == 0 {
        assert(rs.push(r).drop_first() =~= Seq::<Vec<usize>>::empty());
    } else {
        assert(rs.push(r).drop_first() =~= rs.drop_first().push(r));
        lemma_total_cost_push(d, rs.drop_first(), r);
    }
}

/// Replacing one route changes the total by the difference of path costs.
pub proof fn lemma_total_cost_update(d: Seq<Vec<i32>>, rs: Seq<Vec<usize>>, k: int, r: Vec<usize>)
    requires
        0 <= k < rs.len(),
    ensures
        total_cost(d, rs.update(k, r)) == total_cost(d, rs) - path_cost(d, rs[k]@) + path_cost(
            d,
            r@,
        ),
    decreases rs.len(),
{
    if k == 0 {
        assert(rs.update(0, r).drop_first() =~= rs.drop_first());
    } else {
        assert(rs.update(k, r).drop_first() =~= rs.drop_first().update(k - 1, r));
        lemma_total_cost_update(d, rs.drop_first(), k - 1, r);
    }
}

/// The summed travelled distance of an abstract route list.
pub open spec fn total_cost_seqs(d: Seq<Vec<i32>>, rs: Seq<Seq<usize>>) -> int
    decreases rs.len(),
{
    if rs.len() == 0 {
        0
    } else {
        path_cost(d, rs[0]) + total_cost_seqs(d, rs.drop_first())
    }
}

/// The two cost sums agree across the view.
pub proof fn lemma_total_cost_views(d: Seq<Vec<i32>>, rs: Seq<Vec<usize>>)
    ensures
        total_cost(d, rs) == total_cost_seqs(d, rs.map_values(|v: Vec<usize>| v@)),
    decreases rs.len(),
{
    if rs.len() > 0 {
        assert(rs.map_values(|v: Vec<usize>| v@).drop_first() =~= rs.drop_first().map_values(
            |v: Vec<usize>| v@,
        ));
        lemma_total_cost_views(d, rs.drop_first());
    }
}

// ---------------------------------------------------------------------------
// Lengths of duplicate-free routes
// ---------------------------------------------------------------------------

/// A duplicate-free route over customers `1..n` has at most `n - 1` nodes.
pub proof fn lemma_no_dup_len(r: Seq<usize>, n: int)
    requires
        r.no_duplicates(),
        in_range(r, n),
        n >= 1,
    ensures
        r.len() <= n - 1,
{
    let s = r.map_values(|x: usize| x as int);
    assert(s.no_duplicates());
    s.unique_seq_to_set();
    vstd::set_lib::lemma_int_range(1, n);
    assert(s.to_set().subset_of(vstd::set_lib::set_int_range(1, n))) by {
        assert forall|x: int| s.to_set().contains(x) implies 1 <= x < n by {
            let k = choose|k: int| 0 <= k < s.len() && s[k] == x;
            assert(1 <= r[k] < n);
        }
    }
    vstd::set_lib::lemma_len_subset(s.to_set(), vstd::set_lib::set_int_range(1, n));
}

/// Taking one node out of a route takes its demand out of the sum.
pub proof fn lemma_demand_sum_remove(dem: Seq<i32>, r: Seq<usize>, t: int)
    requires
        0 <= t < r.len(),
    ensures
        demand_sum(dem, r) == dem[r[t] as int] + demand_sum(dem, r.remove(t)),
    decreases r.len(),
{
    if t == 0 {
        assert(r.remove(0) =~= r.drop_first());
    } else {
        assert(r.remove(t).drop_first() =~= r.drop_first().remove(t - 1));
        lemma_demand_sum_remove(dem, r.drop_first(), t - 1);
    }
}

/// Routes holding the same nodes have the same summed demand.
pub proof fn lemma_demand_sum_multiset(dem: Seq<i32>, x: Seq<usize>, y: Seq<usize>)
    requires
        x.to_multiset() == y.to_multiset(),
    ensures
        demand_sum(dem, x) == demand_sum(dem, y),
    decreases x.len(),
{
    broadcast use vstd::seq_lib::group_to_multiset_ensures;
    broadcast use vstd::multiset::group_multiset_axioms;

    if x.len() == 0 {
        assert(x.to_multiset().len() == x.len());
        assert(y.to_multiset().len() == y.len());
        assert(y.len() == 0);
    } else {
        let h = x[0];
        assert(x.contains(h));
        assert(y.to_multiset().count(h) > 0);
        assert(y.contains(h));
        let t = choose|t: int| 0 <= t < y.len() && y[t] == h;
        lemma_demand_sum_remove(dem, y, t);
        lemma_demand_sum_remove(dem, x, 0);
        assert(x.remove(0).to_multiset() =~= y.remove(t).to_multiset()) by {
            assert(x.remove(0).to_multiset() == x.to_multiset().remove(h));
            assert(y.remove(t).to_multiset() == y.to_multiset().remove(h));
        }
        lemma_demand_sum_multiset(dem, x.remove(0), y.remove(t));
    }
}

/// A partition stays a partition when each route is rearranged, keeping
/// exactly its nodes.
pub proof fn lemma_partition_multiset(rs1: Seq<Seq<usize>>, rs2: Seq<Seq<usize>>, n: int)
    requires
        partition_seqs(rs1, n),
        rs1.len() == rs2.len(),
        forall|t: int| 0 <= t < rs1.len() ==> (#[trigger] rs1[t]).to_multiset() == rs2[t].to_multiset(),
    ensures
        partition_seqs(rs2, n),
{
    broadcast use vstd::seq_lib::group_to_multiset_ensures;
    broadcast use vstd::multiset::group_multiset_axioms;

    assert forall|t: int, x: usize|
        0 <= t < rs1.len() implies (rs1[t].contains(x) <==> #[trigger] rs2[t].contains(x)) by {
        assert(rs1[t].contains(x) <==> rs1[t].to_multiset().count(x) > 0);
        assert(rs2[t].contains(x) <==> rs2[t].to_multiset().count(x) > 0);
    }
    assert forall|t: int|
        0 <= t < rs2.len() implies in_range(#[trigger] rs2[t], n) && rs2[t].no_duplicates()
            && rs2[t].len() >= 1 by {
        assert(rs1[t].to_multiset().len() == rs1[t].len());
        assert(rs2[t].to_multiset().len() == rs2[t].len());
        assert forall|q: int| 0 <= q < rs2[t].len() implies 1 <= #[trigger] rs2[t][q] < n by {
            assert(rs2[t].contains(rs2[t][q]));
            assert(rs1[t].contains(rs2[t][q]));
        }
        rs1[t].lemma_multiset_has_no_duplicates();
        rs2[t].lemma_multiset_has_no_duplicates_conv();
    }
    assert forall|t1: int, t2: int| 0 <= t1 < t2 < rs2.len() implies seqs_disjoint(
        #[trigger] rs2[t1],
        #[trigger] rs2[t2],
    ) by {
        assert(seqs_disjoint(rs1[t1], rs1[t2]));
        assert forall|x: usize| rs2[t1].contains(x) implies !rs2[t2].contains(x) by {
            assert(rs1[t1].contains(x));
        }
    }
    assert forall|m: usize| 1 <= m < n implies #[trigger] covered(rs2, m) by {
        assert(covered(rs1, m));
        let t = choose|t: int| 0 <= t < rs1.len() && #[trigger] rs1[t].contains(m);
        assert(rs2[t].contains(m));
    }
}

/// Where every single node's demand already fits the capacity, every route
/// of a well-formed solution fits it too: the lone documented exception, a
/// customer whose own demand exceeds the capacity, cannot arise.
pub proof fn lemma_capacity_feasible(c: Challenge, s: Solution)
    requires
        challenge_wf(c),
        solution_wf(c, s),
        forall|k: int| 0 <= k < c.num_nodes ==> #[trigger] c.demands@[k] <= c.max_capacity,
    ensures
        forall|i: int|
            0 <= i < s.routes@.len() ==> demand_sum(c.demands@, interior(#[trigger] s.routes@[i]@))
                <= c.max_capacity,
{
    let ints = solution_interiors(s);
    assert forall|i: int| 0 <= i < s.routes@.len() implies demand_sum(
        c.demands@,
        interior(#[trigger] s.routes@[i]@),
    ) <= c.max_capacity by {
        let r = interior(s.routes@[i]@);
        assert(ints[i] == r);
        assert(in_range(r, c.num_nodes as int) && r.len() >= 1);
        if r.len() == 1 {
            assert(r.drop_first() =~= Seq::<usize>::empty());
            assert(demand_sum(c.demands@, r) == c.demands@[r[0] as int] + demand_sum(
                c.demands@,
                r.drop_first(),
            ));
        }
    }
}

// ---------------------------------------------------------------------------
// Executable costs
// ---------------------------------------------------------------------------

/// The travelled distance along one route.
pub fn route_cost(d: &Vec<Vec<i32>>, r: &Vec<usize>, n: usize) -> (c: i64)
    requires
        matrix_wf(d@, n as int),
        in_range0(r@, n as int),
        r@.len() <= n + 1,
        n <= crate::problem::NODE_LIMIT,
    ensures
        c == path_cost(d@, r@),
{
    let len = r.len();
    if len < 2 {
        return 0;
    }
    let mut c: i64 = 0;
    let mut k: usize = 1;
    proof {
        assert(r@.take(1int).len() < 2);
    }
    while k < len
        invariant
            1 <= k <= len,
            len == r@.len(),
            2 <= len,
            matrix_wf(d@, n as int),
            in_range0(r@, n as int),
            r@.len() <= n + 1,
            n <= crate::problem::NODE_LIMIT,
            c == path_cost(d@, r@.take(k as int)),
            0 <= c <= (k - 1) * 0x7fff_ffffi64,
        decreases len - k,
    {
        let a = r[k - 1];
        let b = r[k];
        proof {
            assert(r@.take(k + 1) =~= r@.take(k as int).push(r@[k as int]));
            lemma_path_cost_push(d@, r@.take(k as int), r@[k as int]);
            assert(r@.take(k as int)[k - 1] == r@[k - 1]);
            assert(0 <= dist(d@, a as int, b as int) <= 0x7fff_ffff);
        }
        c = c + d[a][b] as i64;
        k = k + 1;
    }
    proof {
        assert(r@.take(len as int) =~= r@);
    }
    c
}

/// The summed travelled distance of a route list.
pub fn routes_cost(d: &Vec<Vec<i32>>, rs: &Vec<Vec<usize>>, n: usize) -> (c: i128)
    requires
        matrix_wf(d@, n as int),
        forall|t: int|
            0 <= t < rs@.len() ==> in_range0((#[trigger] rs@[t])@, n as int) && rs@[t]@.len() <= n
                + 1,
        n <= crate::problem::NODE_LIMIT,
    ensures
        c == total_cost(d@, rs@),
{
    let mut c: i128 = 0;
    let mut t: usize = 0;
    while t < rs.len()
        invariant
            0 <= t <= rs@.len(),
            matrix_wf(d@, n as int),
            forall|q: int|
                0 <= q < rs@.len() ==> in_range0((#[trigger] rs@[q])@, n as int) && rs@[q]@.len()
                    <= n + 1,
            n <= crate::problem::NODE_LIMIT,
            c == total_cost(d@, rs@.take(t as int)),
            0 <= c <= t * 0x2000_0000_0000_0000i128,
        decreases rs@.len() - t,
    {
        let rc = route_cost(d, &rs[t], n);
        proof {
            assert(rs@.take(t + 1) =~= rs@.take(t as int).push(rs@[t as int]));
            lemma_total_cost_push(d@, rs@.take(t as int), rs@[t as int]);
            if rs@[t as int]@.len() >= 1 {
                lemma_path_cost_bound(d@, rs@[t as int]@, n as int);
                lemma_path_cost_nonneg(d@, rs@[t as int]@, n as int);
                assert((rs@[t as int]@.len() - 1) * 0x7fff_ffff <= (n + 1 - 1) * 0x7fff_ffff
                    <= 0x2000_0000_0000_0000i128) by {
                    assert(rs@[t as int]@.len() - 1 <= n);
                    vstd::arithmetic::mul::lemma_mul_inequality(
                        rs@[t as int]@.len() - 1,
                        n as int,
                        0x7fff_ffff,
                    );
                    vstd::arithmetic::mul::lemma_mul_inequality(
                        n as int,
                        0x2000_0000,
                        0x7fff_ffff,
                    );
                }
            }
        }
        c = c + rc as i128;
        t = t + 1;
    }
    proof {
        assert(rs@.take(rs@.len() as int) =~= rs@);
    }
    c
}

} // verus!
