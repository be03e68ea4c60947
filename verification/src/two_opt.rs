//! 2-opt local search: repeatedly reverse a route segment whose reconnection
//! shortens the route, until a full pass finds no improving swap.
//!
//! The search is strictly intra-route: routes never exchange nodes. Each
//! route is refined independently to its own fixed point, which is the same
//! fixed point a joint sweep over all routes reaches, since no route's swaps
//! depend on another route.

use vstd::prelude::*;
use crate::merge::copy_route;
use crate::problem::{NODE_LIMIT, dist, matrix_wf};
use crate::routes::{
    in_range0, lemma_path_cost_concat, lemma_path_cost_nonneg, lemma_path_cost_reverse,
    lemma_total_cost_update, path_cost, total_cost,
};

verus! {

/// Reverse `v[lo..hi]` in place.
fn reverse_segment(v: &mut Vec<usize>, lo: usize, hi: usize)
    requires
        lo < hi <= old(v)@.len(),
    ensures
        final(v)@ == old(v)@.take(lo as int) + old(v)@.subrange(lo as int, hi as int).reverse()
            + old(v)@.skip(hi as int),
        final(v)@.len() == old(v)@.len(),
{
    let ghost orig = v@;
    let mut a: usize = lo;
    let mut b: usize = hi - 1;
    while a < b
        invariant
            lo <= a,
            b < hi <= orig.len(),
            v@.len() == orig.len(),
            a + b == lo + hi - 1,
            forall|t: int| 0 <= t < lo ==> #[trigger] v@[t] == orig[t],
            forall|t: int| hi <= t < orig.len() ==> #[trigger] v@[t] == orig[t],
            forall|t: int| lo <= t < a ==> #[trigger] v@[t] == orig[lo + hi - 1 - t],
            forall|t: int| b < t < hi ==> #[trigger] v@[t] == orig[lo + hi - 1 - t],
            forall|t: int| a <= t <= b ==> #[trigger] v@[t] == orig[t],
        decreases hi - a,
    {
        let x = v[a];
        let y = v[b];
        v[a] = y;
        v[b] = x;
        a = a + 1;
        b = b - 1;
    }
    proof {
        let res = orig.take(lo as int) + orig.subrange(lo as int, hi as int).reverse()
            + orig.skip(hi as int);
        assert forall|t: int| 0 <= t < orig.len() implies v@[t] == res[t] by {
            if lo <= t < hi {
                assert(res[t] == orig.subrange(lo as int, hi as int).reverse()[t - lo]);
                assert(orig.subrange(lo as int, hi as int).reverse()[t - lo] == orig.subrange(
                    lo as int,
                    hi as int,
                )[hi - lo - 1 - (t - lo)]);
                assert(res[t] == orig[lo + hi - 1 - t]);
            }
        }
        assert(v@ =~= res);
    }
}

/// Reconnecting the edges entering `r[i]` and `r[j]` the other way — which
/// reverses the segment between them — would strictly shorten the route.
pub open spec fn swap_improves(d: Seq<Vec<i32>>, r: Seq<usize>, i: int, j: int) -> bool {
    dist(d, r[i - 1] as int, r[j - 1] as int) + dist(d, r[i] as int, r[j] as int) < dist(
        d,
        r[i - 1] as int,
        r[i] as int,
    ) + dist(d, r[j - 1] as int, r[j] as int)
}

/// The route is a 2-opt local optimum: no segment reversal shortens it.
/// Routes of fewer than four nodes have no eligible edge pair and are
/// optima outright.
pub open spec fn two_opt_optimal(d: Seq<Vec<i32>>, r: Seq<usize>) -> bool {
    forall|i: int, j: int| 1 <= i && i + 2 <= j < r.len() ==> !#[trigger] swap_improves(d, r, i, j)
}

/// One scanning pass from position `(i, j)`: each eligible edge pair in
/// order, reversing the enclosed segment whenever its reconnection is
/// shorter and continuing the scan on the modified route. Returns the route
/// and whether any swap was taken.
pub open spec fn scan_pass(d: Seq<Vec<i32>>, r: Seq<usize>, i: int, j: int) -> (Seq<usize>, bool)
    decreases r.len() - i, r.len() - j,
{
    if i < 1 || i >= r.len() - 2 {
        (r, false)
    } else if j >= r.len() {
        scan_pass(d, r, i + 1, i + 3)
    } else if j < i + 2 {
        (r, false)
    } else if swap_improves(d, r, i, j) {
        let r2 = r.take(i) + r.subrange(i, j).reverse() + r.skip(j);
        (scan_pass(d, r2, i, j + 1).0, true)
    } else {
        scan_pass(d, r, i, j + 1)
    }
}

/// What one scanning pass does: the route keeps its length and its nodes'
/// range, the cost never rises, it falls strictly whenever a swap was
/// taken, and a pass that took none left the route alone.
pub proof fn lemma_scan_pass(d: Seq<Vec<i32>>, r: Seq<usize>, n: int, i: int, j: int)
    requires
        matrix_wf(d, n),
        in_range0(r, n),
    ensures
        scan_pass(d, r, i, j).0.len() == r.len(),
        in_range0(scan_pass(d, r, i, j).0, n),
        path_cost(d, scan_pass(d, r, i, j).0) <= path_cost(d, r),
        scan_pass(d, r, i, j).1 ==> path_cost(d, scan_pass(d, r, i, j).0) < path_cost(d, r),
        !scan_pass(d, r, i, j).1 ==> scan_pass(d, r, i, j).0 == r,
    decreases r.len() - i, r.len() - j,
{
    if i < 1 || i >= r.len() - 2 {
    } else if j >= r.len() {
        lemma_scan_pass(d, r, n, i + 1, i + 3);
    } else if j < i + 2 {
    } else if swap_improves(d, r, i, j) {
        let r2 = r.take(i) + r.subrange(i, j).reverse() + r.skip(j);
        lemma_two_opt_swap(d, r, n, i, j);
        assert(in_range0(r2, n)) by {
            assert forall|q: int| 0 <= q < r2.len() implies 0 <= #[trigger] r2[q] < n by {
                if i <= q < j {
                    assert(r2[q] == r.subrange(i, j).reverse()[q - i]);
                    assert(r2[q] == r[i + j - 1 - q]);
                }
            }
        }
        lemma_scan_pass(d, r2, n, i, j + 1);
    } else {
        lemma_scan_pass(d, r, n, i, j + 1);
    }
}

/// The 2-opt fixed point of a route: scanning passes repeat, each from the
/// top, until one takes no swap.
pub open spec fn two_opt_fix(d: Seq<Vec<i32>>, r: Seq<usize>, n: int) -> Seq<usize>
    decreases path_cost(d, r)
        when matrix_wf(d, n) && in_range0(r, n)
        via two_opt_fix_decreases
{
    if scan_pass(d, r, 1, 3).1 {
        two_opt_fix(d, scan_pass(d, r, 1, 3).0, n)
    } else {
        r
    }
}

#[via_fn]
proof fn two_opt_fix_decreases(d: Seq<Vec<i32>>, r: Seq<usize>, n: int) {
    lemma_scan_pass(d, r, n, 1, 3);
    lemma_path_cost_nonneg(d, scan_pass(d, r, 1, 3).0, n);
}

/// What one accepted 2-opt move does to the route's cost: the two old legs
/// leave, the two reconnecting legs enter, and nothing else changes, the
/// reversed middle costing the same backwards over a symmetric matrix.
pub proof fn lemma_two_opt_swap(d: Seq<Vec<i32>>, r: Seq<usize>, n: int, i: int, j: int)
    requires
        matrix_wf(d, n),
        in_range0(r, n),
        1 <= i,
        i + 2 <= j < r.len(),
    ensures
        path_cost(d, r.take(i) + r.subrange(i, j).reverse() + r.skip(j)) == path_cost(d, r) - (
        dist(d, r[i - 1] as int, r[i] as int) + dist(d, r[j - 1] as int, r[j] as int)) + (dist(
            d,
            r[i - 1] as int,
            r[j - 1] as int,
        ) + dist(d, r[i] as int, r[j] as int)),
{
    let a = r.take(i);
    let b = r.subrange(i, j);
    let c = r.skip(j);
    let b2 = b.reverse();
    assert(r =~= a + b + c);
    assert(in_range0(b, n));
    assert(in_range0(b2, n)) by {
        assert forall|t: int| 0 <= t < b2.len() implies 0 <= #[trigger] b2[t] < n by {
            assert(b2[t] == b[b.len() - 1 - t]);
        }
    }
    lemma_path_cost_concat(d, a, b);
    lemma_path_cost_concat(d, a + b, c);
    lemma_path_cost_reverse(d, b, n);
    lemma_path_cost_concat(d, a, b2);
    lemma_path_cost_concat(d, a + b2, c);
    assert(a[a.len() - 1] == r[i - 1]);
    assert(b[0] == r[i] && b[b.len() - 1] == r[j - 1]);
    assert(b2[0] == r[j - 1] && b2[b2.len() - 1] == r[i]);
    assert(c[0] == r[j]);
    assert((a + b)[(a + b).len() - 1] == r[j - 1]);
    assert((a + b2)[(a + b2).len() - 1] == r[i]);
}

/// Refine one route to its 2-opt fixed point.
///
/// The route keeps exactly its nodes, its first and its last; its travelled
/// distance never increases. Routes of fewer than four nodes have no two
/// non-adjacent interior edges and are left alone.
pub fn optimize_route(route: &mut Vec<usize>, d: &Vec<Vec<i32>>, n: usize)
    requires
        matrix_wf(d@, n as int),
        in_range0(old(route)@, n as int),
        n <= NODE_LIMIT,
    ensures
        final(route)@.to_multiset() == old(route)@.to_multiset(),
        final(route)@.len() == old(route)@.len(),
        old(route)@.len() >= 1 ==> final(route)@[0] == old(route)@[0]
            && final(route)@[final(route)@.len() - 1] == old(route)@[old(route)@.len() - 1],
        in_range0(final(route)@, n as int),
        path_cost(d@, final(route)@) <= path_cost(d@, old(route)@),
        two_opt_optimal(d@, final(route)@),
        !two_opt_optimal(d@, old(route)@) ==> path_cost(d@, final(route)@) < path_cost(
            d@,
            old(route)@,
        ),
        final(route)@ == two_opt_fix(d@, old(route)@, n as int),
{
    broadcast use vstd::seq_lib::group_to_multiset_ensures;

    if route.len() < 4 {
        proof {
            assert(two_opt_optimal(d@, route@));
            assert(scan_pass(d@, route@, 1, 3) == ((route@, false)));
            assert(two_opt_fix(d@, route@, n as int) == route@);
        }
        return ;
    }
    let len = route.len();
    proof {
        lemma_path_cost_nonneg(d@, route@, n as int);
    }
    let mut improved = true;
    while improved
        invariant
            len == route@.len(),
            4 <= len,
            matrix_wf(d@, n as int),
            n <= NODE_LIMIT,
            in_range0(route@, n as int),
            route@.to_multiset() == old(route)@.to_multiset(),
            route@[0] == old(route)@[0],
            route@[len - 1] == old(route)@[len - 1],
            0 <= path_cost(d@, route@) <= path_cost(d@, old(route)@),
            route@ == old(route)@ || path_cost(d@, route@) < path_cost(d@, old(route)@),
            !improved ==> two_opt_optimal(d@, route@),
            two_opt_fix(d@, route@, n as int) == two_opt_fix(d@, old(route)@, n as int),
            !improved ==> scan_pass(d@, route@, 1, 3).1 == false,
        decreases path_cost(d@, route@), (if improved {
            1int
        } else {
            0int
        }),
    {
        let ghost pass_start = route@;
        improved = false;
        let mut i: usize = 1;
        while i < len - 2
            invariant
                1 <= i <= len - 2,
                len == route@.len(),
                4 <= len,
                matrix_wf(d@, n as int),
                n <= NODE_LIMIT,
                in_range0(route@, n as int),
                route@.to_multiset() == old(route)@.to_multiset(),
                route@[0] == old(route)@[0],
                route@[len - 1] == old(route)@[len - 1],
                0 <= path_cost(d@, route@) <= path_cost(d@, old(route)@),
                route@ == old(route)@ || path_cost(d@, route@) < path_cost(d@, old(route)@),
                improved ==> path_cost(d@, route@) < path_cost(d@, pass_start),
                !improved ==> route@ == pass_start,
                !improved ==> forall|i2: int, j2: int|
                    1 <= i2 < i && i2 + 2 <= j2 < len ==> !#[trigger] swap_improves(
                        d@,
                        route@,
                        i2,
                        j2,
                    ),
                ({
                    let s = scan_pass(d@, route@, i as int, i + 2);
                    scan_pass(d@, pass_start, 1, 3) == ((s.0, improved || s.1))
                }),
            decreases len - 2 - i,
        {
            let mut j: usize = i + 2;
            while j < len
                invariant
                    1 <= i <= len - 2,
                    i + 2 <= j <= len,
                    len == route@.len(),
                    4 <= len,
                    matrix_wf(d@, n as int),
                    n <= NODE_LIMIT,
                    in_range0(route@, n as int),
                    route@.to_multiset() == old(route)@.to_multiset(),
                    route@[0] == old(route)@[0],
                    route@[len - 1] == old(route)@[len - 1],
                    0 <= path_cost(d@, route@) <= path_cost(d@, old(route)@),
                    route@ == old(route)@ || path_cost(d@, route@) < path_cost(d@, old(route)@),
                    improved ==> path_cost(d@, route@) < path_cost(d@, pass_start),
                    !improved ==> route@ == pass_start,
                    !improved ==> forall|i2: int, j2: int|
                        1 <= i2 && i2 + 2 <= j2 < len && (i2 < i || (i2 == i && j2 < j))
                            ==> !#[trigger] swap_improves(d@, route@, i2, j2),
                    ({
                        let s = scan_pass(d@, route@, i as int, j as int);
                        scan_pass(d@, pass_start, 1, 3) == ((s.0, improved || s.1))
                    }),
                decreases len - j,
            {
                let a = route[i - 1];
                let b = route[i];
                let cnode = route[j - 1];
                let dnode = route[j];
                let cur: i64 = d[a][b] as i64 + d[cnode][dnode] as i64;
                let cand: i64 = d[a][cnode] as i64 + d[b][dnode] as i64;
                proof {
                    assert(cur == dist(d@, a as int, b as int) + dist(
                        d@,
                        cnode as int,
                        dnode as int,
                    ));
                    assert(cand == dist(d@, a as int, cnode as int) + dist(
                        d@,
                        b as int,
                        dnode as int,
                    ));
                }
                proof {
                    if cand >= cur {
                        assert(!swap_improves(d@, route@, i as int, j as int));
                        assert(scan_pass(d@, route@, i as int, j as int) == scan_pass(
                            d@,
                            route@,
                            i as int,
                            j + 1,
                        ));
                    }
                }
                if cand < cur {
                    let ghost before = route@;
                    reverse_segment(route, i, j);
                    proof {
                        lemma_two_opt_swap(d@, before, n as int, i as int, j as int);
                        let t = before.take(i as int);
                        let m = before.subrange(i as int, j as int);
                        let s = before.skip(j as int);
                        assert(route@ == t + m.reverse() + s);
                        assert(swap_improves(d@, before, i as int, j as int));
                        assert(scan_pass(d@, before, i as int, j as int) == ((scan_pass(
                            d@,
                            route@,
                            i as int,
                            j + 1,
                        ).0, true)));
                        assert(route@.to_multiset() == before.to_multiset()) by {
                            vstd::seq_lib::lemma_multiset_commutative(t + m.reverse(), s);
                            vstd::seq_lib::lemma_multiset_commutative(t, m.reverse());
                            m.lemma_reverse_to_multiset();
                            vstd::seq_lib::lemma_multiset_commutative(t, m);
                            vstd::seq_lib::lemma_multiset_commutative(t + m, s);
                            assert(before =~= t + m + s);
                        }
                        assert(in_range0(route@, n as int)) by {
                            assert forall|q: int| 0 <= q < route@.len() implies 0 <= #[trigger] route@[q]
                                < n by {
                                if i <= q < j {
                                    assert(route@[q] == m.reverse()[q - i]);
                                    assert(m.reverse()[q - i] == m[m.len() - 1 - (q - i)]);
                                    assert(route@[q] == before[i + j - 1 - q]);
                                }
                            }
                        }
                        assert(route@[0] == before[0]);
                        assert(route@[len - 1] == before[len - 1]);
                        lemma_path_cost_nonneg(d@, route@, n as int);
                    }
                    improved = true;
                }
                j = j + 1;
            }
            proof {
                assert(scan_pass(d@, route@, i as int, j as int) == scan_pass(
                    d@,
                    route@,
                    i + 1,
                    i + 3,
                ));
            }
            i = i + 1;
        }
        proof {
            assert(scan_pass(d@, route@, i as int, i + 2) == ((route@, false)));
            assert(scan_pass(d@, pass_start, 1, 3) == ((route@, improved)));
            if improved {
                assert(two_opt_fix(d@, pass_start, n as int) == two_opt_fix(
                    d@,
                    route@,
                    n as int,
                ));
            }
        }
    }
    proof {
        if route@ == old(route)@ {
            assert(two_opt_optimal(d@, old(route)@));
        }
        assert(two_opt_fix(d@, route@, n as int) == route@);
    }
}

/// Improve every route by 2-opt until none admits an improving swap.
///
/// Each route keeps exactly its nodes and its two ends; the summed travelled
/// distance of the route list never increases.
pub fn apply_2opt(routes: &mut Vec<Vec<usize>>, d: &Vec<Vec<i32>>, n: usize)
    requires
        matrix_wf(d@, n as int),
        n <= NODE_LIMIT,
        forall|idx: int|
            0 <= idx < old(routes)@.len() ==> in_range0((#[trigger] old(routes)@[idx])@, n as int),
    ensures
        final(routes)@.len() == old(routes)@.len(),
        forall|idx: int|
            0 <= idx < old(routes)@.len() ==> (#[trigger] final(routes)@[idx])@.to_multiset()
                == old(routes)@[idx]@.to_multiset(),
        forall|idx: int|
            0 <= idx < old(routes)@.len() ==> (#[trigger] final(routes)@[idx])@.len()
                == old(routes)@[idx]@.len(),
        forall|idx: int|
            0 <= idx < old(routes)@.len() && old(routes)@[idx]@.len() >= 1 ==> (
            #[trigger] final(routes)@[idx])@[0] == old(routes)@[idx]@[0]
                && final(routes)@[idx]@[final(routes)@[idx]@.len() - 1]
                == old(routes)@[idx]@[old(routes)@[idx]@.len() - 1],
        forall|idx: int|
            0 <= idx < old(routes)@.len() ==> in_range0((#[trigger] final(routes)@[idx])@, n as int),
        forall|idx: int|
            0 <= idx < old(routes)@.len() ==> path_cost(d@, (#[trigger] final(routes)@[idx])@)
                <= path_cost(d@, old(routes)@[idx]@),
        forall|idx: int|
            0 <= idx < old(routes)@.len() ==> two_opt_optimal(d@, (#[trigger] final(routes)@[idx])@),
        forall|idx: int|
            0 <= idx < old(routes)@.len() && !two_opt_optimal(d@, old(routes)@[idx]@) ==> path_cost(
                d@,
                (#[trigger] final(routes)@[idx])@,
            ) < path_cost(d@, old(routes)@[idx]@),
        forall|idx: int|
            0 <= idx < old(routes)@.len() ==> (#[trigger] final(routes)@[idx])@ == two_opt_fix(
                d@,
                old(routes)@[idx]@,
                n as int,
            ),
        total_cost(d@, final(routes)@) <= total_cost(d@, old(routes)@),
{
    let ghost orig = routes@;
    let mut idx: usize = 0;
    while idx < routes.len()
        invariant
            0 <= idx <= orig.len(),
            routes@.len() == orig.len(),
            matrix_wf(d@, n as int),
            n <= NODE_LIMIT,
            forall|q: int| 0 <= q < orig.len() ==> in_range0((#[trigger] orig[q])@, n as int),
            forall|q: int| idx <= q < orig.len() ==> #[trigger] routes@[q] == orig[q],
            forall|q: int|
                0 <= q < idx ==> (#[trigger] routes@[q])@.to_multiset() == orig[q]@.to_multiset()
                    && routes@[q]@.len() == orig[q]@.len() && in_range0(routes@[q]@, n as int),
            forall|q: int|
                0 <= q < idx && orig[q]@.len() >= 1 ==> (#[trigger] routes@[q])@[0] == orig[q]@[0]
                    && routes@[q]@[routes@[q]@.len() - 1] == orig[q]@[orig[q]@.len() - 1],
            forall|q: int|
                0 <= q < idx ==> path_cost(d@, (#[trigger] routes@[q])@) <= path_cost(d@, orig[q]@)
                    && two_opt_optimal(d@, routes@[q]@) && (!two_opt_optimal(d@, orig[q]@)
                    ==> path_cost(d@, routes@[q]@) < path_cost(d@, orig[q]@)) && routes@[q]@
                    == two_opt_fix(d@, orig[q]@, n as int),
            total_cost(d@, routes@) <= total_cost(d@, orig),
        decreases orig.len() - idx,
    {
        let mut r = copy_route(&routes[idx]);
        optimize_route(&mut r, d, n);
        let ghost pre = routes@;
        routes[idx] = r;
        proof {
            lemma_total_cost_update(d@, pre, idx as int, r);
        }
        idx = idx + 1;
    }
}

} // verus!
