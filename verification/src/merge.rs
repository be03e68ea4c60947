//! The savings-merge engine.
//!
//! During merging, routes live in an endpoint-indexed table: slot `k` holds a
//! route exactly when `k` is its first or last node, the same route standing
//! in both of its endpoint slots, and every other slot is empty. A parallel
//! demand table carries each live route's summed demand under the same keys.
//! Scored pairs arrive in processing order; a pair joins the two routes
//! ending at its nodes when they are distinct and their demands fit the
//! capacity together, orienting each by reversal so the junction is correct.

use vstd::prelude::*;
use crate::problem::NODE_LIMIT;
use crate::routes::{
    demand_sum, in_range, lemma_demand_sum_concat, lemma_demand_sum_reverse, seqs_disjoint,
};

verus! {

/// Slot `k` of the table holds a live route.
pub open spec fn live(rt: Seq<Vec<usize>>, k: int) -> bool {
    0 <= k < rt.len() && rt[k]@.len() > 0
}

/// Slot `k` holds a live route whose first node is `k` itself: the slot that
/// canonically owns the route.
pub open spec fn owner(rt: Seq<Vec<usize>>, k: int) -> bool {
    live(rt, k) && rt[k]@[0] == k as usize
}

/// Some owner slot's route visits node `m`.
pub open spec fn table_covered(rt: Seq<Vec<usize>>, m: usize) -> bool {
    exists|k: int| #[trigger] owner(rt, k) && rt[k]@.contains(m)
}

/// What holds of the route in live slot `k`: customers only, none twice,
/// `k` is one of its endpoints, both endpoint slots hold this same route,
/// and a merged route (two or more nodes) fits the capacity.
pub open spec fn route_ok(rt: Seq<Vec<usize>>, dem: Seq<i32>, cap: int, n: int, k: int) -> bool {
    let r = rt[k]@;
    &&& in_range(r, n)
    &&& r.no_duplicates()
    &&& r[0] == k as usize || r[r.len() - 1] == k as usize
    &&& rt[r[0] as int]@ == r
    &&& rt[r[r.len() - 1] as int]@ == r
    &&& r.len() >= 2 ==> demand_sum(dem, r) <= cap
}

/// The route table invariant: the depot slot is empty, every live slot's
/// route is well kept, every customer is on exactly one owned route, and
/// distinct owned routes share no node.
pub open spec fn table_wf(rt: Seq<Vec<usize>>, dem: Seq<i32>, cap: int, n: int) -> bool {
    &&& rt.len() == n
    &&& dem.len() == n
    &&& 1 <= n
    &&& rt[0]@.len() == 0
    &&& forall|k: int| 0 <= k < n && (#[trigger] rt[k])@.len() > 0 ==> route_ok(rt, dem, cap, n, k)
    &&& forall|m: usize| 1 <= m < n ==> #[trigger] table_covered(rt, m)
    &&& forall|k1: int, k2: int|
        #[trigger] owner(rt, k1) && #[trigger] owner(rt, k2) && k1 != k2 ==> seqs_disjoint(
            rt[k1]@,
            rt[k2]@,
        )
}

/// The demand table matches the route table: each live slot carries its
/// route's summed demand, which fits an `i32`.
pub open spec fn demands_ok(rt: Seq<Vec<usize>>, rd: Seq<i64>, dem: Seq<i32>, n: int) -> bool {
    &&& rd.len() == n
    &&& forall|k: int|
        0 <= k < n && (#[trigger] rt[k])@.len() > 0 ==> rd[k] == demand_sum(dem, rt[k]@) && 0 <= rd[k]
            <= 0x7fff_ffff
}

/// The table every run starts from: the depot slot empty, every customer a
/// singleton route.
pub open spec fn initial_table(n: int) -> Seq<Seq<usize>> {
    Seq::new(n as nat, |k: int| if k == 0 { Seq::<usize>::empty() } else { seq![k as usize] })
}

/// The demand table every run starts from: each node's own demand.
pub open spec fn initial_demand_table(dem: Seq<i32>, n: int) -> Seq<int> {
    Seq::new(n as nat, |k: int| dem[k] as int)
}

/// What one scored pair does to the tables: nothing when either node's slot
/// is empty, when both nodes sit on one route, or when the joined demand
/// overflows the capacity; otherwise the two routes are oriented, joined,
/// and re-keyed under the joint route's two ends.
pub open spec fn merge_step(
    rt: Seq<Seq<usize>>,
    rd: Seq<int>,
    i: int,
    j: int,
    cap: int,
) -> (Seq<Seq<usize>>, Seq<int>) {
    if rt[i].len() == 0 || rt[j].len() == 0 {
        (rt, rd)
    } else {
        let lr = rt[i];
        let rr = rt[j];
        let ls = lr[0] as int;
        let rs = rr[0] as int;
        let le = lr[lr.len() - 1] as int;
        let re = rr[rr.len() - 1] as int;
        let md = rd[ls] + rd[rs];
        if ls == rs || md > cap {
            (rt, rd)
        } else {
            let lor = if lr[0] == i as usize {
                lr.reverse()
            } else {
                lr
            };
            let ror = if rr[rr.len() - 1] == j as usize {
                rr.reverse()
            } else {
                rr
            };
            let m = lor + ror;
            let s1 = m[0] as int;
            let e1 = m[m.len() - 1] as int;
            let rt1 = rt.update(ls, Seq::<usize>::empty()).update(rs, Seq::<usize>::empty()).update(
                le,
                Seq::<usize>::empty(),
            ).update(re, Seq::<usize>::empty()).update(s1, m).update(e1, m);
            let rd1 = rd.update(s1, md).update(e1, md);
            (rt1, rd1)
        }
    }
}

/// The tables after processing the pairs in order, from the given state.
pub open spec fn merge_run(
    rt: Seq<Seq<usize>>,
    rd: Seq<int>,
    pairs: Seq<(usize, usize)>,
    cap: int,
) -> (Seq<Seq<usize>>, Seq<int>)
    decreases pairs.len(),
{
    if pairs.len() == 0 {
        (rt, rd)
    } else {
        let s = merge_step(rt, rd, pairs[0].0 as int, pairs[0].1 as int, cap);
        merge_run(s.0, s.1, pairs.drop_first(), cap)
    }
}

/// Processing one more pair is one more step on the result so far.
proof fn lemma_merge_run_snoc(
    rt: Seq<Seq<usize>>,
    rd: Seq<int>,
    pairs: Seq<(usize, usize)>,
    p: (usize, usize),
    cap: int,
)
    ensures
        merge_run(rt, rd, pairs.push(p), cap) == {
            let s = merge_run(rt, rd, pairs, cap);
            merge_step(s.0, s.1, p.0 as int, p.1 as int, cap)
        },
    decreases pairs.len(),
{
    reveal_with_fuel(merge_run, 3);
    if pairs.len() == 0 {
        assert(pairs.push(p).drop_first() =~= Seq::<(usize, usize)>::empty());
    } else {
        assert(pairs.push(p).drop_first() =~= pairs.drop_first().push(p));
        let s = merge_step(rt, rd, pairs[0].0 as int, pairs[0].1 as int, cap);
        lemma_merge_run_snoc(s.0, s.1, pairs.drop_first(), p, cap);
    }
}

/// The routes of the table, abstracted.
pub open spec fn table_view(rt: Seq<Vec<usize>>) -> Seq<Seq<usize>> {
    rt.map_values(|v: Vec<usize>| v@)
}

/// The demand table, abstracted.
pub open spec fn demand_view(rd: Seq<i64>) -> Seq<int> {
    rd.map_values(|x: i64| x as int)
}

/// A fresh copy of a route.
pub(crate) fn copy_route(v: &Vec<usize>) -> (r: Vec<usize>)
    ensures
        r@ == v@,
{
    let mut r: Vec<usize> = Vec::new();
    let mut k: usize = 0;
    while k < v.len()
        invariant
            0 <= k <= v@.len(),
            r@ == v@.take(k as int),
        decreases v@.len() - k,
    {
        r.push(v[k]);
        proof {
            assert(v@.take(k + 1) =~= v@.take(k as int).push(v@[k as int]));
        }
        k = k + 1;
    }
    proof {
        assert(v@.take(v@.len() as int) =~= v@);
    }
    r
}

/// The route, travelled backwards.
fn reversed(v: &Vec<usize>) -> (r: Vec<usize>)
    ensures
        r@ == v@.reverse(),
{
    let mut r: Vec<usize> = Vec::new();
    let mut k: usize = v.len();
    while k > 0
        invariant
            0 <= k <= v@.len(),
            r@.len() == v@.len() - k,
            forall|t: int| 0 <= t < r@.len() ==> #[trigger] r@[t] == v@[v@.len() - 1 - t],
        decreases k,
    {
        k = k - 1;
        r.push(v[k]);
    }
    proof {
        assert(r@ =~= v@.reverse());
    }
    r
}

/// Elements of a reversed route are the route's elements.
proof fn lemma_reverse_elements(r: Seq<usize>)
    ensures
        r.reverse().len() == r.len(),
        forall|x: usize| r.reverse().contains(x) <==> r.contains(x),
        r.no_duplicates() ==> r.reverse().no_duplicates(),
{
    assert forall|x: usize| r.reverse().contains(x) implies r.contains(x) by {
        let t = choose|t: int| 0 <= t < r.reverse().len() && r.reverse()[t] == x;
        assert(r[r.len() - 1 - t] == x);
    }
    assert forall|x: usize| r.contains(x) implies r.reverse().contains(x) by {
        let t = choose|t: int| 0 <= t < r.len() && r[t] == x;
        assert(r.reverse()[r.len() - 1 - t] == x);
    }
    if r.no_duplicates() {
        assert forall|a: int, b: int|
            0 <= a < r.reverse().len() && 0 <= b < r.reverse().len() && a != b implies r.reverse()[a]
            != r.reverse()[b] by {
            assert(r.reverse()[a] == r[r.len() - 1 - a]);
            assert(r.reverse()[b] == r[r.len() - 1 - b]);
        }
    }
}

/// One accepted merge keeps both tables well formed.
///
/// `rt0`/`rd0` are the tables before the merge and `rt2`/`rd2` after: the
/// four old endpoint slots cleared, the joined route installed under its two
/// new endpoints, and the summed demand recorded under the same keys.
#[verifier::rlimit(40)]
proof fn lemma_merge_step(
    rt0: Seq<Vec<usize>>,
    rd0: Seq<i64>,
    rt2: Seq<Vec<usize>>,
    rd2: Seq<i64>,
    dem: Seq<i32>,
    cap: int,
    n: int,
    i: int,
    j: int,
    m: Seq<usize>,
)
    requires
        table_wf(rt0, dem, cap, n),
        demands_ok(rt0, rd0, dem, n),
        n <= NODE_LIMIT,
        cap <= 0x7fff_ffff,
        1 <= i < n,
        1 <= j < n,
        live(rt0, i),
        live(rt0, j),
        rt0[i]@[0] != rt0[j]@[0],
        demand_sum(dem, rt0[i]@) + demand_sum(dem, rt0[j]@) <= cap,
        m == (if rt0[i]@[0] == i as usize {
            rt0[i]@.reverse()
        } else {
            rt0[i]@
        }) + (if rt0[j]@[rt0[j]@.len() - 1] == j as usize {
            rt0[j]@.reverse()
        } else {
            rt0[j]@
        }),
        rt2.len() == n,
        rd2.len() == n,
        rt2[m[0] as int]@ == m,
        rt2[m[m.len() - 1] as int]@ == m,
        rd2[m[0] as int] == demand_sum(dem, rt0[i]@) + demand_sum(dem, rt0[j]@),
        rd2[m[m.len() - 1] as int] == demand_sum(dem, rt0[i]@) + demand_sum(dem, rt0[j]@),
        forall|k: int|
            0 <= k < n && k != rt0[i]@[0] && k != rt0[i]@[rt0[i]@.len() - 1] && k != rt0[j]@[0]
                && k != rt0[j]@[rt0[j]@.len() - 1] && k != m[0] && k != m[m.len() - 1]
                ==> #[trigger] rt2[k] == rt0[k],
        forall|k: int|
            0 <= k < n && (k == rt0[i]@[0] || k == rt0[i]@[rt0[i]@.len() - 1] || k == rt0[j]@[0]
                || k == rt0[j]@[rt0[j]@.len() - 1]) && k != m[0] && k != m[m.len() - 1]
                ==> (#[trigger] rt2[k])@.len() == 0,
        forall|k: int|
            0 <= k < n && k != m[0] && k != m[m.len() - 1] ==> #[trigger] rd2[k] == rd0[k],
    ensures
        table_wf(rt2, dem, cap, n),
        demands_ok(rt2, rd2, dem, n),
{
    let lroute = rt0[i]@;
    let rroute = rt0[j]@;
    let ls = lroute[0] as int;
    let le = lroute[lroute.len() - 1] as int;
    let rs = rroute[0] as int;
    let re = rroute[rroute.len() - 1] as int;
    let lor = if lroute[0] == i as usize {
        lroute.reverse()
    } else {
        lroute
    };
    let ror = if rroute[rroute.len() - 1] == j as usize {
        rroute.reverse()
    } else {
        rroute
    };
    let s1 = m[0] as int;
    let e1 = m[m.len() - 1] as int;
    let md = demand_sum(dem, lroute) + demand_sum(dem, rroute);

    assert(route_ok(rt0, dem, cap, n, i));
    assert(route_ok(rt0, dem, cap, n, j));
    lemma_reverse_elements(lroute);
    lemma_reverse_elements(rroute);

    // The two routes are distinct owned routes, hence disjoint.
    assert(owner(rt0, ls));
    assert(owner(rt0, rs));
    assert(route_ok(rt0, dem, cap, n, ls));
    assert(route_ok(rt0, dem, cap, n, rs));
    assert(seqs_disjoint(lroute, rroute));

    // Elements of the joined route.
    assert forall|x: usize| m.contains(x) implies lroute.contains(x) || rroute.contains(x) by {
        let t = choose|t: int| 0 <= t < m.len() && m[t] == x;
        if t < lor.len() {
            assert(lor[t] == x);
        } else {
            assert(ror[t - lor.len()] == x);
        }
    }
    assert forall|x: usize| #![trigger m.contains(x)]
        lroute.contains(x) || rroute.contains(x) implies m.contains(x) by {
        if lroute.contains(x) {
            let t = choose|t: int| 0 <= t < lor.len() && lor[t] == x;
            assert(m[t] == x);
        } else {
            let t = choose|t: int| 0 <= t < ror.len() && ror[t] == x;
            assert(m[lor.len() + t] == x);
        }
    }
    assert(m.no_duplicates()) by {
        assert forall|a: int, b: int|
            0 <= a < lor.len() && 0 <= b < ror.len() implies lor[a] != ror[b] by {
            assert(lroute.contains(lor[a]));
            assert(rroute.contains(ror[b]));
        }
        vstd::seq_lib::lemma_no_dup_in_concat(lor, ror);
    }
    assert(in_range(m, n)) by {
        assert forall|t: int| 0 <= t < m.len() implies 1 <= #[trigger] m[t] < n by {
            assert(m.contains(m[t]));
        }
    }
    assert(demand_sum(dem, m) == md) by {
        lemma_demand_sum_reverse(dem, lroute);
        lemma_demand_sum_reverse(dem, rroute);
        lemma_demand_sum_concat(dem, lor, ror);
    }
    assert(m.len() == lroute.len() + rroute.len());
    assert(m.len() >= 2);
    assert(m[0] == lor[0] && m[m.len() - 1] == ror[ror.len() - 1]) by {
        assert(m[lor.len() + ror.len() - 1] == ror[ror.len() - 1]);
    }

    // The new endpoints are old endpoints of the joined routes.
    assert(s1 == ls || s1 == le) by {
        if lroute[0] == i as usize {
            assert(lor[0] == lroute[lroute.len() - 1]);
        }
    }
    assert(e1 == rs || e1 == re) by {
        if rroute[rroute.len() - 1] == j as usize {
            assert(ror[ror.len() - 1] == rroute[0]);
        }
    }
    assert(m.contains(m[0]) && m.contains(m[m.len() - 1]));
    assert(s1 != e1);
    assert(1 <= s1 < n && 1 <= e1 < n);

    // Cleared or rewritten slots all sit on the two joined routes.
    assert(lroute.contains(lroute[0]) && lroute.contains(lroute[lroute.len() - 1]));
    assert(rroute.contains(rroute[0]) && rroute.contains(rroute[rroute.len() - 1]));

    // A live slot elsewhere kept its route, whose nodes avoid both joined
    // routes entirely.
    assert forall|k: int|
        0 <= k < n && (#[trigger] rt2[k])@.len() > 0 && k != s1 && k != e1 implies rt2[k] == rt0[k]
            && seqs_disjoint(rt0[k]@, lroute) && seqs_disjoint(rt0[k]@, rroute) && route_ok(
            rt0,
            dem,
            cap,
            n,
            k,
        ) by {
        if k == ls || k == le || k == rs || k == re {
            assert(rt2[k]@.len() == 0);
        } else {
            assert(rt2[k] == rt0[k]);
            assert(route_ok(rt0, dem, cap, n, k));
            let r = rt0[k]@;
            assert(owner(rt0, r[0] as int));
            if r[0] as int == ls {
                assert(rt0[ls]@ == r && rt0[ls]@ == lroute);
                assert(k == ls || k == le);
            } else {
                assert(seqs_disjoint(rt0[r[0] as int]@, lroute));
            }
            if r[0] as int == rs {
                assert(rt0[rs]@ == r && rt0[rs]@ == rroute);
                assert(k == rs || k == re);
            } else {
                assert(seqs_disjoint(rt0[r[0] as int]@, rroute));
            }
        }
    }

    // Every live slot's route is still well kept.
    assert forall|k: int| 0 <= k < n && (#[trigger] rt2[k])@.len() > 0 implies route_ok(
        rt2,
        dem,
        cap,
        n,
        k,
    ) by {
        if k == s1 || k == e1 {
            assert(rt2[k]@ == m);
            assert(rt2[m[0] as int]@ == m && rt2[m[m.len() - 1] as int]@ == m);
        } else {
            let r = rt0[k]@;
            assert(rt2[k] == rt0[k] && route_ok(rt0, dem, cap, n, k));
            assert(r.contains(r[0]) && r.contains(r[r.len() - 1]));
            assert(rt2[r[0] as int] == rt0[r[0] as int]);
            assert(rt2[r[r.len() - 1] as int] == rt0[r[r.len() - 1] as int]);
        }
    }

    // Every customer is still on an owned route.
    assert forall|q: usize| 1 <= q < n implies #[trigger] table_covered(rt2, q) by {
        assert(table_covered(rt0, q));
        let k0 = choose|k0: int| #[trigger] owner(rt0, k0) && rt0[k0]@.contains(q);
        assert(owner(rt0, k0) && rt0[k0]@.contains(q));
        assert(owner(rt2, s1));
        if k0 == ls {
            assert(rt0[k0]@ == lroute);
            assert(lroute.contains(q));
            assert(m.contains(q));
            assert(table_covered(rt2, q));
        } else if k0 == rs {
            assert(rt0[k0]@ == rroute);
            assert(rroute.contains(q));
            assert(m.contains(q));
            assert(table_covered(rt2, q));
        } else {
            assert(seqs_disjoint(rt0[k0]@, lroute));
            assert(seqs_disjoint(rt0[k0]@, rroute));
            assert(rt0[k0]@.contains(k0 as usize));
            assert(k0 != le && k0 != re && k0 != s1 && k0 != e1);
            assert(rt2[k0] == rt0[k0]);
            assert(owner(rt2, k0));
            assert(table_covered(rt2, q));
        }
    }

    // Distinct owned routes still share no node.
    assert forall|k1: int, k2: int|
        #[trigger] owner(rt2, k1) && #[trigger] owner(rt2, k2) && k1 != k2 implies seqs_disjoint(
        rt2[k1]@,
        rt2[k2]@,
    ) by {
        assert forall|k: int| owner(rt2, k) && k != s1 && k != e1 implies owner(rt0, k)
            && rt2[k] == rt0[k] by {}
        if k1 == e1 || k2 == e1 {
            assert(rt2[e1]@ == m && m[0] == s1 as usize);
            assert(!owner(rt2, e1));
        } else if k1 == s1 {
            assert(owner(rt0, k2) && rt2[k2] == rt0[k2]);
            assert(seqs_disjoint(rt0[k2]@, lroute) && seqs_disjoint(rt0[k2]@, rroute));
            assert forall|x: usize| rt2[k1]@.contains(x) implies !rt2[k2]@.contains(x) by {}
        } else if k2 == s1 {
            assert(owner(rt0, k1) && rt2[k1] == rt0[k1]);
            assert(seqs_disjoint(rt0[k1]@, lroute) && seqs_disjoint(rt0[k1]@, rroute));
            assert forall|x: usize| rt2[k1]@.contains(x) implies !rt2[k2]@.contains(x) by {
                assert(!rt0[k1]@.contains(x) || !m.contains(x));
            }
        } else {
            assert(owner(rt0, k1) && owner(rt0, k2));
        }
    }

    // The demand table still matches.
    assert forall|k: int| 0 <= k < n && (#[trigger] rt2[k])@.len() > 0 implies rd2[k]
        == demand_sum(dem, rt2[k]@) && 0 <= rd2[k] <= 0x7fff_ffff by {
        if k == s1 || k == e1 {
            assert(rt2[k]@ == m);
            assert(rt0[ls]@.len() > 0 && rt0[rs]@.len() > 0);
            assert(rd0[ls] == demand_sum(dem, lroute) && 0 <= rd0[ls]);
            assert(rd0[rs] == demand_sum(dem, rroute) && 0 <= rd0[rs]);
        } else {
            assert(rt2[k] == rt0[k] && rd2[k] == rd0[k]);
        }
    }
}

/// Greedily merge routes in the given pair order.
///
/// Every customer starts as a singleton route. Each pair `(i, j)` is taken
/// in turn: when both nodes are live endpoints of two distinct routes whose
/// demands fit the capacity together, the routes are joined end to end,
/// reversing either as needed so that `i` closes the left route and `j`
/// opens the right one. Pairs whose nodes have become interior, or whose
/// routes coincide or would overflow the capacity, are passed over.
pub fn merge_routes(pairs: &Vec<(usize, usize)>, demands: &Vec<i32>, max_capacity: i32, n: usize)
    -> (rt: Vec<Vec<usize>>)
    requires
        1 <= n <= NODE_LIMIT,
        demands@.len() == n,
        demands@[0] == 0,
        forall|k: int| 0 <= k < n ==> 0 <= #[trigger] demands@[k],
        forall|t: int|
            0 <= t < pairs@.len() ==> 1 <= (#[trigger] pairs@[t]).0 < n && 1 <= pairs@[t].1 < n
                && pairs@[t].0 != pairs@[t].1,
    ensures
        table_wf(rt@, demands@, max_capacity as int, n as int),
        table_view(rt@) == merge_run(
            initial_table(n as int),
            initial_demand_table(demands@, n as int),
            pairs@,
            max_capacity as int,
        ).0,
{
    let mut rt: Vec<Vec<usize>> = Vec::new();
    let mut rd: Vec<i64> = Vec::new();
    rt.push(Vec::new());
    rd.push(0);
    let mut k: usize = 1;
    while k < n
        invariant
            1 <= k <= n,
            rt@.len() == k,
            rd@.len() == k,
            demands@.len() == n,
            rt@[0]@.len() == 0,
            rd@[0] == 0,
            forall|t: int| 1 <= t < k ==> (#[trigger] rt@[t])@ == seq![t as usize],
            forall|t: int| 1 <= t < k ==> #[trigger] rd@[t] == demands@[t] as i64,
        decreases n - k,
    {
        let mut single: Vec<usize> = Vec::new();
        single.push(k);
        rt.push(single);
        rd.push(demands[k] as i64);
        k = k + 1;
    }
    proof {
        assert forall|t: int| 0 <= t < n && (#[trigger] rt@[t])@.len() > 0 implies route_ok(
            rt@,
            demands@,
            max_capacity as int,
            n as int,
            t,
        ) by {
            assert(rt@[t]@ == seq![t as usize]);
            assert(rt@[t]@[0] == t as usize);
            assert(seq![t as usize].drop_first() =~= Seq::<usize>::empty());
        }
        assert forall|q: usize| 1 <= q < n implies #[trigger] table_covered(rt@, q) by {
            assert(rt@[q as int]@ == seq![q]);
            assert(owner(rt@, q as int));
            assert(rt@[q as int]@.contains(q));
        }
        assert forall|k1: int, k2: int|
            #[trigger] owner(rt@, k1) && #[trigger] owner(rt@, k2) && k1 != k2 implies seqs_disjoint(
            rt@[k1]@,
            rt@[k2]@,
        ) by {
            assert(rt@[k1]@ == seq![k1 as usize]);
            assert(rt@[k2]@ == seq![k2 as usize]);
        }
        assert forall|t: int| 0 <= t < n && (#[trigger] rt@[t])@.len() > 0 implies rd@[t]
            == demand_sum(demands@, rt@[t]@) && 0 <= rd@[t] <= 0x7fff_ffff by {
            reveal_with_fuel(demand_sum, 2);
            assert(rt@[t]@ == seq![t as usize]);
            assert(seq![t as usize].drop_first() =~= Seq::<usize>::empty());
            assert(demand_sum(demands@, rt@[t]@) == demands@[t] + demand_sum(
                demands@,
                seq![t as usize].drop_first(),
            ));
        }
        assert(table_wf(rt@, demands@, max_capacity as int, n as int));
        assert(demands_ok(rt@, rd@, demands@, n as int));
        assert(table_view(rt@) =~~= initial_table(n as int));
        assert(demand_view(rd@) =~= initial_demand_table(demands@, n as int));
        assert(pairs@.take(0int) =~= Seq::<(usize, usize)>::empty());
    }
    let mut t: usize = 0;
    while t < pairs.len()
        invariant
            0 <= t <= pairs@.len(),
            1 <= n <= NODE_LIMIT,
            demands@.len() == n,
            forall|q: int| 0 <= q < n ==> 0 <= #[trigger] demands@[q],
            forall|q: int|
                0 <= q < pairs@.len() ==> 1 <= (#[trigger] pairs@[q]).0 < n && 1 <= pairs@[q].1 < n
                    && pairs@[q].0 != pairs@[q].1,
            rt@.len() == n,
            rd@.len() == n,
            table_wf(rt@, demands@, max_capacity as int, n as int),
            demands_ok(rt@, rd@, demands@, n as int),
            table_view(rt@) == merge_run(
                initial_table(n as int),
                initial_demand_table(demands@, n as int),
                pairs@.take(t as int),
                max_capacity as int,
            ).0,
            demand_view(rd@) == merge_run(
                initial_table(n as int),
                initial_demand_table(demands@, n as int),
                pairs@.take(t as int),
                max_capacity as int,
            ).1,
        decreases pairs@.len() - t,
    {
        let p = pairs[t];
        let i = p.0;
        let j = p.1;
        let ghost rt0 = rt@;
        let ghost rd0 = rd@;
        let ghost stepped = merge_step(
            table_view(rt0),
            demand_view(rd0),
            i as int,
            j as int,
            max_capacity as int,
        );
        proof {
            assert(table_view(rt0)[i as int] == rt0[i as int]@);
            assert(table_view(rt0)[j as int] == rt0[j as int]@);
        }
        let li_len = rt[i].len();
        let lj_len = rt[j].len();
        if li_len > 0 && lj_len > 0 {
            proof {
                assert(route_ok(rt@, demands@, max_capacity as int, n as int, i as int));
                assert(route_ok(rt@, demands@, max_capacity as int, n as int, j as int));
            }
            let ls = rt[i][0];
            let le = rt[i][li_len - 1];
            let rs = rt[j][0];
            let re = rt[j][lj_len - 1];
            let merged_demand: i64 = rd[ls] + rd[rs];
            proof {
                assert(demand_view(rd0)[ls as int] == rd0[ls as int] as int);
                assert(demand_view(rd0)[rs as int] == rd0[rs as int] as int);
            }
            if ls != rs && merged_demand <= max_capacity as i64 {
                let left = copy_route(&rt[i]);
                let right = copy_route(&rt[j]);
                let empty1: Vec<usize> = Vec::new();
                let empty2: Vec<usize> = Vec::new();
                let empty3: Vec<usize> = Vec::new();
                let empty4: Vec<usize> = Vec::new();
                rt[ls] = empty1;
                rt[rs] = empty2;
                rt[le] = empty3;
                rt[re] = empty4;
                let oriented_left = if ls == i {
                    reversed(&left)
                } else {
                    left
                };
                let mut new_route = oriented_left;
                let mut right_part = if re == j {
                    reversed(&right)
                } else {
                    right
                };
                new_route.append(&mut right_part);
                let s1 = new_route[0];
                let e1 = new_route[new_route.len() - 1];
                proof {
                    assert(new_route@ == (if rt0[i as int]@[0] == i {
                        rt0[i as int]@.reverse()
                    } else {
                        rt0[i as int]@
                    }) + (if rt0[j as int]@[rt0[j as int]@.len() - 1] == j {
                        rt0[j as int]@.reverse()
                    } else {
                        rt0[j as int]@
                    }));
                    lemma_reverse_elements(rt0[i as int]@);
                    lemma_reverse_elements(rt0[j as int]@);
                    assert(in_range(new_route@, n as int)) by {
                        assert forall|q: int|
                            0 <= q < new_route@.len() implies 1 <= #[trigger] new_route@[q]
                            < n by {
                            let lor = if rt0[i as int]@[0] == i {
                                rt0[i as int]@.reverse()
                            } else {
                                rt0[i as int]@
                            };
                            if q < lor.len() {
                                assert(rt0[i as int]@.contains(lor[q]));
                            } else {
                                let ror = if rt0[j as int]@[rt0[j as int]@.len() - 1] == j {
                                    rt0[j as int]@.reverse()
                                } else {
                                    rt0[j as int]@
                                };
                                assert(rt0[j as int]@.contains(ror[q - lor.len()]));
                            }
                        }
                    }
                }
                let copy_for_start = copy_route(&new_route);
                rt[s1] = copy_for_start;
                rt[e1] = new_route;
                rd[s1] = merged_demand;
                rd[e1] = merged_demand;
                proof {
                    assert(merged_demand == demand_sum(demands@, rt0[i as int]@) + demand_sum(
                        demands@,
                        rt0[j as int]@,
                    ));
                    lemma_merge_step(
                        rt0,
                        rd0,
                        rt@,
                        rd@,
                        demands@,
                        max_capacity as int,
                        n as int,
                        i as int,
                        j as int,
                        rt@[s1 as int]@,
                    );
                    assert(stepped.0 =~= table_view(rt@));
                    assert(stepped.1 =~= demand_view(rd@));
                }
            } else {
                proof {
                    assert(stepped.0 == table_view(rt@) && stepped.1 == demand_view(rd@));
                }
            }
        } else {
            proof {
                assert(stepped.0 == table_view(rt@) && stepped.1 == demand_view(rd@));
            }
        }
        proof {
            assert(pairs@.take(t + 1) =~= pairs@.take(t as int).push(pairs@[t as int]));
            lemma_merge_run_snoc(
                initial_table(n as int),
                initial_demand_table(demands@, n as int),
                pairs@.take(t as int),
                pairs@[t as int],
                max_capacity as int,
            );
        }
        t = t + 1;
    }
    proof {
        assert(pairs@.take(pairs@.len() as int) =~= pairs@);
    }
    rt
}

} // verus!
