//! The savings scorers: a desirability score for every unordered pair of
//! customers, enumerated as `(i, j)` with `i < j` in ascending order.

use vstd::prelude::*;
use crate::problem::{Challenge, NODE_LIMIT, challenge_wf, dist};

verus! {

/// The plain Clarke-Wright savings score of joining customers `i` and `j`:
/// the distance saved against serving each from the depot alone.
pub open spec fn cw_score(d: Seq<Vec<i32>>, i: int, j: int) -> int {
    dist(d, i, 0) + dist(d, 0, j) - dist(d, i, j)
}

/// The summed demand of nodes `0..k`.
pub open spec fn total_demand(dem: Seq<i32>, k: int) -> int
    decreases k,
{
    if k <= 0 {
        0
    } else {
        total_demand(dem, k - 1) + dem[k - 1]
    }
}

/// `|x - y|`.
pub open spec fn abs_diff(x: int, y: int) -> int {
    if x >= y {
        x - y
    } else {
        y - x
    }
}

/// The generalised savings score of the grid-search policy, as an integer.
///
/// With coefficients λ = `lt`/10, μ = `mt`/10 and ν = `vt`/10, the score of a
/// pair is `d(i,0) + d(0,j) − λ·d(i,j) + μ·|d(0,i) − d(0,j)| + ν·(dem(i) +
/// dem(j))/avg`, where `avg` is the mean demand over all `n` nodes. Every
/// coefficient is a whole number of tenths and `avg = S/n` for the positive
/// total demand `S`, so multiplying through by the positive constant `10·S`
/// turns each score into the integer below with the same ordering and the
/// same sign: comparisons and the negative-score cutoff over the scaled
/// scores are exactly those over the real scores.
pub open spec fn gen_score(
    d: Seq<Vec<i32>>,
    dem: Seq<i32>,
    n: int,
    lt: int,
    mt: int,
    vt: int,
    i: int,
    j: int,
) -> int {
    10 * total_demand(dem, n) * (dist(d, i, 0) + dist(d, 0, j)) - lt * total_demand(dem, n) * dist(
        d,
        i,
        j,
    ) + mt * total_demand(dem, n) * abs_diff(dist(d, 0, i), dist(d, 0, j)) + vt * n * (dem[i]
        + dem[j])
}

/// The customer pairs from position `(i, j)` of the enumeration onwards:
/// `j` runs over `i+1..n`, then `i` advances.
pub open spec fn pair_list_from(n: int, i: int, j: int) -> Seq<(usize, usize)>
    decreases n - i, n - j,
{
    if i < 1 || i >= n {
        Seq::empty()
    } else if j < n {
        seq![(i as usize, j as usize)] + pair_list_from(n, i, j + 1)
    } else {
        pair_list_from(n, i + 1, i + 2)
    }
}

/// Every customer pair `i < j` of `1..n`, in enumeration order.
pub open spec fn pair_list(n: int) -> Seq<(usize, usize)> {
    pair_list_from(n, 1, 2)
}

/// The Clarke-Wright score list: every pair in enumeration order with its
/// plain savings.
pub open spec fn cw_score_list(d: Seq<Vec<i32>>, n: int) -> Seq<(i128, usize, usize)> {
    pair_list(n).map_values(
        |p: (usize, usize)| (cw_score(d, p.0 as int, p.1 as int) as i128, p.0, p.1),
    )
}

/// The generalised score list under the given tenth-valued coefficients.
pub open spec fn gen_score_list(
    d: Seq<Vec<i32>>,
    dem: Seq<i32>,
    n: int,
    lt: int,
    mt: int,
    vt: int,
) -> Seq<(i128, usize, usize)> {
    pair_list(n).map_values(
        |p: (usize, usize)|
            (gen_score(d, dem, n, lt, mt, vt, p.0 as int, p.1 as int) as i128, p.0, p.1),
    )
}

/// The pair of customers `(a, b)` is scored somewhere in the list.
pub open spec fn has_pair(scores: Seq<(i128, usize, usize)>, a: usize, b: usize) -> bool {
    exists|t: int| 0 <= t < scores.len() && (#[trigger] scores[t]).1 == a && scores[t].2 == b
}

/// `(a1, b1)` is enumerated strictly before `(a2, b2)`.
pub open spec fn pair_below(a1: usize, b1: usize, a2: usize, b2: usize) -> bool {
    a1 < a2 || (a1 == a2 && b1 < b2)
}

/// The list scores every customer pair `i < j` of `1..n` exactly once, in
/// ascending enumeration order.
pub open spec fn score_list_complete(scores: Seq<(i128, usize, usize)>, n: int) -> bool {
    &&& forall|t: int|
        0 <= t < scores.len() ==> 1 <= (#[trigger] scores[t]).1 && scores[t].1 < scores[t].2 < n
    &&& forall|t1: int, t2: int|
        0 <= t1 < t2 < scores.len() ==> pair_below(
            (#[trigger] scores[t1]).1,
            scores[t1].2,
            (#[trigger] scores[t2]).1,
            scores[t2].2,
        )
    &&& forall|a: usize, b: usize| 1 <= a < b < n ==> #[trigger] has_pair(scores, a, b)
}

/// Total demands stay within `k` maximal `i32` values.
pub proof fn lemma_total_demand_bounds(dem: Seq<i32>, k: int)
    requires
        0 <= k <= dem.len(),
        forall|q: int| 0 <= q < dem.len() ==> 0 <= #[trigger] dem[q],
    ensures
        0 <= total_demand(dem, k) <= k * 0x7fff_ffff,
    decreases k,
{
    if k > 0 {
        lemma_total_demand_bounds(dem, k - 1);
    }
}

/// The summed demand of the whole instance.
pub fn compute_total_demand(demands: &Vec<i32>, n: usize) -> (s: i64)
    requires
        demands@.len() == n,
        n <= NODE_LIMIT,
        forall|q: int| 0 <= q < n ==> 0 <= #[trigger] demands@[q],
    ensures
        s == total_demand(demands@, n as int),
        0 <= s,
{
    let mut s: i64 = 0;
    let mut k: usize = 0;
    while k < n
        invariant
            0 <= k <= n <= NODE_LIMIT,
            demands@.len() == n,
            forall|q: int| 0 <= q < n ==> 0 <= #[trigger] demands@[q],
            s == total_demand(demands@, k as int),
            0 <= s <= k * 0x7fff_ffff,
        decreases n - k,
    {
        s = s + demands[k] as i64;
        k = k + 1;
    }
    s
}

/// Score every customer pair with the plain Clarke-Wright savings.
pub fn cw_scores(c: &Challenge) -> (scores: Vec<(i128, usize, usize)>)
    requires
        challenge_wf(*c),
    ensures
        score_list_complete(scores@, c.num_nodes as int),
        forall|t: int|
            0 <= t < scores@.len() ==> (#[trigger] scores@[t]).0 == cw_score(
                c.distance_matrix@,
                scores@[t].1 as int,
                scores@[t].2 as int,
            ),
        scores@ == cw_score_list(c.distance_matrix@, c.num_nodes as int),
{
    let n = c.num_nodes;
    let d = &c.distance_matrix;
    let mut scores: Vec<(i128, usize, usize)> = Vec::new();
    proof {
        assert(scores@.map_values(|e: (i128, usize, usize)| ((e.1, e.2))) =~= Seq::<(
            usize,
            usize,
        )>::empty());
    }
    let mut i: usize = 1;
    while i < n
        invariant
            1 <= i <= n || (i == 1 && n == 1),
            challenge_wf(*c),
            n == c.num_nodes,
            d == c.distance_matrix,
            forall|t: int|
                0 <= t < scores@.len() ==> 1 <= (#[trigger] scores@[t]).1 && scores@[t].1
                    < scores@[t].2 < n && scores@[t].1 < i,
            forall|t1: int, t2: int|
                0 <= t1 < t2 < scores@.len() ==> pair_below(
                    (#[trigger] scores@[t1]).1,
                    scores@[t1].2,
                    (#[trigger] scores@[t2]).1,
                    scores@[t2].2,
                ),
            forall|a: usize, b: usize| 1 <= a < b < n && a < i ==> #[trigger] has_pair(scores@, a, b),
            pair_list(n as int) == scores@.map_values(|e: (i128, usize, usize)| ((e.1, e.2)))
                + pair_list_from(n as int, i as int, i + 1),
            forall|t: int|
                0 <= t < scores@.len() ==> (#[trigger] scores@[t]).0 == cw_score(
                    d@,
                    scores@[t].1 as int,
                    scores@[t].2 as int,
                ),
        decreases n - i,
    {
        let mut j: usize = i + 1;
        while j < n
            invariant
                1 <= i < n,
                i + 1 <= j <= n,
                challenge_wf(*c),
                n == c.num_nodes,
                d == c.distance_matrix,
                forall|t: int|
                    0 <= t < scores@.len() ==> 1 <= (#[trigger] scores@[t]).1 && scores@[t].1
                        < scores@[t].2 < n && (scores@[t].1 < i || (scores@[t].1 == i && scores@[t].2
                        < j)),
                forall|t1: int, t2: int|
                    0 <= t1 < t2 < scores@.len() ==> pair_below(
                        (#[trigger] scores@[t1]).1,
                        scores@[t1].2,
                        (#[trigger] scores@[t2]).1,
                        scores@[t2].2,
                    ),
                forall|a: usize, b: usize|
                    1 <= a < b < n && a < i ==> #[trigger] has_pair(scores@, a, b),
                forall|b: usize| i < b < j ==> #[trigger] has_pair(scores@, i, b),
                pair_list(n as int) == scores@.map_values(|e: (i128, usize, usize)| ((e.1, e.2)))
                    + pair_list_from(n as int, i as int, j as int),
                forall|t: int|
                    0 <= t < scores@.len() ==> (#[trigger] scores@[t]).0 == cw_score(
                        d@,
                        scores@[t].1 as int,
                        scores@[t].2 as int,
                    ),
            decreases n - j,
        {
            let ghost prior = scores@;
            let s: i128 = d[i][0] as i128 + d[0][j] as i128 - d[i][j] as i128;
            scores.push((s, i, j));
            proof {
                assert(scores@[scores@.len() - 1] == (s, i, j));
                assert(pair_list_from(n as int, i as int, j as int) == seq![(i, j)]
                    + pair_list_from(n as int, i as int, j + 1));
                assert(scores@.map_values(|e: (i128, usize, usize)| ((e.1, e.2))) =~= prior.map_values(
                    |e: (i128, usize, usize)| ((e.1, e.2)),
                ).push((i, j)));
                assert(prior.map_values(|e: (i128, usize, usize)| ((e.1, e.2))) + (seq![(i, j)]
                    + pair_list_from(n as int, i as int, j + 1)) =~= scores@.map_values(
                    |e: (i128, usize, usize)| ((e.1, e.2)),
                ) + pair_list_from(n as int, i as int, j + 1));
                assert forall|a: usize, b: usize|
                    1 <= a < b < n && a < i implies #[trigger] has_pair(scores@, a, b) by {
                    assert(has_pair(prior, a, b));
                    let t = choose|t: int|
                        0 <= t < prior.len() && (#[trigger] prior[t]).1 == a && prior[t].2 == b;
                    assert((#[trigger] scores@[t]).1 == a && scores@[t].2 == b);
                }
                assert forall|b: usize| i < b < j + 1 implies #[trigger] has_pair(
                    scores@,
                    i,
                    b,
                ) by {
                    if b < j {
                        assert(has_pair(prior, i, b));
                        let t = choose|t: int|
                            0 <= t < prior.len() && (#[trigger] prior[t]).1 == i && prior[t].2 == b;
                        assert((#[trigger] scores@[t]).1 == i && scores@[t].2 == b);
                    } else {
                        assert((#[trigger] scores@[scores@.len() - 1]).1 == i && scores@[scores@.len()
                            - 1].2 == b);
                    }
                }
            }
            j = j + 1;
        }
        proof {
            assert(pair_list_from(n as int, i as int, n as int) == pair_list_from(
                n as int,
                i + 1,
                i + 2,
            ));
        }
        i = i + 1;
    }
    proof {
        assert(pair_list_from(n as int, i as int, i + 1) == Seq::<(usize, usize)>::empty());
        let done = scores@.map_values(|e: (i128, usize, usize)| ((e.1, e.2)));
        assert(pair_list(n as int) =~= done);
        assert forall|t: int| 0 <= t < scores@.len() implies scores@[t] == cw_score_list(
            d@,
            n as int,
        )[t] by {
            assert(done[t] == ((scores@[t].1, scores@[t].2)));
            assert(pair_list(n as int)[t] == done[t]);
            assert(scores@[t].0 as int == cw_score(d@, scores@[t].1 as int, scores@[t].2 as int));
        }
        assert(scores@ =~= cw_score_list(d@, n as int));
    }
    scores
}

/// Score every customer pair with the generalised savings under the given
/// tenth-valued coefficients.
pub fn gen_scores(c: &Challenge, lt: i32, mt: i32, vt: i32) -> (scores: Vec<(i128, usize, usize)>)
    requires
        challenge_wf(*c),
        0 <= lt <= 20,
        0 <= mt <= 20,
        0 <= vt <= 20,
    ensures
        score_list_complete(scores@, c.num_nodes as int),
        forall|t: int|
            0 <= t < scores@.len() ==> (#[trigger] scores@[t]).0 == gen_score(
                c.distance_matrix@,
                c.demands@,
                c.num_nodes as int,
                lt as int,
                mt as int,
                vt as int,
                scores@[t].1 as int,
                scores@[t].2 as int,
            ),
        scores@ == gen_score_list(
            c.distance_matrix@,
            c.demands@,
            c.num_nodes as int,
            lt as int,
            mt as int,
            vt as int,
        ),
{
    broadcast use vstd::arithmetic::mul::lemma_mul_nonnegative;
    broadcast use vstd::arithmetic::mul::lemma_mul_upper_bound;
    broadcast use vstd::arithmetic::mul::lemma_mul_inequality;

    let n = c.num_nodes;
    let d = &c.distance_matrix;
    let st: i64 = compute_total_demand(&c.demands, n);
    proof {
        lemma_total_demand_bounds(c.demands@, n as int);
        assert(st <= 0x2000_0000 * 0x7fff_ffffi64);
    }
    let mut scores: Vec<(i128, usize, usize)> = Vec::new();
    proof {
        assert(scores@.map_values(|e: (i128, usize, usize)| ((e.1, e.2))) =~= Seq::<(
            usize,
            usize,
        )>::empty());
    }
    let mut i: usize = 1;
    while i < n
        invariant
            1 <= i <= n || (i == 1 && n == 1),
            challenge_wf(*c),
            n == c.num_nodes,
            d == c.distance_matrix,
            st == total_demand(c.demands@, n as int),
            0 <= st <= 0x1000_0000_0000_0000,
            0 <= lt <= 20,
            0 <= mt <= 20,
            0 <= vt <= 20,
            forall|t: int|
                0 <= t < scores@.len() ==> 1 <= (#[trigger] scores@[t]).1 && scores@[t].1
                    < scores@[t].2 < n && scores@[t].1 < i,
            forall|t1: int, t2: int|
                0 <= t1 < t2 < scores@.len() ==> pair_below(
                    (#[trigger] scores@[t1]).1,
                    scores@[t1].2,
                    (#[trigger] scores@[t2]).1,
                    scores@[t2].2,
                ),
            forall|a: usize, b: usize| 1 <= a < b < n && a < i ==> #[trigger] has_pair(scores@, a, b),
            pair_list(n as int) == scores@.map_values(|e: (i128, usize, usize)| ((e.1, e.2)))
                + pair_list_from(n as int, i as int, i + 1),
            forall|t: int|
                0 <= t < scores@.len() ==> (#[trigger] scores@[t]).0 == gen_score(
                    d@,
                    c.demands@,
                    n as int,
                    lt as int,
                    mt as int,
                    vt as int,
                    scores@[t].1 as int,
                    scores@[t].2 as int,
                ),
        decreases n - i,
    {
        let mut j: usize = i + 1;
        while j < n
            invariant
                1 <= i < n,
                i + 1 <= j <= n,
                challenge_wf(*c),
                n == c.num_nodes,
                d == c.distance_matrix,
                st == total_demand(c.demands@, n as int),
                0 <= st <= 0x1000_0000_0000_0000,
                0 <= lt <= 20,
                0 <= mt <= 20,
                0 <= vt <= 20,
                forall|t: int|
                    0 <= t < scores@.len() ==> 1 <= (#[trigger] scores@[t]).1 && scores@[t].1
                        < scores@[t].2 < n && (scores@[t].1 < i || (scores@[t].1 == i && scores@[t].2
                        < j)),
                forall|t1: int, t2: int|
                    0 <= t1 < t2 < scores@.len() ==> pair_below(
                        (#[trigger] scores@[t1]).1,
                        scores@[t1].2,
                        (#[trigger] scores@[t2]).1,
                        scores@[t2].2,
                    ),
                forall|a: usize, b: usize|
                    1 <= a < b < n && a < i ==> #[trigger] has_pair(scores@, a, b),
                forall|b: usize| i < b < j ==> #[trigger] has_pair(scores@, i, b),
                pair_list(n as int) == scores@.map_values(|e: (i128, usize, usize)| ((e.1, e.2)))
                    + pair_list_from(n as int, i as int, j as int),
                forall|t: int|
                    0 <= t < scores@.len() ==> (#[trigger] scores@[t]).0 == gen_score(
                        d@,
                        c.demands@,
                        n as int,
                        lt as int,
                        mt as int,
                        vt as int,
                        scores@[t].1 as int,
                        scores@[t].2 as int,
                    ),
            decreases n - j,
        {
            broadcast use vstd::arithmetic::mul::lemma_mul_nonnegative;
            broadcast use vstd::arithmetic::mul::lemma_mul_upper_bound;

            let ghost prior = scores@;
            let sti: i128 = st as i128;
            let dio: i128 = d[i][0] as i128;
            let doj: i128 = d[0][j] as i128;
            let dij: i128 = d[i][j] as i128;
            let d0i: i128 = d[0][i] as i128;
            let absd: i128 = if d0i >= doj {
                d0i - doj
            } else {
                doj - d0i
            };
            let demi: i128 = c.demands[i] as i128;
            let demj: i128 = c.demands[j] as i128;
            proof {
                assert(dio == dist(d@, i as int, 0) && 0 <= dist(d@, i as int, 0));
                assert(doj == dist(d@, 0, j as int) && 0 <= dist(d@, 0, j as int));
                assert(dij == dist(d@, i as int, j as int) && 0 <= dist(d@, i as int, j as int));
                assert(d0i == dist(d@, 0, i as int) && 0 <= dist(d@, 0, i as int));
                assert(0 <= demi && 0 <= demj);
            }
            let s10: i128 = 10 * sti;
            proof {
                vstd::arithmetic::mul::lemma_mul_upper_bound(
                    s10 as int,
                    0xa000_0000_0000_0000,
                    (dio + doj) as int,
                    0x1_0000_0000,
                );
            }
            let t1: i128 = s10 * (dio + doj);
            proof {
                vstd::arithmetic::mul::lemma_mul_upper_bound(
                    lt as int,
                    20,
                    sti as int,
                    0x1000_0000_0000_0000,
                );
            }
            let lsti: i128 = (lt as i128) * sti;
            proof {
                vstd::arithmetic::mul::lemma_mul_upper_bound(
                    lsti as int,
                    0x1_4000_0000_0000_0000,
                    dij as int,
                    0x8000_0000,
                );
            }
            let t2: i128 = lsti * dij;
            proof {
                vstd::arithmetic::mul::lemma_mul_upper_bound(
                    mt as int,
                    20,
                    sti as int,
                    0x1000_0000_0000_0000,
                );
            }
            let msti: i128 = (mt as i128) * sti;
            proof {
                vstd::arithmetic::mul::lemma_mul_upper_bound(
                    msti as int,
                    0x1_4000_0000_0000_0000,
                    absd as int,
                    0x8000_0000,
                );
            }
            let t3: i128 = msti * absd;
            proof {
                vstd::arithmetic::mul::lemma_mul_upper_bound(vt as int, 20, n as int, 0x2000_0000);
            }
            let vn: i128 = (vt as i128) * (n as i128);
            proof {
                vstd::arithmetic::mul::lemma_mul_upper_bound(
                    vn as int,
                    0x2_8000_0000,
                    (demi + demj) as int,
                    0x1_0000_0000,
                );
            }
            let t4: i128 = vn * (demi + demj);
            let s: i128 = t1 - t2 + t3 + t4;
            scores.push((s, i, j));
            proof {
                assert(s == gen_score(
                    d@,
                    c.demands@,
                    n as int,
                    lt as int,
                    mt as int,
                    vt as int,
                    i as int,
                    j as int,
                ));
                assert(scores@[scores@.len() - 1] == (s, i, j));
                assert(pair_list_from(n as int, i as int, j as int) == seq![(i, j)]
                    + pair_list_from(n as int, i as int, j + 1));
                assert(scores@.map_values(|e: (i128, usize, usize)| ((e.1, e.2))) =~= prior.map_values(
                    |e: (i128, usize, usize)| ((e.1, e.2)),
                ).push((i, j)));
                assert(prior.map_values(|e: (i128, usize, usize)| ((e.1, e.2))) + (seq![(i, j)]
                    + pair_list_from(n as int, i as int, j + 1)) =~= scores@.map_values(
                    |e: (i128, usize, usize)| ((e.1, e.2)),
                ) + pair_list_from(n as int, i as int, j + 1));
                assert forall|a: usize, b: usize|
                    1 <= a < b < n && a < i implies #[trigger] has_pair(scores@, a, b) by {
                    assert(has_pair(prior, a, b));
                    let t = choose|t: int|
                        0 <= t < prior.len() && (#[trigger] prior[t]).1 == a && prior[t].2 == b;
                    assert((#[trigger] scores@[t]).1 == a && scores@[t].2 == b);
                }
                assert forall|b: usize| i < b < j + 1 implies #[trigger] has_pair(
                    scores@,
                    i,
                    b,
                ) by {
                    if b < j {
                        assert(has_pair(prior, i, b));
                        let t = choose|t: int|
                            0 <= t < prior.len() && (#[trigger] prior[t]).1 == i && prior[t].2 == b;
                        assert((#[trigger] scores@[t]).1 == i && scores@[t].2 == b);
                    } else {
                        assert((#[trigger] scores@[scores@.len() - 1]).1 == i && scores@[scores@.len()
                            - 1].2 == b);
                    }
                }
            }
            j = j + 1;
        }
        proof {
            assert(pair_list_from(n as int, i as int, n as int) == pair_list_from(
                n as int,
                i + 1,
                i + 2,
            ));
        }
        i = i + 1;
    }
    proof {
        assert(pair_list_from(n as int, i as int, i + 1) == Seq::<(usize, usize)>::empty());
        let done = scores@.map_values(|e: (i128, usize, usize)| ((e.1, e.2)));
        assert(pair_list(n as int) =~= done);
        let glist = gen_score_list(d@, c.demands@, n as int, lt as int, mt as int, vt as int);
        assert forall|t: int| 0 <= t < scores@.len() implies scores@[t] == glist[t] by {
            assert(done[t] == ((scores@[t].1, scores@[t].2)));
            assert(pair_list(n as int)[t] == done[t]);
            assert(scores@[t].0 as int == gen_score(
                d@,
                c.demands@,
                n as int,
                lt as int,
                mt as int,
                vt as int,
                scores@[t].1 as int,
                scores@[t].2 as int,
            ));
        }
        assert(scores@ =~= glist);
    }
    scores
}

} // verus!
