//! Scored node pairs and their processing order.
//!
//! A scored pair `(s, i, j)` carries the savings score of joining customers
//! `i` and `j`. Pairs are consumed in descending score order; equal scores
//! are broken by the pair itself, ascending, which is the order in which the
//! pairs were enumerated. That tie-breaking order is total, so the sorted
//! arrangement is unique and every run processes the pairs identically.

use vstd::prelude::*;
use vstd::relations::{sorted_by, total_ordering};
use vstd::seq_lib::lemma_sorted_unique;

verus! {

/// `a` is processed no later than `b`: higher score first, then the smaller
/// pair first.
pub open spec fn score_le(a: (i128, usize, usize), b: (i128, usize, usize)) -> bool {
    ||| a.0 > b.0
    ||| (a.0 == b.0 && a.1 < b.1)
    ||| (a.0 == b.0 && a.1 == b.1 && a.2 <= b.2)
}

/// [`score_le`] as a relation value.
pub open spec fn score_leq() -> spec_fn((i128, usize, usize), (i128, usize, usize)) -> bool {
    |a: (i128, usize, usize), b: (i128, usize, usize)| score_le(a, b)
}

/// The processing order is a total order.
pub proof fn lemma_score_leq_total()
    ensures
        total_ordering(score_leq()),
{
    let leq = score_leq();
    assert forall|x: (i128, usize, usize)| #[trigger] leq(x, x) by {}
    assert forall|x: (i128, usize, usize), y: (i128, usize, usize)|
        #[trigger] leq(x, y) && #[trigger] leq(y, x) implies x == y by {}
    assert forall|x: (i128, usize, usize), y: (i128, usize, usize), z: (i128, usize, usize)|
        #[trigger] leq(x, y) && #[trigger] leq(y, z) implies leq(x, z) by {}
    assert forall|x: (i128, usize, usize), y: (i128, usize, usize)|
        #[trigger] leq(x, y) || #[trigger] leq(y, x) by {}
}

/// Two lists holding the same scored pairs and both sorted by the processing
/// order are identical: the tie-breaking order pins the arrangement, so
/// construction is reproducible run after run.
pub proof fn lemma_sorted_scores_unique(x: Seq<(i128, usize, usize)>, y: Seq<(i128, usize, usize)>)
    requires
        x.to_multiset() == y.to_multiset(),
        sorted_by(x, score_leq()),
        sorted_by(y, score_leq()),
    ensures
        x == y,
{
    lemma_score_leq_total();
    lemma_sorted_unique(x, y, score_leq());
    assert(x =~= y);
}

/// `a` comes strictly before `b` in the processing order.
fn comes_before(a: (i128, usize, usize), b: (i128, usize, usize)) -> (r: bool)
    ensures
        r == (score_le(a, b) && a != b),
{
    if a.0 != b.0 {
        a.0 > b.0
    } else if a.1 != b.1 {
        a.1 < b.1
    } else {
        a.2 < b.2
    }
}

/// Exchanging two positions of a list does not change what it holds.
proof fn lemma_swap_multiset(s: Seq<(i128, usize, usize)>, i: int, j: int)
    requires
        0 <= i < j < s.len(),
    ensures
        s.update(i, s[j]).update(j, s[i]).to_multiset() =~= s.to_multiset(),
{
    broadcast use vstd::seq_lib::group_to_multiset_ensures;
    broadcast use vstd::seq_lib::to_multiset_update;
    broadcast use vstd::multiset::group_multiset_axioms;

    let s1 = s.update(i, s[j]);
    let s2 = s1.update(j, s[i]);
    assert(s.contains(s[i]));
    assert(s1[j] == s[j]);
    assert(s1.to_multiset() =~= s.to_multiset().insert(s[j]).remove(s[i]));
    assert(s1.contains(s1[j]));
    assert(s2.to_multiset() =~= s1.to_multiset().insert(s[i]).remove(s[j]));
}

/// Sort the scored pairs into processing order: descending by score, ties
/// broken by the pair enumeration order, ascending.
pub fn sort_scores(v: &mut Vec<(i128, usize, usize)>)
    ensures
        final(v)@.to_multiset() == old(v)@.to_multiset(),
        final(v)@.len() == old(v)@.len(),
        sorted_by(final(v)@, score_leq()),
        final(v)@ == old(v)@.sort_by(score_leq()),
{
    proof {
        lemma_score_leq_total();
    }
    let ghost orig = v@;
    let len = v.len();
    let mut idx: usize = 1;
    while idx < len
        invariant
            1 <= idx,
            len == v@.len() == orig.len(),
            v@.to_multiset() == orig.to_multiset(),
            forall|a: int, b: int|
                0 <= a < b < idx ==> score_le(#[trigger] v@[a], #[trigger] v@[b]),
        decreases len - idx,
    {
        let mut k: usize = idx;
        while k > 0 && comes_before(v[k], v[k - 1])
            invariant
                0 <= k <= idx < len,
                len == v@.len() == orig.len(),
                v@.to_multiset() == orig.to_multiset(),
                forall|a: int, b: int|
                    0 <= a < b <= idx && b != k ==> score_le(#[trigger] v@[a], #[trigger] v@[b]),
                forall|b: int| k < b <= idx ==> score_le(v@[k as int], #[trigger] v@[b]),
            decreases k,
        {
            let ghost before = v@;
            let x = v[k - 1];
            let y = v[k];
            v[k - 1] = y;
            v[k] = x;
            proof {
                lemma_swap_multiset(before, k - 1, k as int);
                assert(v@ =~= before.update(k - 1, before[k as int]).update(
                    k as int,
                    before[k - 1],
                ));
            }
            k = k - 1;
        }
        proof {
            assert forall|a: int, b: int| 0 <= a < b <= idx implies score_le(
                #[trigger] v@[a],
                #[trigger] v@[b],
            ) by {
                if b == k {
                    assert(k > 0);
                    assert(score_le(v@[k - 1], v@[k as int]));
                    if a < k - 1 {
                        assert(score_le(v@[a], v@[k - 1]));
                    }
                }
            }
        }
        idx = idx + 1;
    }
    proof {
        assert forall|a: int, b: int| 0 <= a < b < v@.len() implies #[trigger] score_leq()(
            v@[a],
            v@[b],
        ) by {
            assert(score_le(v@[a], v@[b]));
        }
        orig.lemma_sort_by_ensures(score_leq());
        lemma_sorted_unique(v@, orig.sort_by(score_leq()), score_leq());
        assert(v@ =~= orig.sort_by(score_leq()));
    }
}

/// The position of the first negatively scored pair, or the length where
/// every pair scores non-negative.
pub open spec fn first_negative(s: Seq<(i128, usize, usize)>) -> int
    decreases s.len(),
{
    if s.len() == 0 {
        0
    } else if s[0].0 < 0 {
        0
    } else {
        1 + first_negative(s.drop_first())
    }
}

/// What [`first_negative`] returns: the earliest index holding a negative
/// score, with everything before it non-negative.
pub proof fn lemma_first_negative_props(s: Seq<(i128, usize, usize)>)
    ensures
        0 <= first_negative(s) <= s.len(),
        forall|k: int| 0 <= k < first_negative(s) ==> #[trigger] s[k].0 >= 0,
        first_negative(s) < s.len() ==> s[first_negative(s)].0 < 0,
    decreases s.len(),
{
    if s.len() > 0 && s[0].0 >= 0 {
        lemma_first_negative_props(s.drop_first());
        assert forall|k: int| 0 <= k < first_negative(s) implies #[trigger] s[k].0 >= 0 by {
            if k > 0 {
                assert(s.drop_first()[k - 1].0 >= 0);
            }
        }
    }
}

/// Any index with everything non-negative before it and a negative score (or
/// the end) at it is [`first_negative`].
proof fn lemma_first_negative_char(s: Seq<(i128, usize, usize)>, c: int)
    requires
        0 <= c <= s.len(),
        forall|k: int| 0 <= k < c ==> #[trigger] s[k].0 >= 0,
        c < s.len() ==> s[c].0 < 0,
    ensures
        c == first_negative(s),
    decreases s.len(),
{
    if s.len() == 0 {
    } else if s[0].0 < 0 {
        assert(c == 0);
    } else {
        assert(c >= 1);
        lemma_first_negative_char(s.drop_first(), c - 1);
    }
}

/// The prefix of the sorted score list that merging consumes: everything
/// strictly before the first negatively scored pair. Processing stops
/// outright at the first negative score; it does not merely skip it, so a
/// pair standing after one is never considered at all.
pub fn cut_nonnegative(v: &Vec<(i128, usize, usize)>) -> (pref: Vec<(i128, usize, usize)>)
    ensures
        pref@ == v@.take(first_negative(v@)),
        forall|k: int| 0 <= k < pref@.len() ==> #[trigger] pref@[k].0 >= 0,
        pref@.len() < v@.len() ==> v@[pref@.len() as int].0 < 0,
{
    let mut k: usize = 0;
    while k < v.len() && v[k].0 >= 0
        invariant
            0 <= k <= v@.len(),
            forall|t: int| 0 <= t < k ==> #[trigger] v@[t].0 >= 0,
        decreases v@.len() - k,
    {
        k = k + 1;
    }
    proof {
        lemma_first_negative_char(v@, k as int);
        lemma_first_negative_props(v@);
    }
    let mut pref: Vec<(i128, usize, usize)> = Vec::new();
    let mut t: usize = 0;
    while t < k
        invariant
            0 <= t <= k <= v@.len(),
            k == first_negative(v@),
            forall|q: int| 0 <= q < k ==> #[trigger] v@[q].0 >= 0,
            pref@ == v@.take(t as int),
        decreases k - t,
    {
        pref.push(v[t]);
        proof {
            assert(v@.take(t + 1) =~= v@.take(t as int).push(v@[t as int]));
        }
        t = t + 1;
    }
    pref
}

/// Strip the scores, keeping the pairs in order.
pub fn pairs_of(v: &Vec<(i128, usize, usize)>) -> (pairs: Vec<(usize, usize)>)
    ensures
        pairs@.len() == v@.len(),
        forall|t: int|
            0 <= t < v@.len() ==> #[trigger] pairs@[t] == ((v@[t].1, v@[t].2)),
{
    let mut pairs: Vec<(usize, usize)> = Vec::new();
    let mut t: usize = 0;
    while t < v.len()
        invariant
            0 <= t <= v@.len(),
            pairs@.len() == t,
            forall|q: int| 0 <= q < t ==> #[trigger] pairs@[q] == ((v@[q].1, v@[q].2)),
        decreases v@.len() - t,
    {
        let e = v[t];
        pairs.push((e.1, e.2));
        t = t + 1;
    }
    pairs
}

} // verus!
