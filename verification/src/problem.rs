//! The problem instance and solution types, and their well-formedness.

use vstd::prelude::*;

verus! {

/// Upper bound on the number of nodes an instance may declare.
///
/// The bound is a machine limit, not a rule of the problem: it leaves enough
/// headroom that every distance sum fits in `i64` and every scaled savings
/// score fits in `i128`.
pub const NODE_LIMIT: usize = 0x2000_0000;

/// A CVRP instance. Node `0` is the depot.
pub struct Challenge {
    /// Square matrix of pairwise distances, symmetric with a zero diagonal.
    pub distance_matrix: Vec<Vec<i32>>,
    /// Per-node demand; the depot's demand is zero.
    pub demands: Vec<i32>,
    /// The capacity of the single vehicle, shared by every route.
    pub max_capacity: i32,
    /// Number of nodes, the depot included.
    pub num_nodes: usize,
}

/// A solved instance: routes, each beginning and ending at the depot.
pub struct Solution {
    pub routes: Vec<Vec<usize>>,
}

/// The distance from node `a` to node `b` in matrix `d`.
pub open spec fn dist(d: Seq<Vec<i32>>, a: int, b: int) -> int {
    d[a]@[b] as int
}

/// The matrix is square with non-negative, symmetric entries and a zero diagonal.
pub open spec fn matrix_wf(d: Seq<Vec<i32>>, n: int) -> bool {
    &&& d.len() == n
    &&& forall|i: int| 0 <= i < n ==> (#[trigger] d[i]@).len() == n
    &&& forall|i: int, j: int| 0 <= i < n && 0 <= j < n ==> 0 <= #[trigger] dist(d, i, j)
    &&& forall|i: int, j: int| 0 <= i < n && 0 <= j < n ==> #[trigger] dist(d, i, j) == dist(d, j, i)
    &&& forall|i: int| 0 <= i < n ==> #[trigger] dist(d, i, i) == 0
}

/// A well-formed instance: at least the depot exists, the matrix and the
/// demand vector agree with `num_nodes`, demands are non-negative and the
/// depot demands nothing.
pub open spec fn challenge_wf(c: Challenge) -> bool {
    &&& 1 <= c.num_nodes <= NODE_LIMIT
    &&& matrix_wf(c.distance_matrix@, c.num_nodes as int)
    &&& c.demands@.len() == c.num_nodes
    &&& c.demands@[0] == 0
    &&& forall|k: int| 0 <= k < c.num_nodes ==> 0 <= #[trigger] c.demands@[k]
}

} // verus!
