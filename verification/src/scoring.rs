//! The pluggable scoring abstraction and a concrete scorer.

use vstd::prelude::*;
use crate::user::User;

verus! {

/// The scoring capability that a [`crate::GreedyMatcher`] is parameterized
/// over: a pure function from two users to an "opposition" score, higher
/// meaning more desirable to pair. An implementation states its mathematical
/// meaning in `score_spec` and proves that the executable `calculate_score`
/// computes exactly that, so every scorer is deterministic by contract.
pub trait ScoringStrategy: Sized {
    /// What the score of a pair of users is, as a mathematical integer.
    spec fn score_spec(&self, a: User, b: User) -> int;

    /// Computes the opposition score of two well-formed users.
    fn calculate_score(&self, a: &User, b: &User) -> (r: i128)
        requires
            a.wf(),
            b.wf(),
        ensures
            r as int == self.score_spec(*a, *b),
    ;
}

/// The absolute difference of two opinion positions.
pub open spec fn abs_diff(x: i32, y: i32) -> int {
    if x >= y {
        x - y
    } else {
        y - x
    }
}

/// Sum of the per-dimension absolute differences over the first `k`
/// dimensions of the two vectors.
pub open spec fn diff_sum(a: Seq<i32>, b: Seq<i32>, k: int) -> int
    decreases k,
{
    if k <= 0 {
        0
    } else {
        diff_sum(a, b, k - 1) + abs_diff(a[k - 1], b[k - 1])
    }
}

/// How many dimensions two vectors are compared over: the shorter length,
/// so that scoring stays total on mismatched vector lengths.
pub open spec fn shared_dims(a: Seq<i32>, b: Seq<i32>) -> int {
    if a.len() <= b.len() {
        a.len() as int
    } else {
        b.len() as int
    }
}

/// The simplest concrete scorer: the sum of per-dimension absolute
/// differences. Vectors of differing lengths are truncated to the shorter
/// length, which keeps the score total; the score is symmetric in its two
/// arguments.
#[derive(Debug, Clone, Copy)]
pub struct SimpleDifferenceScorer;

impl ScoringStrategy for SimpleDifferenceScorer {
    open spec fn score_spec(&self, a: User, b: User) -> int {
        diff_sum(a.opinions@, b.opinions@, shared_dims(a.opinions@, b.opinions@))
    }

    fn calculate_score(&self, a: &User, b: &User) -> (r: i128) {
        let dims: usize = if a.opinions.len() <= b.opinions.len() {
            a.opinions.len()
        } else {
            b.opinions.len()
        };
        let mut acc: i128 = 0;
        let mut k: usize = 0;
        while k < dims
            invariant
                dims == shared_dims(a.opinions@, b.opinions@),
                dims <= a.opinions@.len() && dims <= b.opinions@.len(),
                k <= dims,
                acc == diff_sum(a.opinions@, b.opinions@, k as int),
                0 <= acc <= k * 0xFFFF_FFFFi128,
            decreases dims - k,
        {
            let x = a.opinions[k];
            let y = b.opinions[k];
            let d: i128 = if x >= y {
                x as i128 - y as i128
            } else {
                y as i128 - x as i128
            };
            acc = acc + d;
            k = k + 1;
        }
        acc
    }
}

} // verus!
