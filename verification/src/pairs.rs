//! Scored index pairs and the order they are ranked in.

use vstd::prelude::*;
use vstd::relations::{sorted_by, total_ordering};
use vstd::seq_lib::lemma_multiset_commutative;
use vstd::seq_lib::lemma_sorted_unique;

verus! {

/// One candidate pairing: an ordered index pair `(i, j)` with `i < j` into
/// the input user collection, plus its computed opposition score. These are
/// transient: they exist only inside one matching run.
#[derive(Debug, Clone, Copy)]
pub struct ScoredPair {
    pub i: usize,
    pub j: usize,
    pub score: i128,
}

/// The ranking of candidate pairs: higher score first, and among equal
/// scores the pair enumerated earlier (lower `i`, then lower `j`) first, so
/// ties resolve by input order and a run is reproducible. This is a total
/// order because distinct candidate pairs differ in `(i, j)`.
pub open spec fn pair_le(a: ScoredPair, b: ScoredPair) -> bool {
    ||| a.score > b.score
    ||| (a.score == b.score && a.i < b.i)
    ||| (a.score == b.score && a.i == b.i && a.j <= b.j)
}

/// [`pair_le`] as a relation value, in the shape vstd's sorting takes.
pub open spec fn pair_order() -> spec_fn(ScoredPair, ScoredPair) -> bool {
    |a: ScoredPair, b: ScoredPair| pair_le(a, b)
}

/// The pair ranking is a total ordering.
pub proof fn lemma_pair_order_total()
    ensures
        total_ordering(pair_order()),
{
    let leq = pair_order();
    assert forall|x: ScoredPair, y: ScoredPair| #[trigger] leq(x, y) && #[trigger] leq(y, x)
        implies x == y by {
        assert(x.score == y.score && x.i == y.i && x.j == y.j);
    }
}

/// Decides [`pair_le`] on two candidate pairs.
fn pair_le_exec(a: &ScoredPair, b: &ScoredPair) -> (r: bool)
    ensures
        r == pair_le(*a, *b),
{
    if a.score != b.score {
        a.score > b.score
    } else if a.i != b.i {
        a.i < b.i
    } else {
        a.j <= b.j
    }
}

/// The position `p` belongs at in the sorted vector `r`: the index of the
/// first element ranked strictly after `p`.
fn find_pos(r: &Vec<ScoredPair>, p: &ScoredPair) -> (idx: usize)
    ensures
        idx <= r@.len(),
        forall|m: int| 0 <= m < idx ==> pair_le(r@[m], *p),
        idx < r@.len() ==> !pair_le(r@[idx as int], *p),
{
    let mut idx: usize = 0;
    while idx < r.len()
        invariant
            idx <= r@.len(),
            forall|m: int| 0 <= m < idx ==> pair_le(r@[m], *p),
        decreases r@.len() - idx,
    {
        if !pair_le_exec(&r[idx], p) {
            return idx;
        }
        idx = idx + 1;
    }
    idx
}

/// Inserts `p` into the sorted vector `r`, keeping it sorted.
fn insert_pair(r: &mut Vec<ScoredPair>, p: ScoredPair)
    requires
        sorted_by(old(r)@, pair_order()),
    ensures
        sorted_by(final(r)@, pair_order()),
        final(r)@.to_multiset() == old(r)@.to_multiset().insert(p),
{
    let ghost before = r@;
    let idx = find_pos(r, &p);
    r.insert(idx, p);
    proof {
        let leq = pair_order();
        lemma_pair_order_total();
        before.insert_ensures(idx as int, p);
        assert forall|x: int, y: int| 0 <= x < y < r@.len() implies #[trigger] leq(r@[x], r@[y]) by {
            if y < idx {
                assert(leq(before[x], before[y]));
            } else if x > idx {
                assert(leq(before[x - 1], before[y - 1]));
            } else if x == idx && y > idx {
                // p is ranked no later than the element that was at idx,
                // and that element is ranked no later than the rest.
                assert(!pair_le(before[idx as int], p));
                assert(leq(p, before[idx as int]));
                if y > idx + 1 {
                    assert(leq(before[idx as int], before[y - 1]));
                }
            } else if x < idx && y == idx {
                assert(leq(before[x], p));
            } else {
                // x < idx < y: chain through p's position.
                assert(leq(before[x], p));
                assert(leq(p, before[idx as int]));
                if y > idx + 1 {
                    assert(leq(before[idx as int], before[y - 1]));
                }
            }
        }
        // Multiset: inserting one element adds exactly that element.
        let front = before.subrange(0, idx as int);
        let back = before.subrange(idx as int, before.len() as int);
        assert(r@ == front.push(p) + back);
        assert(before =~= front + back);
        lemma_multiset_commutative(front.push(p), back);
        lemma_multiset_commutative(front, back);
        front.to_multiset_ensures();
        assert(front.push(p).to_multiset() =~= front.to_multiset().insert(p));
        assert(r@.to_multiset() =~= before.to_multiset().insert(p));
    }
}

/// Sorts candidate pairs into ranking order: descending score, ties by the
/// original enumeration order. The result is exactly vstd's `sort_by` under
/// [`pair_order`], which pins the sorted sequence uniquely.
pub fn sort_pairs(v: &Vec<ScoredPair>) -> (r: Vec<ScoredPair>)
    ensures
        r@ == v@.sort_by(pair_order()),
{
    let mut r: Vec<ScoredPair> = Vec::new();
    let mut k: usize = 0;
    proof {
        assert(v@.take(0) =~= Seq::<ScoredPair>::empty());
    }
    while k < v.len()
        invariant
            k <= v@.len(),
            sorted_by(r@, pair_order()),
            r@.to_multiset() == v@.take(k as int).to_multiset(),
        decreases v@.len() - k,
    {
        let ghost prefix = v@.take(k as int);
        insert_pair(&mut r, v[k]);
        proof {
            let next = v@.take(k as int + 1);
            assert(next.drop_last() =~= prefix);
            assert(next.last() == v@[k as int]);
            next.to_multiset_ensures();
            assert(next =~= prefix.push(v@[k as int]));
            prefix.to_multiset_ensures();
            assert(prefix.push(v@[k as int]).to_multiset() =~= prefix.to_multiset().insert(
                v@[k as int],
            ));
        }
        k = k + 1;
    }
    proof {
        assert(v@.take(v@.len() as int) =~= v@);
        lemma_pair_order_total();
        v@.lemma_sort_by_ensures(pair_order());
        lemma_sorted_unique(r@, v@.sort_by(pair_order()), pair_order());
    }
    r
}

} // verus!
