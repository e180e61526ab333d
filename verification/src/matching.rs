//! The greedy matching engine.
//!
//! [`GreedyMatcher::find_matches`] scores every unordered pair of users,
//! ranks the pairs by descending score with ties resolved by enumeration
//! order, and walks the ranking once, committing each pair whose members are
//! both still unmatched. Its contract pins the output to the spec-level
//! pipeline [`matches_spec`], so a run is a pure function of the scorer and
//! the input sequence.

use vstd::prelude::*;
use vstd::pervasive::VecAdditionalExecFns;
use vstd::set_lib::{lemma_int_range, lemma_len_subset, set_int_range};
use crate::pairs::{ScoredPair, pair_order, sort_pairs};
use crate::scoring::ScoringStrategy;
use crate::user::User;

verus! {

/// One committed pairing: the two user identities and the score that paired
/// them. Created only by the matcher; a user id appears in at most one match
/// per run.
#[derive(Debug, Clone, PartialEq)]
pub struct Match {
    pub user_a: String,
    pub user_b: String,
    pub score: i128,
}

/// The mathematical content of a [`Match`]: the two identities as character
/// sequences, plus the score.
pub struct MatchView {
    pub user_a: Seq<char>,
    pub user_b: Seq<char>,
    pub score: i128,
}

impl View for Match {
    type V = MatchView;

    open spec fn view(&self) -> MatchView {
        MatchView { user_a: self.user_a@, user_b: self.user_b@, score: self.score }
    }
}

impl Match {
    /// Builds a match from two identities and their score.
    pub fn new(user_a: String, user_b: String, score: i128) -> (r: Match)
        ensures
            r@.user_a == user_a@,
            r@.user_b == user_b@,
            r@.score == score,
    {
        Match { user_a, user_b, score }
    }
}

/// The views of a sequence of matches.
pub open spec fn match_views(ms: Seq<Match>) -> Seq<MatchView> {
    ms.map_values(|m: Match| m@)
}

/// A well-formed input collection: every user carries a non-empty opinion
/// vector, identities are pairwise distinct, and the collection is small
/// enough to index.
pub open spec fn wf_users(users: Seq<User>) -> bool {
    &&& users.len() <= usize::MAX
    &&& forall|k: int| 0 <= k < users.len() ==> (#[trigger] users[k]).wf()
    &&& forall|k: int, l: int|
        #![trigger users[k], users[l]]
        0 <= k < l < users.len() ==> users[k].id@ != users[l].id@
}

/// Candidate pairs that index into a collection of `n` users: `i < j < n`.
pub open spec fn wf_pairs(pairs: Seq<ScoredPair>, n: int) -> bool {
    forall|k: int|
        0 <= k < pairs.len() ==> (#[trigger] pairs[k]).i < pairs[k].j && pairs[k].j < n
}

/// The candidate pair `(i, j)` with its score under `scorer`.
pub open spec fn pair_for<S: ScoringStrategy>(
    scorer: S,
    users: Seq<User>,
    i: int,
    j: int,
) -> ScoredPair {
    ScoredPair {
        i: i as usize,
        j: j as usize,
        score: scorer.score_spec(users[i], users[j]) as i128,
    }
}

/// The candidate pairs `(i, k)` for `i < k < j`, in ascending `k` order.
pub open spec fn row_pairs<S: ScoringStrategy>(
    scorer: S,
    users: Seq<User>,
    i: int,
    j: int,
) -> Seq<ScoredPair>
    decreases j - i,
{
    if j <= i + 1 {
        Seq::empty()
    } else {
        row_pairs(scorer, users, i, j - 1).push(pair_for(scorer, users, i, j - 1))
    }
}

/// All candidate pairs whose first index is below `i`, in enumeration order:
/// `(0,1), (0,2), ..., (1,2), ...`.
pub open spec fn pairs_below<S: ScoringStrategy>(
    scorer: S,
    users: Seq<User>,
    i: int,
) -> Seq<ScoredPair>
    decreases i,
{
    if i <= 0 {
        Seq::empty()
    } else {
        pairs_below(scorer, users, i - 1) + row_pairs(scorer, users, i - 1, users.len() as int)
    }
}

/// Every unordered pair of distinct indices exactly once, in enumeration
/// order, each with its score.
pub open spec fn all_pairs<S: ScoringStrategy>(scorer: S, users: Seq<User>) -> Seq<ScoredPair> {
    pairs_below(scorer, users, users.len() as int)
}

/// The indices a sequence of already-matched flags marks as taken.
pub open spec fn taken_set(flags: Seq<bool>) -> Set<int> {
    Set::new(|x: int| 0 <= x < flags.len() && flags[x])
}

/// The greedy walk: commits each candidate pair whose two indices are both
/// still unmatched, in the order the pairs are given, and returns the
/// committed matches in that order.
pub open spec fn select_from(
    users: Seq<User>,
    pairs: Seq<ScoredPair>,
    matched: Set<int>,
) -> Seq<MatchView>
    decreases pairs.len(),
{
    if pairs.len() == 0 {
        Seq::empty()
    } else {
        let p = pairs[0];
        let rest = pairs.drop_first();
        if !matched.contains(p.i as int) && !matched.contains(p.j as int) {
            seq![
                MatchView {
                    user_a: users[p.i as int].id@,
                    user_b: users[p.j as int].id@,
                    score: p.score,
                },
            ] + select_from(users, rest, matched.insert(p.i as int).insert(p.j as int))
        } else {
            select_from(users, rest, matched)
        }
    }
}

/// What one matching run returns: the greedy walk over the ranked candidate
/// pairs, starting with nobody matched.
pub open spec fn matches_spec<S: ScoringStrategy>(scorer: S, users: Seq<User>) -> Seq<MatchView> {
    select_from(users, all_pairs(scorer, users).sort_by(pair_order()), Set::empty())
}

/// A greedy matching algorithm that pairs users with maximum opposition.
///
/// The matcher is generic over the scoring strategy: any type implementing
/// [`ScoringStrategy`] can be plugged in at construction time, and the
/// strategy cannot be swapped afterward.
pub struct GreedyMatcher<S: ScoringStrategy> {
    /// The scoring strategy used to calculate opposition between users.
    pub scorer: S,
}

impl<S: ScoringStrategy> GreedyMatcher<S> {
    /// Creates a new greedy matcher with the given scoring strategy.
    pub fn new(scorer: S) -> (r: Self)
        ensures
            r.scorer == scorer,
    {
        GreedyMatcher { scorer }
    }

    /// Scores every unordered pair of distinct users, in enumeration order.
    fn calculate_all_pairs(&self, users: &Vec<User>) -> (pairs: Vec<ScoredPair>)
        requires
            wf_users(users@),
        ensures
            pairs@ == all_pairs(self.scorer, users@),
    {
        let n = users.len();
        let mut pairs: Vec<ScoredPair> = Vec::new();
        let mut i: usize = 0;
        while i < n
            invariant
                wf_users(users@),
                n == users@.len(),
                i <= n,
                pairs@ == pairs_below(self.scorer, users@, i as int),
            decreases n - i,
        {
            let mut j: usize = i + 1;
            while j < n
                invariant
                    wf_users(users@),
                    n == users@.len(),
                    i < n,
                    i + 1 <= j <= n,
                    pairs@ == pairs_below(self.scorer, users@, i as int) + row_pairs(
                        self.scorer,
                        users@,
                        i as int,
                        j as int,
                    ),
                decreases n - j,
            {
                let score = self.scorer.calculate_score(&users[i], &users[j]);
                let p = ScoredPair { i, j, score };
                pairs.push(p);
                proof {
                    assert(p == pair_for(self.scorer, users@, i as int, j as int));
                    assert(row_pairs(self.scorer, users@, i as int, j as int + 1) == row_pairs(
                        self.scorer,
                        users@,
                        i as int,
                        j as int,
                    ).push(p));
                    assert(pairs@ == pairs_below(self.scorer, users@, i as int) + row_pairs(
                        self.scorer,
                        users@,
                        i as int,
                        j as int + 1,
                    ));
                }
                j = j + 1;
            }
            proof {
                assert(pairs_below(self.scorer, users@, i as int + 1) == pairs_below(
                    self.scorer,
                    users@,
                    i as int,
                ) + row_pairs(self.scorer, users@, i as int, n as int));
            }
            i = i + 1;
        }
        pairs
    }

    /// Walks the ranked candidate pairs once, committing each pair whose
    /// members are both still unmatched.
    fn greedy_select(&self, users: &Vec<User>, pairs: &Vec<ScoredPair>) -> (r: Vec<Match>)
        requires
            wf_pairs(pairs@, users@.len() as int),
        ensures
            match_views(r@) == select_from(users@, pairs@, Set::empty()),
    {
        let n = users.len();
        let mut matched: Vec<bool> = Vec::new();
        let mut t: usize = 0;
        while t < n
            invariant
                t <= n,
                matched@.len() == t,
                forall|x: int| 0 <= x < t ==> !matched@[x],
            decreases n - t,
        {
            matched.push(false);
            t = t + 1;
        }
        let mut result: Vec<Match> = Vec::new();
        let mut k: usize = 0;
        proof {
            assert(taken_set(matched@) =~= Set::<int>::empty());
            assert(pairs@.skip(0) =~= pairs@);
            assert(match_views(result@) =~= Seq::<MatchView>::empty());
            assert(match_views(result@) + select_from(users@, pairs@, taken_set(matched@))
                =~= select_from(users@, pairs@, taken_set(matched@)));
        }
        while k < pairs.len()
            invariant
                wf_pairs(pairs@, users@.len() as int),
                n == users@.len(),
                matched@.len() == n,
                k <= pairs@.len(),
                select_from(users@, pairs@, Set::empty()) == match_views(result@) + select_from(
                    users@,
                    pairs@.skip(k as int),
                    taken_set(matched@),
                ),
            decreases pairs@.len() - k,
        {
            let p = pairs[k];
            let ghost tail = pairs@.skip(k as int);
            proof {
                assert(tail[0] == pairs@[k as int]);
                assert(tail.drop_first() =~= pairs@.skip(k as int + 1));
            }
            if !matched[p.i] && !matched[p.j] {
                let ghost taken0 = taken_set(matched@);
                let ghost views0 = match_views(result@);
                let m = Match {
                    user_a: users[p.i].id.clone(),
                    user_b: users[p.j].id.clone(),
                    score: p.score,
                };
                result.push(m);
                matched.set(p.i, true);
                matched.set(p.j, true);
                proof {
                    assert(taken_set(matched@) =~= taken0.insert(p.i as int).insert(p.j as int));
                    assert(match_views(result@) =~= views0.push(m@));
                    let mv = MatchView {
                        user_a: users@[p.i as int].id@,
                        user_b: users@[p.j as int].id@,
                        score: p.score,
                    };
                    assert(m@ == mv);
                    assert(select_from(users@, tail, taken0) == seq![mv] + select_from(
                        users@,
                        tail.drop_first(),
                        taken0.insert(p.i as int).insert(p.j as int),
                    ));
                    assert(views0 + (seq![mv] + select_from(
                        users@,
                        pairs@.skip(k as int + 1),
                        taken_set(matched@),
                    )) =~= views0.push(mv) + select_from(
                        users@,
                        pairs@.skip(k as int + 1),
                        taken_set(matched@),
                    ));
                }
            } else {
                proof {
                    assert(select_from(users@, tail, taken_set(matched@)) == select_from(
                        users@,
                        tail.drop_first(),
                        taken_set(matched@),
                    ));
                }
            }
            k = k + 1;
        }
        proof {
            assert(pairs@.skip(pairs@.len() as int) =~= Seq::<ScoredPair>::empty());
            assert(match_views(result@) + Seq::<MatchView>::empty() =~= match_views(result@));
        }
        result
    }

    /// Finds matches for all users using the greedy algorithm.
    ///
    /// Scores all `n * (n - 1) / 2` unordered pairs, ranks them by
    /// descending score (ties by enumeration order), and greedily commits
    /// non-conflicting pairs. With fewer than two users the result is empty;
    /// with an odd count exactly one user stays unmatched.
    pub fn find_matches(&self, users: &Vec<User>) -> (r: Vec<Match>)
        requires
            wf_users(users@),
        ensures
            match_views(r@) == matches_spec(self.scorer, users@),
            r@.len() == users@.len() / 2,
            users@.len() < 2 ==> r@.len() == 0,
            distinct_ids(match_views(r@)),
    {
        proof {
            lemma_matches_count(self.scorer, users@);
            lemma_matches_user_disjoint(self.scorer, users@);
        }
        if users.len() < 2 {
            let r: Vec<Match> = Vec::new();
            proof {
                lemma_short_input_empty(self.scorer, users@);
                assert(match_views(r@) =~= Seq::<MatchView>::empty());
            }
            return r;
        }
        let pairs = self.calculate_all_pairs(users);
        let ranked = sort_pairs(&pairs);
        proof {
            lemma_all_pairs_wf(self.scorer, users@);
            crate::pairs::lemma_pair_order_total();
            pairs@.lemma_sort_by_ensures(pair_order());
            lemma_wf_pairs_permutation(pairs@, ranked@, users@.len() as int);
        }
        let r = self.greedy_select(users, &ranked);
        proof {
            assert(r@.len() == match_views(r@).len());
        }
        r
    }
}

/// With fewer than two users there are no candidate pairs, so the matching
/// pipeline returns the empty sequence.
proof fn lemma_short_input_empty<S: ScoringStrategy>(scorer: S, users: Seq<User>)
    requires
        users.len() < 2,
    ensures
        matches_spec(scorer, users) =~= Seq::<MatchView>::empty(),
{
    let n = users.len() as int;
    assert(pairs_below(scorer, users, 0) =~= Seq::<ScoredPair>::empty());
    if n == 1 {
        assert(row_pairs(scorer, users, 0, 1) =~= Seq::<ScoredPair>::empty());
        assert(pairs_below(scorer, users, 1) == pairs_below(scorer, users, 0) + row_pairs(
            scorer,
            users,
            0,
            1,
        ));
        assert(pairs_below(scorer, users, 1) =~= Seq::<ScoredPair>::empty());
    }
    assert(all_pairs(scorer, users) =~= Seq::<ScoredPair>::empty());
    crate::pairs::lemma_pair_order_total();
    all_pairs(scorer, users).lemma_sort_by_ensures(pair_order());
    let sorted = all_pairs(scorer, users).sort_by(pair_order());
    sorted.to_multiset_ensures();
    all_pairs(scorer, users).to_multiset_ensures();
    assert(sorted.len() == 0);
}

/// Every pair in a row of the enumeration indexes `i` then something in
/// `(i, j)`, so rows are well-formed candidate pairs.
proof fn lemma_row_pairs_wf<S: ScoringStrategy>(scorer: S, users: Seq<User>, i: int, j: int)
    requires
        0 <= i,
        i + 1 <= j <= users.len() <= usize::MAX,
    ensures
        forall|k: int|
            0 <= k < row_pairs(scorer, users, i, j).len() ==> (#[trigger] row_pairs(
                scorer,
                users,
                i,
                j,
            )[k]).i == i && i < row_pairs(scorer, users, i, j)[k].j < j,
    decreases j - i,
{
    if j <= i + 1 {
    } else {
        lemma_row_pairs_wf(scorer, users, i, j - 1);
        let row = row_pairs(scorer, users, i, j);
        let prev = row_pairs(scorer, users, i, j - 1);
        assert forall|k: int| 0 <= k < row.len() implies (#[trigger] row[k]).i == i && i
            < row[k].j < j by {
            if k < prev.len() {
                assert(row[k] == prev[k]);
            } else {
                assert(row[k] == pair_for(scorer, users, i, j - 1));
            }
        }
    }
}

/// The whole enumeration is well-formed: each pair has `i < j < n`.
proof fn lemma_pairs_below_wf<S: ScoringStrategy>(scorer: S, users: Seq<User>, i: int)
    requires
        0 <= i <= users.len() <= usize::MAX,
    ensures
        wf_pairs(pairs_below(scorer, users, i), users.len() as int),
    decreases i,
{
    if i <= 0 {
    } else {
        lemma_pairs_below_wf(scorer, users, i - 1);
        lemma_row_pairs_wf(scorer, users, i - 1, users.len() as int);
        let below = pairs_below(scorer, users, i);
        let prev = pairs_below(scorer, users, i - 1);
        let row = row_pairs(scorer, users, i - 1, users.len() as int);
        assert forall|k: int| 0 <= k < below.len() implies (#[trigger] below[k]).i < below[k].j
            && below[k].j < users.len() by {
            if k < prev.len() {
                assert(below[k] == prev[k]);
            } else {
                assert(below[k] == row[k - prev.len()]);
            }
        }
    }
}

/// Well-formedness of the enumeration, at the top level.
proof fn lemma_all_pairs_wf<S: ScoringStrategy>(scorer: S, users: Seq<User>)
    requires
        wf_users(users),
    ensures
        wf_pairs(all_pairs(scorer, users), users.len() as int),
{
    lemma_pairs_below_wf(scorer, users, users.len() as int);
}

/// Whether the sequence holds a candidate pair over the indices `(a, b)`.
spec fn pair_in(pairs: Seq<ScoredPair>, a: int, b: int) -> bool {
    exists|k: int| 0 <= k < pairs.len() && (#[trigger] pairs[k]).i == a && pairs[k].j == b
}

/// Whether `pairs` still holds a candidate for every two unmatched indices.
spec fn covers_unmatched(pairs: Seq<ScoredPair>, n: int, matched: Set<int>) -> bool {
    forall|a: int, b: int|
        0 <= a < b < n && !matched.contains(a) && !matched.contains(b) ==> #[trigger] pair_in(
            pairs,
            a,
            b,
        )
}

/// The indices in `[0, n)` not yet matched.
spec fn unmatched_of(n: int, matched: Set<int>) -> Set<int> {
    set_int_range(0, n).difference(matched)
}

/// The row `(i, i+1) .. (i, j-1)` holds the candidate `(i, b)` for each
/// `i < b < j`.
proof fn lemma_row_pairs_in<S: ScoringStrategy>(scorer: S, users: Seq<User>, i: int, j: int, b: int)
    requires
        0 <= i < b < j <= users.len() <= usize::MAX,
    ensures
        pair_in(row_pairs(scorer, users, i, j), i, b),
    decreases j - i,
{
    let row = row_pairs(scorer, users, i, j);
    let prev = row_pairs(scorer, users, i, j - 1);
    if b == j - 1 {
        assert(row[prev.len() as int] == pair_for(scorer, users, i, j - 1));
    } else {
        lemma_row_pairs_in(scorer, users, i, j - 1, b);
        let k = choose|k: int| 0 <= k < prev.len() && (#[trigger] prev[k]).i == i && prev[k].j == b;
        assert(row[k] == prev[k]);
    }
}

/// The enumeration up to `i` holds the candidate `(a, b)` for each `a < i`.
proof fn lemma_pairs_below_in<S: ScoringStrategy>(
    scorer: S,
    users: Seq<User>,
    i: int,
    a: int,
    b: int,
)
    requires
        0 <= a < b < users.len() <= usize::MAX,
        a < i <= users.len(),
    ensures
        pair_in(pairs_below(scorer, users, i), a, b),
    decreases i,
{
    let below = pairs_below(scorer, users, i);
    let prev = pairs_below(scorer, users, i - 1);
    let row = row_pairs(scorer, users, i - 1, users.len() as int);
    if a == i - 1 {
        lemma_row_pairs_in(scorer, users, a, users.len() as int, b);
        let k = choose|k: int| 0 <= k < row.len() && (#[trigger] row[k]).i == a && row[k].j == b;
        assert(below[prev.len() + k] == row[k]);
    } else {
        lemma_pairs_below_in(scorer, users, i - 1, a, b);
        let k = choose|k: int| 0 <= k < prev.len() && (#[trigger] prev[k]).i == a && prev[k].j == b;
        assert(below[k] == prev[k]);
    }
}

/// A permutation holds the same candidates.
proof fn lemma_pair_in_permutation(x: Seq<ScoredPair>, y: Seq<ScoredPair>, a: int, b: int)
    requires
        x.to_multiset() == y.to_multiset(),
        pair_in(x, a, b),
    ensures
        pair_in(y, a, b),
{
    x.to_multiset_ensures();
    y.to_multiset_ensures();
    let k = choose|k: int| 0 <= k < x.len() && (#[trigger] x[k]).i == a && x[k].j == b;
    assert(x.contains(x[k]));
    assert(y.to_multiset().count(x[k]) > 0);
    assert(y.contains(x[k]));
    let m = choose|m: int| 0 <= m < y.len() && y[m] == x[k];
    assert(pair_in(y, a, b));
}

/// How many matches the greedy walk commits: as long as a candidate remains
/// for every two unmatched indices, it pairs the unmatched users off two by
/// two, so exactly `floor(unmatched / 2)` matches come out.
proof fn lemma_select_len(users: Seq<User>, pairs: Seq<ScoredPair>, matched: Set<int>)
    requires
        wf_pairs(pairs, users.len() as int),
        covers_unmatched(pairs, users.len() as int, matched),
    ensures
        select_from(users, pairs, matched).len() == unmatched_of(
            users.len() as int,
            matched,
        ).len() / 2,
    decreases pairs.len(),
{
    broadcast use vstd::set::group_set_axioms;

    let n = users.len() as int;
    let u = unmatched_of(n, matched);
    lemma_int_range(0, n);
    lemma_len_subset(u, set_int_range(0, n));
    if pairs.len() == 0 {
        if u.len() >= 2 {
            assert(exists|x: int| u.contains(x)) by {
                if !(exists|x: int| u.contains(x)) {
                    assert(u =~= Set::<int>::empty());
                }
            }
            let x = choose|x: int| u.contains(x);
            let u2 = u.remove(x);
            assert(u2.len() >= 1);
            assert(exists|y: int| u2.contains(y)) by {
                if !(exists|y: int| u2.contains(y)) {
                    assert(u2 =~= Set::<int>::empty());
                }
            }
            let y = choose|y: int| u2.contains(y);
            let a = if x < y { x } else { y };
            let b = if x < y { y } else { x };
            assert(0 <= a < b < n);
            assert(pair_in(pairs, a, b));
            assert(false);
        }
    } else {
        let p = pairs[0];
        let i0 = p.i as int;
        let j0 = p.j as int;
        let rest = pairs.drop_first();
        assert(wf_pairs(rest, n)) by {
            assert forall|k: int| 0 <= k < rest.len() implies (#[trigger] rest[k]).i < rest[k].j
                && rest[k].j < n by {
                assert(rest[k] == pairs[k + 1]);
            }
        }
        if !matched.contains(i0) && !matched.contains(j0) {
            let matched2 = matched.insert(i0).insert(j0);
            assert(covers_unmatched(rest, n, matched2)) by {
                assert forall|a: int, b: int|
                    0 <= a < b < n && !matched2.contains(a) && !matched2.contains(b)
                    implies #[trigger] pair_in(rest, a, b) by {
                    assert(pair_in(pairs, a, b));
                    let k = choose|k: int|
                        0 <= k < pairs.len() && (#[trigger] pairs[k]).i == a && pairs[k].j == b;
                    assert(k != 0);
                    assert(rest[k - 1] == pairs[k]);
                }
            }
            lemma_select_len(users, rest, matched2);
            let u2 = unmatched_of(n, matched2);
            assert(u.contains(i0));
            assert(u.contains(j0));
            assert(u2 =~= u.remove(i0).remove(j0));
            assert(u.len() == u.remove(i0).len() + 1);
            assert(u.remove(i0).contains(j0));
            assert(u.remove(i0).len() == u2.len() + 1);
            assert(select_from(users, pairs, matched).len() == 1 + u2.len() / 2);
            assert(1 + u2.len() / 2 == (u2.len() + 2) / 2);
        } else {
            assert(covers_unmatched(rest, n, matched)) by {
                assert forall|a: int, b: int|
                    0 <= a < b < n && !matched.contains(a) && !matched.contains(b)
                    implies #[trigger] pair_in(rest, a, b) by {
                    assert(pair_in(pairs, a, b));
                    let k = choose|k: int|
                        0 <= k < pairs.len() && (#[trigger] pairs[k]).i == a && pairs[k].j == b;
                    assert(k != 0);
                    assert(rest[k - 1] == pairs[k]);
                }
            }
            lemma_select_len(users, rest, matched);
        }
    }
}

/// How many matches a run returns: exactly `floor(n / 2)` for `n` users.
/// In particular, fewer than two users produce no match at all.
pub proof fn lemma_matches_count<S: ScoringStrategy>(scorer: S, users: Seq<User>)
    requires
        wf_users(users),
    ensures
        matches_spec(scorer, users).len() == users.len() / 2,
{
    broadcast use vstd::set::group_set_axioms;

    let n = users.len() as int;
    let all = all_pairs(scorer, users);
    lemma_all_pairs_wf(scorer, users);
    crate::pairs::lemma_pair_order_total();
    all.lemma_sort_by_ensures(pair_order());
    let ranked = all.sort_by(pair_order());
    lemma_wf_pairs_permutation(all, ranked, n);
    assert forall|a: int, b: int|
        0 <= a < b < n && !Set::<int>::empty().contains(a) && !Set::<int>::empty().contains(b)
        implies #[trigger] pair_in(ranked, a, b) by {
        lemma_pairs_below_in(scorer, users, n, a, b);
        lemma_pair_in_permutation(all, ranked, a, b);
    }
    lemma_select_len(users, ranked, Set::empty());
    assert(unmatched_of(n, Set::empty()) =~= set_int_range(0, n));
    lemma_int_range(0, n);
}

/// Two matches that share no user identity.
pub open spec fn no_shared_ids(x: MatchView, y: MatchView) -> bool {
    &&& x.user_a != y.user_a
    &&& x.user_a != y.user_b
    &&& x.user_b != y.user_a
    &&& x.user_b != y.user_b
}

/// No user identity appears twice in a sequence of matches: the two sides of
/// each match differ, and no identity recurs across matches.
pub open spec fn distinct_ids(sel: Seq<MatchView>) -> bool {
    &&& forall|k: int| 0 <= k < sel.len() ==> (#[trigger] sel[k]).user_a != sel[k].user_b
    &&& forall|k: int, l: int|
        #![trigger sel[k], sel[l]]
        0 <= k < l < sel.len() ==> no_shared_ids(sel[k], sel[l])
}

/// No match in `sel` touches the identity of a user at a matched index.
spec fn avoids(users: Seq<User>, matched: Set<int>, sel: Seq<MatchView>) -> bool {
    forall|k: int, x: int|
        #![trigger sel[k], users[x]]
        0 <= k < sel.len() && 0 <= x < users.len() && matched.contains(x) ==> sel[k].user_a
            != users[x].id@ && sel[k].user_b != users[x].id@
}

/// Distinct indices carry distinct identities.
proof fn lemma_ids_differ(users: Seq<User>, a: int, b: int)
    requires
        wf_users(users),
        0 <= a < users.len(),
        0 <= b < users.len(),
        a != b,
    ensures
        users[a].id@ != users[b].id@,
{
    if a < b {
        assert(users[a].id@ != users[b].id@);
    } else {
        assert(users[b].id@ != users[a].id@);
    }
}

/// The greedy walk never hands an identity out twice: it only commits pairs
/// of unmatched indices and marks them matched at once.
proof fn lemma_select_distinct(users: Seq<User>, pairs: Seq<ScoredPair>, matched: Set<int>)
    requires
        wf_users(users),
        wf_pairs(pairs, users.len() as int),
    ensures
        distinct_ids(select_from(users, pairs, matched)),
        avoids(users, matched, select_from(users, pairs, matched)),
    decreases pairs.len(),
{
    let n = users.len() as int;
    let sel = select_from(users, pairs, matched);
    if pairs.len() == 0 {
    } else {
        let p = pairs[0];
        let i0 = p.i as int;
        let j0 = p.j as int;
        let rest = pairs.drop_first();
        assert(wf_pairs(rest, n)) by {
            assert forall|k: int| 0 <= k < rest.len() implies (#[trigger] rest[k]).i < rest[k].j
                && rest[k].j < n by {
                assert(rest[k] == pairs[k + 1]);
            }
        }
        if !matched.contains(i0) && !matched.contains(j0) {
            let matched2 = matched.insert(i0).insert(j0);
            lemma_select_distinct(users, rest, matched2);
            let tail = select_from(users, rest, matched2);
            lemma_ids_differ(users, i0, j0);
            assert(sel[0].user_a == users[i0].id@ && sel[0].user_b == users[j0].id@);
            assert(forall|l: int| 1 <= l < sel.len() ==> sel[l] == tail[l - 1]);
            assert(avoids(users, matched, sel)) by {
                assert forall|k: int, x: int|
                    0 <= k < sel.len() && 0 <= x < n && matched.contains(x)
                    implies #[trigger] sel[k].user_a != (#[trigger] users[x]).id@ && sel[k].user_b
                    != users[x].id@ by {
                    if k == 0 {
                        lemma_ids_differ(users, i0, x);
                        lemma_ids_differ(users, j0, x);
                    } else {
                        assert(sel[k] == tail[k - 1]);
                        assert(matched2.contains(x));
                    }
                }
            }
            assert(distinct_ids(sel)) by {
                assert forall|k: int| 0 <= k < sel.len() implies (#[trigger] sel[k]).user_a
                    != sel[k].user_b by {
                    if k > 0 {
                        assert(sel[k] == tail[k - 1]);
                    }
                }
                assert forall|k: int, l: int| 0 <= k < l < sel.len() implies no_shared_ids(
                    #[trigger] sel[k],
                    #[trigger] sel[l],
                ) by {
                    assert(sel[l] == tail[l - 1]);
                    if k == 0 {
                        assert(matched2.contains(i0) && matched2.contains(j0));
                        assert(tail[l - 1].user_a != users[i0].id@ && tail[l - 1].user_b
                            != users[i0].id@);
                        assert(tail[l - 1].user_a != users[j0].id@ && tail[l - 1].user_b
                            != users[j0].id@);
                    } else {
                        assert(sel[k] == tail[k - 1]);
                    }
                }
            }
        } else {
            lemma_select_distinct(users, rest, matched);
        }
    }
}

/// Every user id appears in at most one match of a run, and never on both
/// sides of one match.
pub proof fn lemma_matches_user_disjoint<S: ScoringStrategy>(scorer: S, users: Seq<User>)
    requires
        wf_users(users),
    ensures
        distinct_ids(matches_spec(scorer, users)),
{
    let all = all_pairs(scorer, users);
    lemma_all_pairs_wf(scorer, users);
    crate::pairs::lemma_pair_order_total();
    all.lemma_sort_by_ensures(pair_order());
    lemma_wf_pairs_permutation(all, all.sort_by(pair_order()), users.len() as int);
    lemma_select_distinct(users, all.sort_by(pair_order()), Set::empty());
}

/// Determinism: a matching run is a pure function of the scorer and of the
/// input sequence, so any two runs over the same input, in the same order,
/// return identical output sequences.
pub proof fn lemma_matches_deterministic<S: ScoringStrategy>(
    scorer: S,
    users: Seq<User>,
    r1: Seq<MatchView>,
    r2: Seq<MatchView>,
)
    requires
        r1 == matches_spec(scorer, users),
        r2 == matches_spec(scorer, users),
    ensures
        r1 == r2,
{
}

/// The two identities of a match, with their order forgotten.
pub open spec fn match_parties(m: MatchView) -> Set<Seq<char>> {
    Set::empty().insert(m.user_a).insert(m.user_b)
}

/// The two identities of a candidate pair, with their order forgotten.
pub open spec fn pair_parties(users: Seq<User>, p: ScoredPair) -> Set<Seq<char>> {
    Set::empty().insert(users[p.i as int].id@).insert(users[p.j as int].id@)
}

/// The identities of the users at the indices of `m`.
pub open spec fn ids_of(users: Seq<User>, m: Set<int>) -> Set<Seq<char>> {
    Set::new(
        |id: Seq<char>|
            exists|x: int| #[trigger] m.contains(x) && 0 <= x < users.len() && users[x].id@ == id,
    )
}

/// An index is in `m` exactly when its user's identity is among the
/// identities of `m` — identities are distinct, so the two views agree.
proof fn lemma_ids_of_member(users: Seq<User>, m: Set<int>, x: int)
    requires
        wf_users(users),
        0 <= x < users.len(),
    ensures
        m.contains(x) <==> ids_of(users, m).contains(users[x].id@),
{
    if ids_of(users, m).contains(users[x].id@) {
        let y = choose|y: int|
            #[trigger] m.contains(y) && 0 <= y < users.len() && users[y].id@ == users[x].id@;
        if y != x {
            lemma_ids_differ(users, x, y);
        }
        assert(m.contains(x));
    }
    if m.contains(x) {
        assert(m.contains(x) && 0 <= x < users.len() && users[x].id@ == users[x].id@);
        assert(ids_of(users, m).contains(users[x].id@));
    }
}

/// Marking one more index as matched adds exactly that user's identity.
proof fn lemma_ids_of_insert(users: Seq<User>, m: Set<int>, x: int)
    requires
        0 <= x < users.len(),
    ensures
        ids_of(users, m.insert(x)) =~= ids_of(users, m).insert(users[x].id@),
{
    let lhs = ids_of(users, m.insert(x));
    let rhs = ids_of(users, m).insert(users[x].id@);
    assert forall|id: Seq<char>| lhs.contains(id) implies rhs.contains(id) by {
        let y = choose|y: int|
            #[trigger] m.insert(x).contains(y) && 0 <= y < users.len() && users[y].id@ == id;
        if y != x {
            assert(m.contains(y));
            assert(ids_of(users, m).contains(id));
        }
    }
    assert forall|id: Seq<char>| rhs.contains(id) implies lhs.contains(id) by {
        if id == users[x].id@ {
            assert(m.insert(x).contains(x) && 0 <= x < users.len() && users[x].id@ == id);
        } else {
            let y = choose|y: int|
                #[trigger] m.contains(y) && 0 <= y < users.len() && users[y].id@ == id;
            assert(m.insert(x).contains(y) && 0 <= y < users.len() && users[y].id@ == id);
        }
    }
}

/// The greedy walk reads nothing of a ranking but each pair's two
/// identities and its score. Two walks over rankings that agree position by
/// position on those — even over differently ordered or indexed user
/// collections — and that start from matched sets covering the same
/// identities, commit the same pairings with the same scores, in the same
/// order. This is the selection half of order-independence: committed
/// matches can differ between two input orders only where the orders rank
/// the candidate pairs differently, which equal scores (ties) allow.
pub proof fn lemma_select_respects_identities(
    users1: Seq<User>,
    pairs1: Seq<ScoredPair>,
    m1: Set<int>,
    users2: Seq<User>,
    pairs2: Seq<ScoredPair>,
    m2: Set<int>,
)
    requires
        wf_users(users1),
        wf_users(users2),
        wf_pairs(pairs1, users1.len() as int),
        wf_pairs(pairs2, users2.len() as int),
        pairs1.len() == pairs2.len(),
        forall|k: int|
            #![trigger pairs1[k], pairs2[k]]
            0 <= k < pairs1.len() ==> pair_parties(users1, pairs1[k]) == pair_parties(
                users2,
                pairs2[k],
            ) && pairs1[k].score == pairs2[k].score,
        ids_of(users1, m1) == ids_of(users2, m2),
    ensures
        select_from(users1, pairs1, m1).len() == select_from(users2, pairs2, m2).len(),
        forall|k: int|
            #![trigger select_from(users1, pairs1, m1)[k]]
            0 <= k < select_from(users1, pairs1, m1).len() ==> match_parties(
                select_from(users1, pairs1, m1)[k],
            ) == match_parties(select_from(users2, pairs2, m2)[k]) && select_from(
                users1,
                pairs1,
                m1,
            )[k].score == select_from(users2, pairs2, m2)[k].score,
    decreases pairs1.len(),
{
    let sel1 = select_from(users1, pairs1, m1);
    let sel2 = select_from(users2, pairs2, m2);
    if pairs1.len() == 0 {
    } else {
        let p1 = pairs1[0];
        let p2 = pairs2[0];
        let i1 = p1.i as int;
        let j1 = p1.j as int;
        let i2 = p2.i as int;
        let j2 = p2.j as int;
        let rest1 = pairs1.drop_first();
        let rest2 = pairs2.drop_first();
        assert(wf_pairs(rest1, users1.len() as int) && wf_pairs(rest2, users2.len() as int)) by {
            assert(forall|k: int| 0 <= k < rest1.len() ==> rest1[k] == #[trigger] pairs1[k + 1]);
            assert(forall|k: int| 0 <= k < rest2.len() ==> rest2[k] == #[trigger] pairs2[k + 1]);
        }
        assert(forall|k: int|
            #![trigger rest1[k], rest2[k]]
            0 <= k < rest1.len() ==> rest1[k] == pairs1[k + 1] && rest2[k] == pairs2[k + 1]);
        let parties = pair_parties(users1, p1);
        assert(parties == pair_parties(users2, p2));
        let guard1 = !m1.contains(i1) && !m1.contains(j1);
        let guard2 = !m2.contains(i2) && !m2.contains(j2);
        lemma_ids_of_member(users1, m1, i1);
        lemma_ids_of_member(users1, m1, j1);
        lemma_ids_of_member(users2, m2, i2);
        lemma_ids_of_member(users2, m2, j2);
        assert(guard1 == guard2) by {
            assert(parties.contains(users1[i1].id@) && parties.contains(users1[j1].id@));
            assert(parties.contains(users2[i2].id@) && parties.contains(users2[j2].id@));
            if guard1 {
                assert forall|id: Seq<char>| parties.contains(id) implies !ids_of(
                    users1,
                    m1,
                ).contains(id) by {
                    assert(id == users1[i1].id@ || id == users1[j1].id@);
                }
            }
            if guard2 {
                assert forall|id: Seq<char>| parties.contains(id) implies !ids_of(
                    users2,
                    m2,
                ).contains(id) by {
                    assert(id == users2[i2].id@ || id == users2[j2].id@);
                }
            }
        }
        if guard1 {
            let m1n = m1.insert(i1).insert(j1);
            let m2n = m2.insert(i2).insert(j2);
            assert(ids_of(users1, m1n) == ids_of(users2, m2n)) by {
                lemma_ids_of_insert(users1, m1, i1);
                lemma_ids_of_insert(users1, m1.insert(i1), j1);
                lemma_ids_of_insert(users2, m2, i2);
                lemma_ids_of_insert(users2, m2.insert(i2), j2);
                assert(ids_of(users1, m1n) =~= ids_of(users2, m2n)) by {
                    assert(ids_of(users1, m1n) =~= ids_of(users1, m1).insert(
                        users1[i1].id@,
                    ).insert(users1[j1].id@));
                    assert(ids_of(users2, m2n) =~= ids_of(users2, m2).insert(
                        users2[i2].id@,
                    ).insert(users2[j2].id@));
                    assert forall|id: Seq<char>|
                        ids_of(users1, m1).insert(users1[i1].id@).insert(
                            users1[j1].id@,
                        ).contains(id) implies ids_of(users2, m2).insert(users2[i2].id@).insert(
                        users2[j2].id@,
                    ).contains(id) by {
                        if id == users1[i1].id@ || id == users1[j1].id@ {
                            assert(parties.contains(id));
                            assert(id == users2[i2].id@ || id == users2[j2].id@);
                        }
                    }
                    assert forall|id: Seq<char>|
                        ids_of(users2, m2).insert(users2[i2].id@).insert(
                            users2[j2].id@,
                        ).contains(id) implies ids_of(users1, m1).insert(users1[i1].id@).insert(
                        users1[j1].id@,
                    ).contains(id) by {
                        if id == users2[i2].id@ || id == users2[j2].id@ {
                            assert(parties.contains(id));
                            assert(id == users1[i1].id@ || id == users1[j1].id@);
                        }
                    }
                }
            }
            lemma_select_respects_identities(users1, rest1, m1n, users2, rest2, m2n);
            let tail1 = select_from(users1, rest1, m1n);
            let tail2 = select_from(users2, rest2, m2n);
            let mv1 = MatchView { user_a: users1[i1].id@, user_b: users1[j1].id@, score: p1.score };
            let mv2 = MatchView { user_a: users2[i2].id@, user_b: users2[j2].id@, score: p2.score };
            assert(sel1 == seq![mv1] + tail1 && sel2 == seq![mv2] + tail2);
            assert(match_parties(mv1) =~= parties);
            assert(match_parties(mv2) =~= parties);
            assert forall|k: int| 0 <= k < sel1.len() implies match_parties(#[trigger] sel1[k])
                == match_parties(sel2[k]) && sel1[k].score == sel2[k].score by {
                if k > 0 {
                    assert(sel1[k] == tail1[k - 1] && sel2[k] == tail2[k - 1]);
                }
            }
        } else {
            lemma_select_respects_identities(users1, rest1, m1, users2, rest2, m2);
        }
    }
}

/// The `k`-th pair of a row is exactly `(i, i + 1 + k)`.
proof fn lemma_row_pairs_char<S: ScoringStrategy>(scorer: S, users: Seq<User>, i: int, j: int)
    requires
        i + 1 <= j,
    ensures
        row_pairs(scorer, users, i, j).len() == j - i - 1,
        forall|k: int|
            0 <= k < j - i - 1 ==> #[trigger] row_pairs(scorer, users, i, j)[k] == pair_for(
                scorer,
                users,
                i,
                i + 1 + k,
            ),
    decreases j - i,
{
    if j == i + 1 {
    } else {
        lemma_row_pairs_char(scorer, users, i, j - 1);
    }
}

/// The enumeration up to `i` repeats no index pair, each of its entries is
/// the scored pair of its own indices, and all first indices lie below `i`.
proof fn lemma_pairs_below_char<S: ScoringStrategy>(scorer: S, users: Seq<User>, i: int)
    requires
        0 <= i <= users.len() <= usize::MAX,
    ensures
        pairs_below(scorer, users, i).no_duplicates(),
        forall|k: int|
            0 <= k < pairs_below(scorer, users, i).len() ==> #[trigger] pairs_below(
                scorer,
                users,
                i,
            )[k] == pair_for(
                scorer,
                users,
                pairs_below(scorer, users, i)[k].i as int,
                pairs_below(scorer, users, i)[k].j as int,
            ),
        forall|k: int|
            0 <= k < pairs_below(scorer, users, i).len() ==> (#[trigger] pairs_below(
                scorer,
                users,
                i,
            )[k]).i < i,
    decreases i,
{
    if i <= 0 {
    } else {
        lemma_pairs_below_char(scorer, users, i - 1);
        let below = pairs_below(scorer, users, i);
        let prev = pairs_below(scorer, users, i - 1);
        let n = users.len() as int;
        let row = row_pairs(scorer, users, i - 1, n);
        if i - 1 + 1 <= n {
            lemma_row_pairs_char(scorer, users, i - 1, n);
        }
        assert forall|k: int| 0 <= k < below.len() implies #[trigger] below[k] == pair_for(
            scorer,
            users,
            below[k].i as int,
            below[k].j as int,
        ) && below[k].i < i by {
            if k < prev.len() {
                assert(below[k] == prev[k]);
            } else {
                assert(below[k] == row[k - prev.len()]);
                assert(below[k] == pair_for(scorer, users, i - 1, i + (k - prev.len())));
            }
        }
        assert forall|k: int, l: int| 0 <= k < l < below.len() implies #[trigger] below[k]
            != #[trigger] below[l] by {
            if l < prev.len() {
                assert(below[k] == prev[k] && below[l] == prev[l]);
            } else if k >= prev.len() {
                assert(below[k] == pair_for(scorer, users, i - 1, i + (k - prev.len())));
                assert(below[l] == pair_for(scorer, users, i - 1, i + (l - prev.len())));
                assert(below[k].j != below[l].j);
            } else {
                assert(below[k] == prev[k] && below[l] == row[l - prev.len()]);
                assert(below[k].i < i - 1);
                assert(below[l].i == i - 1);
            }
        }
    }
}

/// Distinct pairwise scores: no two different index pairs score equally.
pub open spec fn scores_distinct<S: ScoringStrategy>(scorer: S, users: Seq<User>) -> bool {
    forall|a: int, b: int, c: int, d: int|
        #![trigger pair_for(scorer, users, a, b), pair_for(scorer, users, c, d)]
        0 <= a < b < users.len() && 0 <= c < d < users.len() && (a != c || b != d) ==> pair_for(
            scorer,
            users,
            a,
            b,
        ).score != pair_for(scorer, users, c, d).score
}

/// When no two pairs score equally, a ranking of the enumeration descends
/// strictly in score.
proof fn lemma_ranking_strict_desc<S: ScoringStrategy>(
    scorer: S,
    users: Seq<User>,
    r: Seq<ScoredPair>,
)
    requires
        wf_users(users),
        scores_distinct(scorer, users),
        vstd::relations::sorted_by(r, pair_order()),
        r.to_multiset() == all_pairs(scorer, users).to_multiset(),
    ensures
        strictly_ranked(r),
{
    let n = users.len() as int;
    let all = pairs_below(scorer, users, n);
    assert(all == all_pairs(scorer, users));
    lemma_pairs_below_char(scorer, users, n);
    lemma_all_pairs_wf(scorer, users);
    lemma_wf_pairs_permutation(all, r, n);
    all.lemma_multiset_has_no_duplicates();
    r.lemma_multiset_has_no_duplicates_conv();
    all.to_multiset_ensures();
    r.to_multiset_ensures();
    let leq = pair_order();
    assert forall|k: int, l: int| 0 <= k < l < r.len() implies (#[trigger] r[k]).score
        > (#[trigger] r[l]).score by {
        assert(leq(r[k], r[l]));
        assert(r[k] != r[l]);
        if r[k].score == r[l].score {
            assert(r.contains(r[k]));
            assert(r.contains(r[l]));
            assert(all.to_multiset().count(r[k]) > 0 && all.to_multiset().count(r[l]) > 0);
            assert(all.contains(r[k]) && all.contains(r[l]));
            let mk = choose|m: int| 0 <= m < all.len() && all[m] == r[k];
            let ml = choose|m: int| 0 <= m < all.len() && all[m] == r[l];
            assert(all[mk] == pair_for(scorer, users, all[mk].i as int, all[mk].j as int));
            assert(all[ml] == pair_for(scorer, users, all[ml].i as int, all[ml].j as int));
            assert(r[k] == pair_for(scorer, users, r[k].i as int, r[k].j as int));
            assert(r[l] == pair_for(scorer, users, r[l].i as int, r[l].j as int));
            assert((r[k].i as int) < (r[k].j as int) && (r[k].j as int) < n);
            assert((r[l].i as int) < (r[l].j as int) && (r[l].j as int) < n);
            assert(false);
        }
    }
}

/// A ranking whose scores strictly descend: no ties anywhere.
pub open spec fn strictly_ranked(p: Seq<ScoredPair>) -> bool {
    forall|k: int, l: int| #![trigger p[k], p[l]] 0 <= k < l < p.len() ==> p[k].score > p[l].score
}

/// Whether position `k` of ranking `p` has a partner somewhere in ranking
/// `q`: a pair with the same score over the same two identities.
spec fn has_partner(
    users1: Seq<User>,
    p: Seq<ScoredPair>,
    users2: Seq<User>,
    q: Seq<ScoredPair>,
    k: int,
) -> bool {
    exists|m: int|
        0 <= m < q.len() && (#[trigger] q[m]).score == p[k].score && pair_parties(users2, q[m])
            == pair_parties(users1, p[k])
}

/// Dropping the top of a strictly descending ranking keeps it one.
proof fn lemma_strictly_ranked_tail(p: Seq<ScoredPair>)
    requires
        strictly_ranked(p),
        p.len() > 0,
    ensures
        strictly_ranked(p.drop_first()),
{
    let tp = p.drop_first();
    assert forall|k: int, l: int| 0 <= k < l < tp.len() implies (#[trigger] tp[k]).score
        > (#[trigger] tp[l]).score by {
        assert(tp[k] == p[k + 1] && tp[l] == p[l + 1]);
    }
}

/// The tops of two mutually partnered strict rankings partner each other.
proof fn lemma_rankings_heads(
    users1: Seq<User>,
    p: Seq<ScoredPair>,
    users2: Seq<User>,
    q: Seq<ScoredPair>,
)
    requires
        p.len() == q.len(),
        p.len() > 0,
        strictly_ranked(p),
        strictly_ranked(q),
        forall|k: int| 0 <= k < p.len() ==> #[trigger] has_partner(users1, p, users2, q, k),
        forall|k: int| 0 <= k < q.len() ==> #[trigger] has_partner(users2, q, users1, p, k),
    ensures
        p[0].score == q[0].score,
        pair_parties(users1, p[0]) == pair_parties(users2, q[0]),
{
    assert(has_partner(users1, p, users2, q, 0));
    let m = choose|m: int|
        0 <= m < q.len() && (#[trigger] q[m]).score == p[0].score && pair_parties(users2, q[m])
            == pair_parties(users1, p[0]);
    if m > 0 {
        assert(q[0].score > q[m].score);
        assert(has_partner(users2, q, users1, p, 0));
        let m2 = choose|m2: int|
            0 <= m2 < p.len() && (#[trigger] p[m2]).score == q[0].score && pair_parties(
                users1,
                p[m2],
            ) == pair_parties(users2, q[0]);
        assert(p[m2].score > p[0].score);
        if m2 > 0 {
            assert(p[0].score > p[m2].score);
        }
        assert(false);
    }
}

/// Once the tops agree, the partner property passes down to the tails.
proof fn lemma_partner_tail(
    users1: Seq<User>,
    p: Seq<ScoredPair>,
    users2: Seq<User>,
    q: Seq<ScoredPair>,
)
    requires
        p.len() == q.len(),
        p.len() > 0,
        strictly_ranked(p),
        strictly_ranked(q),
        forall|k: int| 0 <= k < p.len() ==> #[trigger] has_partner(users1, p, users2, q, k),
        p[0].score == q[0].score,
    ensures
        forall|k: int|
            0 <= k < p.drop_first().len() ==> #[trigger] has_partner(
                users1,
                p.drop_first(),
                users2,
                q.drop_first(),
                k,
            ),
{
    let tp = p.drop_first();
    let tq = q.drop_first();
    assert forall|k: int| 0 <= k < tp.len() implies #[trigger] has_partner(
        users1,
        tp,
        users2,
        tq,
        k,
    ) by {
        assert(tp[k] == p[k + 1]);
        assert(has_partner(users1, p, users2, q, k + 1));
        let w = choose|w: int|
            0 <= w < q.len() && (#[trigger] q[w]).score == p[k + 1].score && pair_parties(
                users2,
                q[w],
            ) == pair_parties(users1, p[k + 1]);
        assert(p[0].score > p[k + 1].score);
        assert(w != 0);
        assert(tq[w - 1] == q[w]);
        assert(0 <= w - 1 < tq.len() && tq[w - 1].score == tp[k].score && pair_parties(
            users2,
            tq[w - 1],
        ) == pair_parties(users1, tp[k]));
    }
}

/// Two strictly descending rankings that hold, score for score, the same
/// identity pairs agree position by position.
proof fn lemma_rankings_correspond(
    users1: Seq<User>,
    p: Seq<ScoredPair>,
    users2: Seq<User>,
    q: Seq<ScoredPair>,
)
    requires
        p.len() == q.len(),
        strictly_ranked(p),
        strictly_ranked(q),
        forall|k: int| 0 <= k < p.len() ==> #[trigger] has_partner(users1, p, users2, q, k),
        forall|k: int| 0 <= k < q.len() ==> #[trigger] has_partner(users2, q, users1, p, k),
    ensures
        forall|k: int|
            #![trigger p[k], q[k]]
            0 <= k < p.len() ==> p[k].score == q[k].score && pair_parties(users1, p[k])
                == pair_parties(users2, q[k]),
    decreases p.len(),
{
    if p.len() == 0 {
    } else {
        lemma_rankings_heads(users1, p, users2, q);
        let tp = p.drop_first();
        let tq = q.drop_first();
        lemma_strictly_ranked_tail(p);
        lemma_strictly_ranked_tail(q);
        lemma_partner_tail(users1, p, users2, q);
        lemma_partner_tail(users2, q, users1, p);
        lemma_rankings_correspond(users1, tp, users2, tq);
        assert forall|k: int| 0 <= k < p.len() implies (#[trigger] p[k]).score
            == (#[trigger] q[k]).score && pair_parties(users1, p[k]) == pair_parties(
            users2,
            q[k],
        ) by {
            if k > 0 {
                assert(tp[k - 1] == p[k] && tq[k - 1] == q[k]);
            }
        }
    }
}

/// The collection with the users at positions `s` and `t` exchanged.
pub open spec fn swapped(users: Seq<User>, s: int, t: int) -> Seq<User> {
    users.update(s, users[t]).update(t, users[s])
}

/// Where position `k` of the swapped collection takes its user from.
pub open spec fn tau(s: int, t: int, k: int) -> int {
    if k == s {
        t
    } else if k == t {
        s
    } else {
        k
    }
}

/// Each position of the swapped collection holds the user the exchange
/// sends there.
proof fn lemma_swapped_index(users: Seq<User>, s: int, t: int, k: int)
    requires
        0 <= s < t < users.len(),
        0 <= k < users.len(),
    ensures
        swapped(users, s, t)[k] == users[tau(s, t, k)],
{
}

/// Exchanging two users keeps the collection well-formed.
proof fn lemma_swapped_wf(users: Seq<User>, s: int, t: int)
    requires
        wf_users(users),
        0 <= s < t < users.len(),
    ensures
        wf_users(swapped(users, s, t)),
{
    let u2 = swapped(users, s, t);
    assert(u2.len() == users.len());
    assert forall|k: int| 0 <= k < u2.len() implies (#[trigger] u2[k]).wf() by {
        lemma_swapped_index(users, s, t, k);
        assert(users[tau(s, t, k)].wf());
    }
    assert forall|k: int, l: int|
        #![trigger u2[k], u2[l]]
        0 <= k < l < u2.len() implies u2[k].id@ != u2[l].id@ by {
        lemma_swapped_index(users, s, t, k);
        lemma_swapped_index(users, s, t, l);
        lemma_ids_differ(users, tau(s, t, k), tau(s, t, l));
    }
}

/// Exchanging the same two users twice restores the collection.
proof fn lemma_swapped_involution(users: Seq<User>, s: int, t: int)
    requires
        0 <= s < t < users.len(),
    ensures
        swapped(swapped(users, s, t), s, t) == users,
{
    let u2 = swapped(users, s, t);
    let u3 = swapped(u2, s, t);
    assert(u3 =~= users) by {
        assert forall|k: int| 0 <= k < users.len() implies u3[k] == users[k] by {
            lemma_swapped_index(u2, s, t, k);
            lemma_swapped_index(users, s, t, tau(s, t, k));
        }
    }
}

/// A candidate pair of the swapped collection scores and names exactly what
/// the corresponding pair of the original collection does, provided the
/// scorer is symmetric: the exchange only moves the pair to the indices
/// `lo < hi` that the two users now sit at.
proof fn lemma_swapped_pair<S: ScoringStrategy>(
    scorer: S,
    users: Seq<User>,
    s: int,
    t: int,
    a: int,
    b: int,
    lo: int,
    hi: int,
)
    requires
        wf_users(users),
        0 <= s < t < users.len(),
        0 <= a < b < users.len(),
        forall|x: User, y: User| #[trigger] scorer.score_spec(x, y) == scorer.score_spec(y, x),
        lo == if tau(s, t, a) < tau(s, t, b) {
            tau(s, t, a)
        } else {
            tau(s, t, b)
        },
        hi == if tau(s, t, a) < tau(s, t, b) {
            tau(s, t, b)
        } else {
            tau(s, t, a)
        },
    ensures
        0 <= lo < hi < users.len(),
        pair_for(scorer, swapped(users, s, t), a, b).score == pair_for(
            scorer,
            users,
            lo,
            hi,
        ).score,
        pair_parties(swapped(users, s, t), pair_for(scorer, swapped(users, s, t), a, b))
            == pair_parties(users, pair_for(scorer, users, lo, hi)),
{
    let u2 = swapped(users, s, t);
    lemma_swapped_index(users, s, t, a);
    lemma_swapped_index(users, s, t, b);
    let ta = tau(s, t, a);
    let tb = tau(s, t, b);
    assert(ta != tb);
    if tb < ta {
        assert(scorer.score_spec(users[ta], users[tb]) == scorer.score_spec(
            users[tb],
            users[ta],
        ));
    }
    assert(pair_for(scorer, u2, a, b).score == pair_for(scorer, users, lo, hi).score);
    assert(pair_parties(u2, pair_for(scorer, u2, a, b)) =~= pair_parties(
        users,
        pair_for(scorer, users, lo, hi),
    ));
}

/// Exchanging two users keeps all pairwise scores distinct.
proof fn lemma_swapped_scores_distinct<S: ScoringStrategy>(
    scorer: S,
    users: Seq<User>,
    s: int,
    t: int,
)
    requires
        wf_users(users),
        0 <= s < t < users.len(),
        forall|x: User, y: User| #[trigger] scorer.score_spec(x, y) == scorer.score_spec(y, x),
        scores_distinct(scorer, users),
    ensures
        scores_distinct(scorer, swapped(users, s, t)),
{
    let u2 = swapped(users, s, t);
    assert(u2.len() == users.len());
    assert forall|a: int, b: int, c: int, d: int|
        #![trigger pair_for(scorer, u2, a, b), pair_for(scorer, u2, c, d)]
        0 <= a < b < u2.len() && 0 <= c < d < u2.len() && (a != c || b != d) implies pair_for(
        scorer,
        u2,
        a,
        b,
    ).score != pair_for(scorer, u2, c, d).score by {
        let lo1 = if tau(s, t, a) < tau(s, t, b) {
            tau(s, t, a)
        } else {
            tau(s, t, b)
        };
        let hi1 = if tau(s, t, a) < tau(s, t, b) {
            tau(s, t, b)
        } else {
            tau(s, t, a)
        };
        let lo2 = if tau(s, t, c) < tau(s, t, d) {
            tau(s, t, c)
        } else {
            tau(s, t, d)
        };
        let hi2 = if tau(s, t, c) < tau(s, t, d) {
            tau(s, t, d)
        } else {
            tau(s, t, c)
        };
        lemma_swapped_pair(scorer, users, s, t, a, b, lo1, hi1);
        lemma_swapped_pair(scorer, users, s, t, c, d, lo2, hi2);
        if lo1 == lo2 && hi1 == hi2 {
            assert(tau(s, t, tau(s, t, a)) == a);
            assert(tau(s, t, tau(s, t, b)) == b);
            assert(tau(s, t, tau(s, t, c)) == c);
            assert(tau(s, t, tau(s, t, d)) == d);
            assert((tau(s, t, a) == tau(s, t, c) && tau(s, t, b) == tau(s, t, d)) || (tau(s, t, a)
                == tau(s, t, d) && tau(s, t, b) == tau(s, t, c)));
            assert(false);
        }
        assert(pair_for(scorer, users, lo1, hi1).score != pair_for(scorer, users, lo2, hi2).score);
    }
}

/// Enumerations over equally large collections are equally long.
proof fn lemma_pairs_below_len<S: ScoringStrategy>(
    scorer: S,
    users1: Seq<User>,
    users2: Seq<User>,
    i: int,
)
    requires
        users1.len() == users2.len(),
    ensures
        pairs_below(scorer, users1, i).len() == pairs_below(scorer, users2, i).len(),
    decreases i,
{
    if i <= 0 {
    } else {
        lemma_pairs_below_len(scorer, users1, users2, i - 1);
        let n = users1.len() as int;
        if i <= n {
            lemma_row_pairs_char(scorer, users1, i - 1, n);
            lemma_row_pairs_char(scorer, users2, i - 1, n);
        }
    }
}

/// Every position of a ranking of one collection's candidates has a partner
/// in a ranking of the exchanged collection's candidates: a pair over the
/// same two identities with the same score.
proof fn lemma_swapped_partners<S: ScoringStrategy>(
    scorer: S,
    users: Seq<User>,
    s: int,
    t: int,
    r1: Seq<ScoredPair>,
    r2: Seq<ScoredPair>,
)
    requires
        wf_users(users),
        0 <= s < t < users.len(),
        forall|x: User, y: User| #[trigger] scorer.score_spec(x, y) == scorer.score_spec(y, x),
        r1.to_multiset() == all_pairs(scorer, users).to_multiset(),
        r2.to_multiset() == all_pairs(scorer, swapped(users, s, t)).to_multiset(),
    ensures
        forall|k: int|
            0 <= k < r1.len() ==> #[trigger] has_partner(users, r1, swapped(users, s, t), r2, k),
{
    let n = users.len() as int;
    let u2 = swapped(users, s, t);
    lemma_swapped_wf(users, s, t);
    assert(u2.len() == users.len());
    let all1 = pairs_below(scorer, users, n);
    let all2 = pairs_below(scorer, u2, n);
    assert(all1 == all_pairs(scorer, users));
    assert(all2 == all_pairs(scorer, u2));
    lemma_pairs_below_char(scorer, users, n);
    lemma_pairs_below_char(scorer, u2, n);
    lemma_all_pairs_wf(scorer, users);
    lemma_wf_pairs_permutation(all1, r1, n);
    all1.to_multiset_ensures();
    r1.to_multiset_ensures();
    all2.to_multiset_ensures();
    r2.to_multiset_ensures();
    assert forall|k: int| 0 <= k < r1.len() implies #[trigger] has_partner(
        users,
        r1,
        u2,
        r2,
        k,
    ) by {
        let a = r1[k].i as int;
        let b = r1[k].j as int;
        assert(r1[k].i < r1[k].j && (r1[k].j as int) < n);
        assert(r1.contains(r1[k]));
        assert(all1.to_multiset().count(r1[k]) > 0);
        assert(all1.contains(r1[k]));
        let m = choose|m: int| 0 <= m < all1.len() && all1[m] == r1[k];
        assert(all1[m] == pair_for(scorer, users, all1[m].i as int, all1[m].j as int));
        assert(r1[k] == pair_for(scorer, users, a, b));
        let c = if tau(s, t, a) < tau(s, t, b) {
            tau(s, t, a)
        } else {
            tau(s, t, b)
        };
        let d = if tau(s, t, a) < tau(s, t, b) {
            tau(s, t, b)
        } else {
            tau(s, t, a)
        };
        assert(0 <= c < d < n);
        let lo = if tau(s, t, c) < tau(s, t, d) {
            tau(s, t, c)
        } else {
            tau(s, t, d)
        };
        let hi = if tau(s, t, c) < tau(s, t, d) {
            tau(s, t, d)
        } else {
            tau(s, t, c)
        };
        assert(tau(s, t, tau(s, t, a)) == a);
        assert(tau(s, t, tau(s, t, b)) == b);
        assert(lo == a && hi == b);
        lemma_swapped_pair(scorer, users, s, t, c, d, lo, hi);
        assert(pair_for(scorer, u2, c, d).score == pair_for(scorer, users, a, b).score);
        lemma_pairs_below_in(scorer, u2, n, c, d);
        let idx = choose|idx: int|
            0 <= idx < all2.len() && (#[trigger] all2[idx]).i == c && all2[idx].j == d;
        assert(all2[idx] == pair_for(scorer, u2, all2[idx].i as int, all2[idx].j as int));
        assert(all2[idx] == pair_for(scorer, u2, c, d));
        assert(all2.contains(all2[idx]));
        assert(r2.to_multiset().count(all2[idx]) > 0);
        assert(r2.contains(all2[idx]));
        let w = choose|w: int| 0 <= w < r2.len() && r2[w] == pair_for(scorer, u2, c, d);
        assert(0 <= w < r2.len() && r2[w].score == r1[k].score && pair_parties(u2, r2[w])
            == pair_parties(users, r1[k]));
        assert(has_partner(users, r1, u2, r2, k));
    }
}

/// Exchanging two users of the input changes nothing of the outcome when no
/// two candidate pairs score equally and the scorer is symmetric: both runs
/// commit the same number of matches, and position by position the same two
/// identities at the same score. Only where scores tie can the input order
/// steer which of the equally ranked pairs the greedy walk commits.
pub proof fn lemma_swap_users_matches<S: ScoringStrategy>(
    scorer: S,
    users: Seq<User>,
    s: int,
    t: int,
)
    requires
        wf_users(users),
        0 <= s < t < users.len(),
        forall|x: User, y: User| #[trigger] scorer.score_spec(x, y) == scorer.score_spec(y, x),
        scores_distinct(scorer, users),
    ensures
        matches_spec(scorer, swapped(users, s, t)).len() == matches_spec(scorer, users).len(),
        forall|k: int|
            #![trigger matches_spec(scorer, swapped(users, s, t))[k]]
            0 <= k < matches_spec(scorer, users).len() ==> match_parties(
                matches_spec(scorer, swapped(users, s, t))[k],
            ) == match_parties(matches_spec(scorer, users)[k]) && matches_spec(
                scorer,
                swapped(users, s, t),
            )[k].score == matches_spec(scorer, users)[k].score,
{
    let n = users.len() as int;
    let u2 = swapped(users, s, t);
    lemma_swapped_wf(users, s, t);
    lemma_swapped_scores_distinct(scorer, users, s, t);
    assert(u2.len() == users.len());
    let all1 = pairs_below(scorer, users, n);
    let all2 = pairs_below(scorer, u2, n);
    assert(all1 == all_pairs(scorer, users));
    assert(all2 == all_pairs(scorer, u2));
    lemma_all_pairs_wf(scorer, users);
    lemma_all_pairs_wf(scorer, u2);
    crate::pairs::lemma_pair_order_total();
    all1.lemma_sort_by_ensures(pair_order());
    all2.lemma_sort_by_ensures(pair_order());
    let r1 = all1.sort_by(pair_order());
    let r2 = all2.sort_by(pair_order());
    lemma_wf_pairs_permutation(all1, r1, n);
    lemma_wf_pairs_permutation(all2, r2, n);
    all1.to_multiset_ensures();
    r1.to_multiset_ensures();
    all2.to_multiset_ensures();
    r2.to_multiset_ensures();
    lemma_pairs_below_len(scorer, users, u2, n);
    assert(r1.len() == r2.len());
    lemma_ranking_strict_desc(scorer, users, r1);
    lemma_ranking_strict_desc(scorer, u2, r2);
    lemma_swapped_partners(scorer, users, s, t, r1, r2);
    lemma_swapped_involution(users, s, t);
    lemma_swapped_partners(scorer, u2, s, t, r2, r1);
    lemma_rankings_correspond(users, r1, u2, r2);
    assert(ids_of(users, Set::<int>::empty()) =~= ids_of(u2, Set::<int>::empty())) by {
        assert forall|id: Seq<char>| !ids_of(users, Set::<int>::empty()).contains(id) by {
            if ids_of(users, Set::<int>::empty()).contains(id) {
                let x = choose|x: int|
                    #[trigger] Set::<int>::empty().contains(x) && 0 <= x < users.len()
                        && users[x].id@ == id;
            }
        }
        assert forall|id: Seq<char>| !ids_of(u2, Set::<int>::empty()).contains(id) by {
            if ids_of(u2, Set::<int>::empty()).contains(id) {
                let x = choose|x: int|
                    #[trigger] Set::<int>::empty().contains(x) && 0 <= x < u2.len() && u2[x].id@
                        == id;
            }
        }
    }
    lemma_select_respects_identities(users, r1, Set::empty(), u2, r2, Set::empty());
    assert(matches_spec(scorer, users) == select_from(users, r1, Set::empty()));
    assert(matches_spec(scorer, u2) == select_from(u2, r2, Set::empty()));
}

/// For a two-user collection under a scorer that is symmetric on them,
/// swapping the input order changes neither the committed pairing nor its
/// score: both orders commit exactly one match over the same two identities,
/// ties included. (With more users, [`lemma_swap_users_matches`] proves the
/// same order-independence whenever no two candidate pairs score equally;
/// with tied scores, swapping the input can change which equally-scored
/// pair the greedy walk commits.)
pub proof fn lemma_swap_two_users<S: ScoringStrategy>(scorer: S, u: User, v: User)
    requires
        wf_users(seq![u, v]),
        scorer.score_spec(u, v) == scorer.score_spec(v, u),
    ensures
        matches_spec(scorer, seq![u, v]).len() == 1,
        matches_spec(scorer, seq![v, u]).len() == 1,
        match_parties(matches_spec(scorer, seq![u, v])[0]) == match_parties(
            matches_spec(scorer, seq![v, u])[0],
        ),
        matches_spec(scorer, seq![u, v])[0].score == matches_spec(scorer, seq![v, u])[0].score,
{
    lemma_two_users_single_match(scorer, seq![u, v]);
    lemma_two_users_single_match(scorer, seq![v, u]);
    assert(wf_users(seq![v, u])) by {
        assert(seq![v, u][0] == v && seq![v, u][1] == u);
        assert(seq![u, v][0] == u && seq![u, v][1] == v);
    }
    assert(match_parties(matches_spec(scorer, seq![u, v])[0]) =~= match_parties(
        matches_spec(scorer, seq![v, u])[0],
    ));
}

/// A two-user collection yields exactly one match: the two users, with their
/// pair's score, first-listed user on the left.
proof fn lemma_two_users_single_match<S: ScoringStrategy>(scorer: S, users: Seq<User>)
    requires
        users.len() == 2,
        users.len() <= usize::MAX,
    ensures
        matches_spec(scorer, users).len() == 1,
        matches_spec(scorer, users)[0].user_a == users[0].id@,
        matches_spec(scorer, users)[0].user_b == users[1].id@,
        matches_spec(scorer, users)[0].score == scorer.score_spec(users[0], users[1]) as i128,
{
    let p = pair_for(scorer, users, 0, 1);
    let all = all_pairs(scorer, users);
    assert(row_pairs(scorer, users, 0, 1) =~= Seq::<ScoredPair>::empty());
    assert(row_pairs(scorer, users, 0, 2) == row_pairs(scorer, users, 0, 1).push(p));
    assert(row_pairs(scorer, users, 1, 2) =~= Seq::<ScoredPair>::empty());
    assert(pairs_below(scorer, users, 0) =~= Seq::<ScoredPair>::empty());
    assert(pairs_below(scorer, users, 1) == pairs_below(scorer, users, 0) + row_pairs(
        scorer,
        users,
        0,
        2,
    ));
    assert(pairs_below(scorer, users, 2) == pairs_below(scorer, users, 1) + row_pairs(
        scorer,
        users,
        1,
        2,
    ));
    assert(all =~= seq![p]);
    crate::pairs::lemma_pair_order_total();
    all.lemma_sort_by_ensures(pair_order());
    let ranked = all.sort_by(pair_order());
    all.to_multiset_ensures();
    ranked.to_multiset_ensures();
    assert(ranked.len() == 1);
    assert(ranked.contains(ranked[0]));
    assert(all.to_multiset().count(ranked[0]) > 0);
    assert(all.contains(ranked[0]));
    assert(ranked[0] == p);
    let matched = Set::<int>::empty();
    let sel = select_from(users, ranked, matched);
    assert(ranked.drop_first() =~= Seq::<ScoredPair>::empty());
    assert(sel == seq![
        MatchView { user_a: users[0].id@, user_b: users[1].id@, score: p.score },
    ] + select_from(users, ranked.drop_first(), matched.insert(0).insert(1)));
}

/// The simple difference scorer is symmetric: the score does not depend on
/// the order of its two arguments.
pub proof fn lemma_simple_difference_symmetric(s: crate::SimpleDifferenceScorer, a: User, b: User)
    ensures
        s.score_spec(a, b) == s.score_spec(b, a),
{
    let k = crate::scoring::shared_dims(a.opinions@, b.opinions@);
    assert(crate::scoring::shared_dims(b.opinions@, a.opinions@) == k);
    lemma_diff_sum_symmetric(a.opinions@, b.opinions@, k);
}

/// The per-dimension difference sum is symmetric in its two vectors.
proof fn lemma_diff_sum_symmetric(a: Seq<i32>, b: Seq<i32>, k: int)
    ensures
        crate::scoring::diff_sum(a, b, k) == crate::scoring::diff_sum(b, a, k),
    decreases k,
{
    if k > 0 {
        lemma_diff_sum_symmetric(a, b, k - 1);
    }
}

/// A permutation of well-formed candidate pairs is well-formed.
proof fn lemma_wf_pairs_permutation(a: Seq<ScoredPair>, b: Seq<ScoredPair>, n: int)
    requires
        wf_pairs(a, n),
        a.to_multiset() == b.to_multiset(),
    ensures
        wf_pairs(b, n),
{
    a.to_multiset_ensures();
    b.to_multiset_ensures();
    assert forall|k: int| 0 <= k < b.len() implies (#[trigger] b[k]).i < b[k].j && b[k].j
        < n by {
        assert(b.contains(b[k]));
        assert(b.to_multiset().count(b[k]) > 0);
        assert(a.contains(b[k]));
        let m = choose|m: int| 0 <= m < a.len() && a[m] == b[k];
        assert(a[m].i < a[m].j && a[m].j < n);
    }
}

} // verus!
