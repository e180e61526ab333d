//! Pairing of users with opposing opinions.
//!
//! The library pairs entities ("users") holding integer opinion vectors into
//! disjoint two-element groups, preferring pairs whose views diverge the most
//! as measured by a pluggable scoring strategy. The heart of the crate is
//! [`GreedyMatcher`]: it scores every unordered pair of users, orders the
//! pairs by descending score (ties resolved by the original enumeration
//! order), and greedily commits pairs whose members are both still unmatched.
//!
//! The matcher's contract pins the exact output sequence, so a run is
//! deterministic; further guarantees (every user id appears in at most one
//! match, exactly `n / 2` matches come back for `n` users) are stated and
//! proved alongside it.

mod matching;
mod pairs;
mod scoring;
mod user;

pub use matching::GreedyMatcher;
pub use matching::Match;
pub use matching::MatchView;
pub use matching::all_pairs;
pub use matching::distinct_ids;
pub use matching::ids_of;
pub use matching::lemma_matches_count;
pub use matching::lemma_matches_deterministic;
pub use matching::lemma_matches_user_disjoint;
pub use matching::lemma_select_respects_identities;
pub use matching::lemma_simple_difference_symmetric;
pub use matching::lemma_swap_two_users;
pub use matching::lemma_swap_users_matches;
pub use matching::match_parties;
pub use matching::match_views;
pub use matching::matches_spec;
pub use matching::no_shared_ids;
pub use matching::pair_parties;
pub use matching::scores_distinct;
pub use matching::select_from;
pub use matching::strictly_ranked;
pub use matching::swapped;
pub use matching::tau;
pub use matching::wf_pairs;
pub use matching::wf_users;
pub use pairs::ScoredPair;
pub use pairs::pair_le;
pub use pairs::pair_order;
pub use pairs::sort_pairs;
pub use scoring::ScoringStrategy;
pub use scoring::SimpleDifferenceScorer;
pub use scoring::abs_diff;
pub use scoring::diff_sum;
pub use scoring::shared_dims;
pub use user::User;
