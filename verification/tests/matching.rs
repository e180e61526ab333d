use rust_matcher::{GreedyMatcher, Match, SimpleDifferenceScorer, User};

fn user(id: &str, opinions: Vec<i32>) -> User {
    User::new(id.to_string(), opinions).unwrap()
}

#[test]
fn test_greedy_matcher_creation() {
    let scorer = SimpleDifferenceScorer;
    let _matcher = GreedyMatcher::new(scorer);
    // Just testing it compiles and creates
}

#[test]
fn user_construction_rejects_empty_vector() {
    assert!(User::new("a".to_string(), vec![]).is_none());
    let u = User::new("a".to_string(), vec![1, 2]).unwrap();
    assert_eq!(u.id, "a");
    assert_eq!(u.opinions, vec![1, 2]);
}

#[test]
fn match_construction_keeps_fields() {
    let m = Match::new("x".to_string(), "y".to_string(), 7);
    assert_eq!(m.user_a, "x");
    assert_eq!(m.user_b, "y");
    assert_eq!(m.score, 7);
}

#[test]
fn four_users_two_matches_highest_first() {
    let users = vec![
        user("A", vec![1, 2, 3]),
        user("B", vec![7, 6, 5]),
        user("C", vec![4, 4, 4]),
        user("D", vec![1, 7, 1]),
    ];
    let matcher = GreedyMatcher::new(SimpleDifferenceScorer);
    let matches = matcher.find_matches(&users);
    assert_eq!(matches.len(), 2);
    assert_eq!(matches[0].user_a, "A");
    assert_eq!(matches[0].user_b, "B");
    assert_eq!(matches[0].score, 12);
    assert_eq!(matches[1].user_a, "C");
    assert_eq!(matches[1].user_b, "D");
    assert_eq!(matches[1].score, 9);
    assert!(matches[0].score > matches[1].score);
    let mut ids: Vec<String> = vec![
        matches[0].user_a.clone(),
        matches[0].user_b.clone(),
        matches[1].user_a.clone(),
        matches[1].user_b.clone(),
    ];
    ids.sort();
    ids.dedup();
    assert_eq!(ids.len(), 4);
}

#[test]
fn three_users_one_match_one_left_over() {
    let users = vec![
        user("X", vec![0, 0]),
        user("Y", vec![10, 10]),
        user("Z", vec![1, 1]),
    ];
    let matcher = GreedyMatcher::new(SimpleDifferenceScorer);
    let matches = matcher.find_matches(&users);
    assert_eq!(matches.len(), 1);
    assert_eq!(matches[0].user_a, "X");
    assert_eq!(matches[0].user_b, "Y");
    assert_eq!(matches[0].score, 20);
    assert_ne!(matches[0].user_a, "Z");
    assert_ne!(matches[0].user_b, "Z");
}

#[test]
fn identical_users_still_match() {
    let users = vec![user("a", vec![3, 3, 3]), user("b", vec![3, 3, 3])];
    let matcher = GreedyMatcher::new(SimpleDifferenceScorer);
    let matches = matcher.find_matches(&users);
    assert_eq!(matches.len(), 1);
    assert_eq!(matches[0].user_a, "a");
    assert_eq!(matches[0].user_b, "b");
    assert_eq!(matches[0].score, 0);
}

#[test]
fn fewer_than_two_users_no_matches() {
    let matcher = GreedyMatcher::new(SimpleDifferenceScorer);
    let none: Vec<User> = vec![];
    assert!(matcher.find_matches(&none).is_empty());
    let one = vec![user("solo", vec![1])];
    assert!(matcher.find_matches(&one).is_empty());
}

#[test]
fn match_count_is_half_the_users() {
    let matcher = GreedyMatcher::new(SimpleDifferenceScorer);
    let mut users: Vec<User> = Vec::new();
    for n in 0..7usize {
        assert_eq!(matcher.find_matches(&users).len(), n / 2);
        let mut id = String::from("u");
        id.push_str(&n.to_string());
        users.push(user(&id, vec![n as i32, 2 * n as i32]));
    }
}

#[test]
fn no_user_id_appears_twice() {
    let users = vec![
        user("p", vec![5, 1]),
        user("q", vec![0, 9]),
        user("r", vec![7, 7]),
        user("s", vec![2, 2]),
        user("t", vec![9, 0]),
    ];
    let matcher = GreedyMatcher::new(SimpleDifferenceScorer);
    let matches = matcher.find_matches(&users);
    assert_eq!(matches.len(), 2);
    let mut ids: Vec<String> = Vec::new();
    for m in &matches {
        assert_ne!(m.user_a, m.user_b);
        ids.push(m.user_a.clone());
        ids.push(m.user_b.clone());
    }
    let total = ids.len();
    ids.sort();
    ids.dedup();
    assert_eq!(ids.len(), total);
}

#[test]
fn rerunning_gives_identical_output() {
    let users = vec![
        user("a", vec![1, 2, 3]),
        user("b", vec![7, 6, 5]),
        user("c", vec![4, 4, 4]),
        user("d", vec![1, 7, 1]),
        user("e", vec![0, 0, 0]),
    ];
    let matcher = GreedyMatcher::new(SimpleDifferenceScorer);
    let first = matcher.find_matches(&users);
    let second = matcher.find_matches(&users);
    assert_eq!(first, second);
}

#[test]
fn equal_scores_resolve_by_enumeration_order() {
    // All pairwise scores are 0, so ties resolve by input order: the first
    // two users pair up, then the next two.
    let users = vec![
        user("w", vec![4]),
        user("x", vec![4]),
        user("y", vec![4]),
        user("z", vec![4]),
    ];
    let matcher = GreedyMatcher::new(SimpleDifferenceScorer);
    let matches = matcher.find_matches(&users);
    assert_eq!(matches.len(), 2);
    assert_eq!(matches[0].user_a, "w");
    assert_eq!(matches[0].user_b, "x");
    assert_eq!(matches[1].user_a, "y");
    assert_eq!(matches[1].user_b, "z");
}

fn unordered(matches: &[Match]) -> Vec<(String, String, i128)> {
    let mut out: Vec<(String, String, i128)> = Vec::new();
    for m in matches {
        if m.user_a <= m.user_b {
            out.push((m.user_a.clone(), m.user_b.clone(), m.score));
        } else {
            out.push((m.user_b.clone(), m.user_a.clone(), m.score));
        }
    }
    out.sort();
    out
}

#[test]
fn swapping_input_order_keeps_committed_pairs() {
    // All pairwise scores are distinct, so no tie-break is involved and the
    // committed pairings must not depend on the input order.
    let a = user("a", vec![0, 0]);
    let b = user("b", vec![100, 100]);
    let c = user("c", vec![3, 4]);
    let d = user("d", vec![60, 50]);
    let matcher = GreedyMatcher::new(SimpleDifferenceScorer);
    let original = vec![a.clone(), b.clone(), c.clone(), d.clone()];
    let swapped = vec![a, d, c, b];
    let first = matcher.find_matches(&original);
    let second = matcher.find_matches(&swapped);
    assert_eq!(unordered(&first), unordered(&second));
}

#[test]
fn mismatched_lengths_truncate_to_shorter() {
    let users = vec![user("long", vec![1, 2, 3]), user("short", vec![5])];
    let matcher = GreedyMatcher::new(SimpleDifferenceScorer);
    let matches = matcher.find_matches(&users);
    assert_eq!(matches.len(), 1);
    assert_eq!(matches[0].score, 4);
}

#[test]
fn negative_opinions_score_by_absolute_difference() {
    let users = vec![user("neg", vec![-5, -1]), user("pos", vec![5, 1])];
    let matcher = GreedyMatcher::new(SimpleDifferenceScorer);
    let matches = matcher.find_matches(&users);
    assert_eq!(matches.len(), 1);
    assert_eq!(matches[0].score, 12);
}
