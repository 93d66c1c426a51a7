use cs50::tally::{build_pairs, margin_matrix, rank};
use cs50::tideman::{TidemanError, TidemanGraph, TidemanPair};

fn names(list: &[&str]) -> Vec<String> {
    list.iter().map(|s| s.to_string()).collect()
}

fn election(candidates: &[&str], ballots: &[&[&str]]) -> TidemanGraph {
    let mut graph = TidemanGraph::new();
    for c in candidates {
        assert!(graph.add_candidate(c.to_string()).is_ok());
    }
    for b in ballots {
        assert!(graph.record_ballot(&names(b)).is_ok());
    }
    graph.tabulate();
    graph.lock_pairs();
    graph
}

fn winner_name(graph: &TidemanGraph) -> Option<String> {
    match graph.get_winner() {
        Ok(c) => Some(c.name),
        Err(_) => None,
    }
}

#[test]
fn scenario_a_unanimous_two_candidates() {
    let graph = election(&["Alice", "Bob"], &[&["Alice", "Bob"], &["alice", "bob"], &["ALICE", "Bob"]]);
    assert_eq!(winner_name(&graph), Some("Alice".to_string()));
    assert_eq!(graph.ranked_pairs(), &vec![TidemanPair::new(0, 1, 3)]);
}

#[test]
fn scenario_b_strongest_lock_wins() {
    // Margins: A over B by 5, B over C by 1, C over A by 1. With B and C
    // registered first, the B-C pair is enumerated before the C-A pair.
    let ballots: Vec<&[&str]> = vec![
        &["A", "B", "C"],
        &["A", "B", "C"],
        &["A", "B", "C"],
        &["B", "C", "A"],
        &["C", "A", "B"],
        &["C", "A", "B"],
        &["C", "A", "B"],
    ];
    let graph = election(&["B", "C", "A"], &ballots);
    let ranked = graph.ranked_pairs();
    assert_eq!(ranked[0], TidemanPair::new(2, 0, 5));
    assert_eq!(ranked[1], TidemanPair::new(0, 1, 1));
    assert_eq!(ranked[2], TidemanPair::new(1, 2, 1));
    assert_eq!(graph.links(2), &vec![0]);
    assert_eq!(graph.links(0), &vec![1]);
    assert!(graph.links(1).is_empty());
    assert_eq!(winner_name(&graph), Some("A".to_string()));
}

#[test]
fn scenario_b_tie_break_follows_enumeration() {
    // Same ballots, registered A, B, C: the C-A pair (indices 0, 2) comes
    // before the B-C pair (1, 2), so C over A locks and B over C is refused.
    let ballots: Vec<&[&str]> = vec![
        &["A", "B", "C"],
        &["A", "B", "C"],
        &["A", "B", "C"],
        &["B", "C", "A"],
        &["C", "A", "B"],
        &["C", "A", "B"],
        &["C", "A", "B"],
    ];
    let graph = election(&["A", "B", "C"], &ballots);
    assert_eq!(graph.links(0), &vec![1]);
    assert_eq!(graph.links(2), &vec![0]);
    assert!(graph.links(1).is_empty());
    assert_eq!(winner_name(&graph), Some("C".to_string()));
}

#[test]
fn scenario_c_exact_tie_has_no_winner() {
    let graph = election(&["Ann", "Ben"], &[&["Ann", "Ben"], &["Ben", "Ann"]]);
    assert!(graph.ranked_pairs().is_empty());
    assert!(graph.links(0).is_empty());
    assert!(graph.links(1).is_empty());
    assert!(matches!(graph.get_winner(), Err(TidemanError::NoWinnerError)));
}

#[test]
fn scenario_d_repeated_name_rejected() {
    let mut graph = TidemanGraph::new();
    assert!(graph.add_candidate("A".to_string()).is_ok());
    assert!(graph.add_candidate("B".to_string()).is_ok());
    let r = graph.record_ballot(&names(&["A", "a"]));
    assert!(matches!(r, Err(TidemanError::DuplicateVoteOnBallot(ref s)) if s == "a"));
    assert_eq!(graph.ballot_count(), 0);
    graph.tabulate();
    assert!(graph.ranked_pairs().is_empty());
}

#[test]
fn unknown_and_incomplete_ballots_rejected() {
    let mut graph = TidemanGraph::new();
    assert!(graph.add_candidate("A".to_string()).is_ok());
    assert!(graph.add_candidate("B".to_string()).is_ok());
    assert!(matches!(graph.record_ballot(&names(&["A", "Z"])), Err(TidemanError::CandidateNotFoundError(ref s)) if s == "Z"));
    assert!(matches!(graph.record_ballot(&names(&["B"])), Err(TidemanError::IncompleteBallot)));
    assert_eq!(graph.ballot_count(), 0);
    assert!(graph.record_ballot(&names(&["b", "A"])).is_ok());
    assert_eq!(graph.ballot_count(), 1);
}

#[test]
fn registry_is_case_insensitive() {
    let mut graph = TidemanGraph::new();
    assert!(graph.add_candidate("Alice".to_string()).is_ok());
    assert!(matches!(graph.add_candidate("ALICE".to_string()), Err(TidemanError::CandidateAlreadyExistsError(ref s)) if s == "ALICE"));
    assert!(graph.add_candidate("Bob".to_string()).is_ok());
    assert_eq!(graph.len(), 2);
    assert!(graph.contains("bob"));
    assert!(!graph.contains("carol"));
    assert!(matches!(graph.get_candidate_id("BOB"), Ok(1)));
    assert!(matches!(graph.get_candidate_id("carol"), Err(TidemanError::CandidateNotFoundError(ref s)) if s == "carol"));
    assert_eq!(graph.name(0), "Alice");
}

#[test]
fn choose_rank_reports_duplicates() {
    let mut graph = TidemanGraph::new();
    assert!(graph.add_candidate("A".to_string()).is_ok());
    assert!(graph.add_candidate("B".to_string()).is_ok());
    assert!(matches!(graph.choose_rank(&vec![], "b"), Ok(1)));
    assert!(matches!(graph.choose_rank(&vec![1], "B"), Err(TidemanError::DuplicateVoteOnBallot(_))));
    assert!(matches!(graph.choose_rank(&vec![1], "C"), Err(TidemanError::CandidateNotFoundError(_))));
}

#[test]
fn margin_matrix_is_antisymmetric() {
    let ballots = vec![vec![0, 1, 2], vec![2, 0, 1], vec![1, 2, 0], vec![0, 2, 1]];
    let m = margin_matrix(&ballots, 3);
    assert_eq!(m, vec![vec![0, 2, 0], vec![-2, 0, 0], vec![0, 0, 0]]);
    for i in 0..3 {
        for j in 0..3 {
            assert_eq!(m[i][j], -m[j][i]);
        }
    }
}

#[test]
fn margin_matrix_exact_values() {
    let ballots = vec![vec![0, 1, 2], vec![0, 1, 2], vec![2, 1, 0]];
    let m = margin_matrix(&ballots, 3);
    assert_eq!(m[0][1], 1);
    assert_eq!(m[1][2], 1);
    assert_eq!(m[0][2], 1);
    assert_eq!(m[2][0], -1);
}

#[test]
fn build_pairs_enumerates_and_skips_zero() {
    let m = vec![vec![0, -3, 0], vec![3, 0, 2], vec![0, -2, 0]];
    let pairs = build_pairs(&m);
    assert_eq!(pairs, vec![TidemanPair::new(1, 0, 3), TidemanPair::new(1, 2, 2)]);
}

#[test]
fn rank_is_stable_and_descending() {
    let pairs = vec![
        TidemanPair::new(0, 1, 1),
        TidemanPair::new(0, 2, 4),
        TidemanPair::new(1, 2, 1),
        TidemanPair::new(3, 0, 4),
        TidemanPair::new(3, 1, 2),
    ];
    let r = rank(pairs);
    assert_eq!(
        r,
        vec![
            TidemanPair::new(0, 2, 4),
            TidemanPair::new(3, 0, 4),
            TidemanPair::new(3, 1, 2),
            TidemanPair::new(0, 1, 1),
            TidemanPair::new(1, 2, 1),
        ]
    );
    assert!(rank(vec![]).is_empty());
}

#[test]
fn lock_refuses_cycles_and_unknown_candidates() {
    let mut graph = TidemanGraph::new();
    for c in ["A", "B", "C"] {
        assert!(graph.add_candidate(c.to_string()).is_ok());
    }
    assert!(graph.lock(0, 1).is_ok());
    assert!(graph.lock(1, 2).is_ok());
    assert!(matches!(graph.lock(2, 0), Err(TidemanError::LockCreatedCycleError)));
    assert!(matches!(graph.lock(1, 1), Err(TidemanError::LockCreatedCycleError)));
    assert!(matches!(graph.lock(0, 7), Err(TidemanError::CandidateNotFoundError(ref s)) if s == "7"));
    assert!(matches!(graph.lock(12, 9), Err(TidemanError::CandidateNotFoundError(ref s)) if s == "12"));
    assert!(graph.lock(0, 2).is_ok());
    for v in 0..3 {
        assert!(!graph.has_cycles_from(v));
    }
    assert!(graph.links(2).is_empty());
    assert_eq!(graph.links(0), &vec![1, 2]);
}

#[test]
fn relocking_gives_the_same_edges() {
    let ballots: Vec<&[&str]> = vec![&["A", "B", "C"], &["B", "C", "A"], &["C", "A", "B"], &["A", "C", "B"]];
    let first = election(&["A", "B", "C"], &ballots);
    let second = election(&["A", "B", "C"], &ballots);
    for v in 0..3 {
        assert_eq!(first.links(v), second.links(v));
    }
}

#[test]
fn winner_needs_a_locked_victory() {
    let graph = election(&["A", "B", "C"], &[&["C", "B", "A"]]);
    assert_eq!(winner_name(&graph), Some("C".to_string()));
}

#[test]
fn first_bad_name_decides_the_error() {
    let mut graph = TidemanGraph::new();
    for c in ["A", "B", "C"] {
        assert!(graph.add_candidate(c.to_string()).is_ok());
    }
    let r = graph.record_ballot(&names(&["Z", "A", "A"]));
    assert!(matches!(r, Err(TidemanError::CandidateNotFoundError(ref s)) if s == "Z"));
    let r = graph.record_ballot(&names(&["A", "a", "Z"]));
    assert!(matches!(r, Err(TidemanError::DuplicateVoteOnBallot(ref s)) if s == "a"));
    assert_eq!(graph.ballot_count(), 0);
}

#[test]
fn ranked_pairs_carry_their_margins() {
    let graph = election(&["A", "B", "C"], &[&["C", "B", "A"], &["C", "A", "B"], &["B", "C", "A"]]);
    let m = margin_matrix(&vec![vec![2, 1, 0], vec![2, 0, 1], vec![1, 2, 0]], 3);
    for p in graph.ranked_pairs() {
        assert!(p.weight > 0);
        assert_eq!(p.weight, m[p.winner_id][p.loser_id]);
        assert_eq!(m[p.loser_id][p.winner_id], -p.weight);
    }
    assert_eq!(graph.ranked_pairs()[0], TidemanPair::new(2, 0, 3));
}
