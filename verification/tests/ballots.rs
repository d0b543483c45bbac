use std::collections::BTreeSet;

use partition_election::ballots::cs::Scores;
use partition_election::ballots::names::{all_ballot_names, kind_of, name_to_full_name, BallotKind};
use partition_election::ballots::ps::PairScores;
use partition_election::ballots::utils::{keep_feasible, ranking_from_scores};
use partition_election::proving::engine::SatResult;
use partition_election::ballots::{Ballot, Cs, Fcs, Fcw, Fp, Pa, Ps};
use partition_election::structures::{Candidate, Coalition, Partition, Ranking, Structure};
use partition_election::utils::unordered_pair::UnorderedPair;

fn as_set(rankings: Vec<Ranking>) -> BTreeSet<Ranking> {
    rankings.into_iter().collect()
}

fn coalition(names: &[&str]) -> Coalition {
    Coalition::from_members(names.iter().map(|n| Candidate::from_str(n)).collect())
}

#[test]
fn test_pa() {
    let m = 3;
    let num_partitions = 5;

    let rankings = Pa::generate_all_rankings(m);

    assert_eq!(rankings.len(), (2usize).pow(num_partitions as u32) - 1);
}

#[test]
fn test_fcs() {
    let m = 3;

    let rankings = Fcs::generate_all_rankings(m);

    assert_eq!(rankings.len(), (2usize).pow(m as u32) - 1);
}

#[test]
fn test_fcw() {
    let m = 3;

    let rankings = Fcw::generate_all_rankings(m);

    assert_eq!(rankings.len(), 5);
}

#[test]
fn test_fp() {
    let m = 3;

    let rankings = Fp::generate_all_rankings(m);

    assert_eq!(rankings.len(), 5);
}

#[test]
fn test_expressive() {
    let m = 3;
    let rankings_pa = as_set(Pa::generate_all_rankings(m));
    let rankings_fcs = as_set(Fcs::generate_all_rankings(m));
    let rankings_fcw = as_set(Fcw::generate_all_rankings(m));
    let rankings_fp = as_set(Fp::generate_all_rankings(m));

    assert!(rankings_pa.is_superset(&rankings_fcs));
    assert!(rankings_pa.is_superset(&rankings_fcw));
    assert!(rankings_fcs.intersection(&rankings_fcw).count() > 0);
    assert!(!rankings_fcs.is_subset(&rankings_fcw));
    assert!(!rankings_fcw.is_subset(&rankings_fcs));
    assert!(!rankings_pa.is_subset(&rankings_fp));
    assert!(!rankings_fp.is_subset(&rankings_pa));
}

#[test]
fn generated_rankings_are_in_order_without_repeats() {
    for rankings in [
        Pa::generate_all_rankings(3),
        Fcs::generate_all_rankings(3),
        Fcw::generate_all_rankings(3),
        Fp::generate_all_rankings(3),
    ] {
        for pair in rankings.windows(2) {
            assert!(pair[0] < pair[1]);
        }
    }
}

#[test]
fn ranking_from_scores_groups_and_orders() {
    let all = Partition::all(3);
    let scores: Vec<(Partition, i128)> = vec![
        (all[0].clone(), 2),
        (all[1].clone(), 0),
        (all[2].clone(), 2),
        (all[3].clone(), -1),
        (all[4].clone(), 0),
    ];
    let rising = ranking_from_scores(scores.clone(), false);
    assert_eq!(
        rising.ranking,
        vec![
            vec![all[3].clone()],
            vec![all[1].clone(), all[4].clone()],
            vec![all[0].clone(), all[2].clone()],
        ]
    );
    let falling = ranking_from_scores(scores, true);
    assert_eq!(
        falling.ranking,
        vec![
            vec![all[0].clone(), all[2].clone()],
            vec![all[1].clone(), all[4].clone()],
            vec![all[3].clone()],
        ]
    );
    assert_eq!(ranking_from_scores(Vec::new(), true).ranking.len(), 0);
}

#[test]
fn coalition_scores_rank_by_the_sum() {
    let ballot: Scores = vec![(coalition(&["a", "b"]), 3), (coalition(&["c"]), 1), (coalition(&["a"]), -2)];
    let ranking = Cs::new(&ballot, 3).get_ranking();
    // {{a, b}, {c}} has 4, {{a}, {b, c}} and {{a}, {b}, {c}} have -2 and -1
    assert_eq!(
        ranking.to_string(),
        "{{a, b}, {c}} > {{a, b, c}} ~ {{a, c}, {b}} > {{a}, {b}, {c}} > {{a}, {b, c}}"
    );
}

#[test]
fn pairwise_scores_rank_by_the_sum() {
    let a = Candidate::from_str("a");
    let b = Candidate::from_str("b");
    let c = Candidate::from_str("c");
    let ballot: PairScores = vec![
        (UnorderedPair::new(b.clone(), a.clone()), 5),
        (UnorderedPair::new(a.clone(), c.clone()), -1),
    ];
    let ranking = Ps::new(&ballot, 3).get_ranking();
    // {a, b, c} has 5 - 1, {{a, b}, {c}} has 5, {{a, c}, {b}} has -1
    assert_eq!(
        ranking.to_string(),
        "{{a, b}, {c}} > {{a, b, c}} > {{a}, {b}, {c}} ~ {{a}, {b, c}} > {{a, c}, {b}}"
    );
}

#[test]
fn feasibility_has_a_statement_for_every_two_partitions() {
    let ranking = Fcs::new(&coalition(&["a", "b"]), 3).get_ranking();
    assert_eq!(Cs::possible_ranking(3, &ranking).len(), 10);
    assert_eq!(Ps::possible_ranking(3, &ranking).len(), 10);
}

#[test]
fn ballots_by_name() {
    assert_eq!(all_ballot_names().len(), 6);
    assert_eq!(all_ballot_names()[0], ("CS", "Coalition Scores"));
    assert_eq!(name_to_full_name("fcw"), Some("Favorite Coalition Weak"));
    assert_eq!(name_to_full_name("partition approval"), Some("Partition Approval"));
    assert_eq!(name_to_full_name("none"), None);
    assert_eq!(kind_of("PS"), Some(BallotKind::Ps));
    assert_eq!(Fcs::get_name(), "FCS");
    assert_eq!(Fp::get_full_name(), "Favorite Partition");
    assert_eq!(Pa::get_name(), "PA");
    assert_eq!(Cs::get_full_name(), "Coalition Scores");
}

#[test]
fn score_ballots_keep_their_scores() {
    let ballot: Scores = vec![(coalition(&["a", "b", "c"]), 2), (coalition(&["a"]), 1)];
    let made = Cs::new(&ballot, 3);
    assert_eq!(made.ballot, ballot);
    assert_eq!(
        made.get_ranking().to_string(),
        "{{a, b, c}} > {{a}, {b}, {c}} ~ {{a}, {b, c}} > {{a, b}, {c}} ~ {{a, c}, {b}}"
    );
    let a = Candidate::from_str("a");
    let b = Candidate::from_str("b");
    let pairs: PairScores = vec![(UnorderedPair::new(a, b), 4)];
    let made = Ps::new(&pairs, 3);
    assert_eq!(made.ballot, pairs);
    assert_eq!(made.get_ranking().order_type(), vec![2, 3]);
}

#[test]
fn rankings_are_kept_where_the_solver_says_so() {
    let all = Ranking::all(2);
    assert_eq!(all.len(), 3);
    let (sat, unsat, unknown) = (SatResult::Sat, SatResult::Unsat, SatResult::Unknown);
    let kept = keep_feasible(all.clone(), &vec![sat, unsat, sat]);
    assert_eq!(kept, Some(vec![all[0].clone(), all[2].clone()]));
    assert_eq!(keep_feasible(all.clone(), &vec![unsat, unsat, unsat]), Some(vec![]));
    assert_eq!(keep_feasible(all.clone(), &vec![sat, sat, sat]), Some(all.clone()));
    assert_eq!(keep_feasible(all.clone(), &vec![sat, unknown, sat]), None);
    assert_eq!(keep_feasible(all, &vec![unsat, sat, unknown]), None);
    assert_eq!(keep_feasible(Vec::new(), &Vec::new()), Some(vec![]));
}
