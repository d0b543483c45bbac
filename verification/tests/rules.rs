use partition_election::ballots::Fcs;
use partition_election::proving::axioms::names::{
    all_axiom_names, axiom_kind, condition_generator, get_axiom_full_name,
    get_axiom_short_name, get_type, num_cases, AxiomKind,
};
use partition_election::proving::axioms::{condition, AxiomType, Majority, Nonimposition};
use partition_election::proving::engine::{Proof, SatResult, Search, Step};
use partition_election::proving::formula::{int_var, Formula, IntTerm, RealTerm};
use partition_election::proving::profile::{Profile, ProfileError, VoteCount};
use partition_election::proving::rule::names::{all_rule_names, get_rule_name};
use partition_election::proving::rule::rule_trait::{tied, winner, zero_votes};
use partition_election::proving::rule::{Borda, Copeland, Scoring, VotingRule};
use partition_election::structures::{Partition, Ranking, Structure};

fn untied_ranking(partitions: &Vec<Partition>) -> Ranking {
    Ranking { ranking: partitions.iter().map(|x| vec![x.clone()]).collect() }
}

#[test]
fn test_borda_score_1() {
    let m = 3;
    let partitions = Partition::all(m);
    let num_partitions = partitions.len();
    let ranking = untied_ranking(&partitions);

    let votes = vec![(ranking, 2)];

    let profile = Profile::from_custom(3, votes).unwrap();

    let borda = Borda::new(3);

    for (i, partition) in partitions.iter().enumerate() {
        let score: RealTerm = borda.score(partition, &profile, None);
        assert_eq!(
            score.evaluate().unwrap().to_string(),
            ((num_partitions - 1 - i) * 2).to_string()
        );
    }
}

#[test]
fn test_borda_score_2() {
    let m = 3;
    let partitions = Partition::all(m);
    let num_partitions = partitions.len();
    let ranking = Ranking { ranking: vec![partitions.clone()] };

    let votes = vec![(ranking, 2)];

    let profile = Profile::from_custom(3, votes).unwrap();

    let borda = Borda::new(3);

    for (_i, partition) in partitions.iter().enumerate() {
        let score: RealTerm = borda.score(partition, &profile, None);
        assert_eq!(
            score.evaluate().unwrap().to_string(),
            ((num_partitions - 1) * 2).to_string()
        );
    }
}

#[test]
fn borda_counts_an_extra_vote() {
    let partitions = Partition::all(2);
    let ranking = untied_ranking(&partitions);
    let profile = Profile::from_custom(2, vec![(ranking.clone(), 3)]).unwrap();
    let borda = Borda::new(2);
    let extra = vec![(ranking, VoteCount::Fixed(1))];
    let score = borda.score(&partitions[0], &profile, Some(&extra));
    assert_eq!(score.evaluate(), Some(4));
    let score = borda.score(&partitions[1], &profile, Some(&extra));
    assert_eq!(score.evaluate(), Some(0));
}

#[test]
fn copeland_counts_the_pairwise_wins() {
    let partitions = Partition::all(3);
    let ranking = untied_ranking(&partitions);
    let mut back = partitions.clone();
    back.reverse();
    let other = untied_ranking(&back);
    let profile = Profile::from_custom(3, vec![(ranking, 2), (other, 1)]).unwrap();
    let copeland = Copeland::new(3);
    for (i, partition) in partitions.iter().enumerate() {
        let score = copeland.score(partition, &profile, None);
        assert_eq!(score.evaluate(), Some((partitions.len() - 1 - i) as i128));
    }
}

#[test]
fn a_score_with_variables_has_no_value() {
    let rankings = Fcs::generate_all_rankings(3);
    let profile = Profile::from_ballot(3, rankings);
    let borda = Borda::new(3);
    let score = borda.score(&Partition::all(3)[0], &profile, None);
    assert_eq!(score.evaluate(), None);
}

#[test]
fn profiles_of_ballots_have_one_variable_for_each_ranking() {
    let rankings = Fcs::generate_all_rankings(3);
    let profile = Profile::from_ballot(3, rankings.clone());
    assert_eq!(profile.votes.len(), 7);
    assert_eq!(profile.partitions.len(), 5);
    assert_eq!(profile.coalitions.len(), 7);
    assert_eq!(profile.candidates.len(), 3);
    assert_eq!(profile.num_candidates, 3);
    assert_eq!(profile.var_names(), vec!["k_0", "k_1", "k_2", "k_3", "k_4", "k_5", "k_6"]);
    for (i, (ranking, _)) in profile.votes.iter().enumerate() {
        assert_eq!(ranking, &rankings[i]);
    }
    let part = profile.create_new("'");
    assert_eq!(part.var_names()[3], "k_3'");
    assert_eq!(part.votes.len(), 7);
    assert_eq!(profile.all_vars().len(), 7);
}

#[test]
fn profiles_without_votes_or_with_too_many_are_refused() {
    assert_eq!(Profile::from_custom(3, Vec::new()).err(), Some(ProfileError::NoVotes));
    let ranking = Ranking { ranking: vec![Partition::all(3)] };
    assert_eq!(
        Profile::from_custom(3, vec![(ranking.clone(), usize::MAX)]).err(),
        Some(ProfileError::CountTooLarge)
    );
    let profile = Profile::from_custom(3, vec![(ranking.clone(), 4), (ranking, 6)]).unwrap();
    assert_eq!(profile.votes.len(), 1);
    assert_eq!(profile.num_candidates, 3);
}

#[test]
fn statements_of_a_profile() {
    let ranking = Ranking { ranking: vec![Partition::all(2)] };
    let profile = Profile::from_custom(2, vec![(ranking.clone(), 4)]).unwrap();
    match profile.vars_nonnegative() {
        Formula::And(parts) => assert_eq!(parts.len(), 1),
        _ => panic!("a conjunction"),
    }
    match profile.vars_sum_positive() {
        Formula::IntGt(sum, zero) => {
            assert_eq!(sum.evaluate(), Some(4));
            assert_eq!(zero.evaluate(), Some(0));
        },
        _ => panic!("a comparison"),
    }
    let borda = Borda::new(2);
    match zero_votes(&borda, &ranking, &profile, None) {
        Formula::IntEq(votes, zero) => {
            assert_eq!(votes.evaluate(), Some(4));
            assert_eq!(zero.evaluate(), Some(0));
        },
        _ => panic!("an equation"),
    }
    match winner(&borda, &Partition::all(2)[0], &profile, None) {
        Formula::And(parts) => assert_eq!(parts.len(), 2),
        _ => panic!("a conjunction"),
    }
    match tied(&borda, &Partition::all(2)[0], &Partition::all(2)[1], &profile, None) {
        Formula::RealEq(a, b) => assert_eq!(a.evaluate(), b.evaluate()),
        _ => panic!("an equation"),
    }
}

#[test]
fn terms_are_evaluated() {
    let sum = IntTerm::Sum(vec![IntTerm::Lit(2), IntTerm::Lit(5)]);
    assert_eq!(sum.evaluate(), Some(7));
    let product = IntTerm::Prod(Box::new(IntTerm::Lit(-3)), Box::new(sum));
    assert_eq!(product.evaluate(), Some(-21));
    let choice = IntTerm::IfGreater(
        Box::new(IntTerm::Lit(1)),
        Box::new(IntTerm::Lit(0)),
        Box::new(IntTerm::Lit(10)),
        Box::new(IntTerm::Lit(20)),
    );
    assert_eq!(choice.evaluate(), Some(10));
    assert_eq!(IntTerm::Var("k_0".to_string()).evaluate(), None);
    assert_eq!(int_var("k_1".to_string()).evaluate(), None);
    assert!(matches!(int_var("k_1".to_string()), IntTerm::Var(name) if name == "k_1"));
    assert_eq!(IntTerm::Sum(Vec::new()).evaluate(), Some(0));
    let difference = IntTerm::Diff(Box::new(IntTerm::Lit(1)), Box::new(IntTerm::Lit(4)));
    assert_eq!(RealTerm::OfInt(difference).evaluate(), Some(-3));
}

#[test]
fn scoring_rule_has_a_variable_for_every_class() {
    let types = vec![vec![1, 4], vec![5, 0]];
    let rule = Scoring::create(3, types);
    assert_eq!(rule.get_score_vector(&vec![1, 4]), &vec!["score_1-4_0", "score_1-4_1"]);
    assert_eq!(rule.get_score_vector(&vec![5, 0]), &vec!["score_5-0_0", "score_5-0_1"]);
    assert_eq!(rule.alternatives, 5);
    assert_eq!(Scoring::name(), "scoring");
    let rankings = Fcs::generate_all_rankings(3);
    let types: Vec<Vec<usize>> = rankings.iter().map(|r| r.order_type()).collect();
    let rule = Scoring::create(3, types);
    let profile = Profile::from_ballot(3, rankings);
    match rule.score(&Partition::all(3)[0], &profile, None) {
        RealTerm::Sum(parts) => assert_eq!(parts.len(), 7),
        _ => panic!("a sum"),
    }
}

#[test]
fn rules_by_name() {
    assert_eq!(all_rule_names(), vec!["borda", "copeland"]);
    assert_eq!(get_rule_name("Borda"), Some("borda"));
    assert_eq!(get_rule_name("COPELAND"), Some("copeland"));
    assert_eq!(get_rule_name("plurality"), None);
    assert_eq!(Borda::name(), "borda");
    assert_eq!(Copeland::name(), "copeland");
}

#[test]
fn axioms_by_name() {
    assert_eq!(all_axiom_names().len(), 14);
    assert_eq!(all_axiom_names()[0], ("unam", "unanimity"));
    assert_eq!(axiom_kind("MAJ"), Some(AxiomKind::Majority));
    assert_eq!(axiom_kind("strictly-all-split"), Some(AxiomKind::StrictAllSplit));
    assert_eq!(axiom_kind("fcs"), Some(AxiomKind::FullCoalitionSupport));
    assert_eq!(axiom_kind("nothing"), None);
    assert_eq!(get_axiom_short_name("majority"), Some("maj"));
    assert_eq!(get_axiom_full_name("snoim"), Some("strong-nonimposition"));
    assert_eq!(get_axiom_full_name("x"), None);
    assert_eq!(get_type::<Borda>(AxiomKind::Nonimposition), AxiomType::Exists);
    assert_eq!(get_type::<Borda>(AxiomKind::Strongnonimposition), AxiomType::Exists);
    assert_eq!(get_type::<Borda>(AxiomKind::Majority), AxiomType::Forall);
}

fn fcs_profile() -> Profile {
    Profile::from_ballot(3, Fcs::generate_all_rankings(3))
}

#[test]
fn axioms_have_their_cases() {
    let profile = fcs_profile();
    let borda = Borda::new(3);
    let expected = [
        (AxiomKind::Unanimity, 32, 31),
        (AxiomKind::Consistency, 32, 31),
        (AxiomKind::FullCoalitionSupport, 7, 7),
        (AxiomKind::Majority, 5, 5),
        (AxiomKind::Nonimposition, 5, 5),
        (AxiomKind::Strongnonimposition, 32, 31),
        (AxiomKind::StrictSomeSplit, 7, 6),
        (AxiomKind::StrictAllSplit, 7, 6),
        (AxiomKind::WeakSomeSplit, 7, 6),
        (AxiomKind::WeakAllSplit, 7, 6),
        (AxiomKind::WeakPairSupport, 9, 6),
        (AxiomKind::StrongPairSupport, 9, 6),
        (AxiomKind::Strategyproof, 245, 150),
    ];
    for (kind, cases, kept) in expected {
        assert_eq!(num_cases::<Borda>(kind, &profile), cases);
        let made = (0..cases)
            .filter(|i| condition_generator(kind, &profile, &borda, *i).is_some())
            .count();
        assert_eq!(made, kept, "{:?}", kind);
    }
    // a voter with a ranking of two classes likes the partitions of the
    // second class less than those of the first, and none less than those
    assert_eq!(num_cases::<Borda>(AxiomKind::Participation, &profile), 35);
    let made = (0..35)
        .filter(|i| condition_generator(AxiomKind::Participation, &profile, &borda, *i).is_some())
        .count();
    assert_eq!(made, 3 * 2 + 4 * 1);
}

#[test]
fn statements_are_implications_or_winner_statements() {
    let profile = fcs_profile();
    let borda = Borda::new(3);
    assert_eq!(condition::<Borda, Majority>(&profile, &borda).len(), 5);
    for f in condition::<Borda, Majority>(&profile, &borda) {
        assert!(matches!(f, Formula::Implies(_, _)));
    }
    for f in condition::<Borda, Nonimposition>(&profile, &borda) {
        match f {
            Formula::And(parts) => assert_eq!(parts.len(), 4),
            _ => panic!("a conjunction"),
        }
    }
}

#[test]
fn batch_query_has_one_statement_for_all_and_one_for_each_witness() {
    let mut proof = Proof::new(3, Borda::new(3), fcs_profile());
    proof.add_axiom_kind(AxiomKind::Majority);
    proof.add_axiom_kind(AxiomKind::Nonimposition);
    proof.add_axiom::<Majority>();
    assert_eq!(proof.forall_conditions.len(), 10);
    assert_eq!(proof.exists_conditions.len(), 5);
    let query = proof.check();
    assert_eq!(query.len(), 6);
    match &query[0] {
        Formula::ForAll(names, _) => assert_eq!(names.len(), 7),
        _ => panic!("a statement for all counts"),
    }
    for q in &query[1..] {
        match q {
            Formula::Exists(names, _) => assert_eq!(names.len(), 7),
            _ => panic!("a statement for some counts"),
        }
    }
}

fn count_queries(kind: AxiomKind, answers: &[SatResult]) -> (usize, SatResult) {
    let proof = Proof::new(3, Borda::new(3), fcs_profile());
    let (mut search, mut step): (Search, Step) = proof.check_iteratively_kind(kind);
    let mut asked = 0;
    loop {
        match step {
            Step::Done(result) => {
                assert!(search.finished);
                return (asked, result);
            },
            Step::Ask(query) => {
                assert_eq!(query.len(), 3);
                let answer = answers[asked];
                asked += 1;
                let next = proof.resume_kind(kind, search, answer);
                search = next.0;
                step = next.1;
            },
        }
    }
}

#[test]
fn search_stops_at_the_first_counterexample() {
    let (sat, unknown, unsat) = (SatResult::Sat, SatResult::Unknown, SatResult::Unsat);
    // a statement that must hold is refuted by a satisfiable negation
    assert_eq!(count_queries(AxiomKind::Majority, &[sat, unsat, unsat, unsat, unsat]), (1, unsat));
    assert_eq!(count_queries(AxiomKind::Majority, &[unsat, unsat, sat, unsat, unsat]), (3, unsat));
    assert_eq!(count_queries(AxiomKind::Majority, &[unsat; 5]), (5, sat));
    assert_eq!(count_queries(AxiomKind::Majority, &[unsat, unknown, sat, sat, sat]), (2, unknown));
    // a statement that must be satisfiable fails where it cannot hold
    assert_eq!(count_queries(AxiomKind::Nonimposition, &[sat; 5]), (5, sat));
    assert_eq!(count_queries(AxiomKind::Nonimposition, &[sat, unsat, sat, sat, sat]), (2, unsat));
    assert_eq!(count_queries(AxiomKind::Nonimposition, &[unknown; 5]), (1, unknown));
    // cases that ask nothing are passed over
    assert_eq!(count_queries(AxiomKind::Unanimity, &[unsat; 31]), (31, sat));
}

#[test]
fn witness_is_described_line_by_line() {
    let proof = Proof::new(2, Borda::new(2), Profile::from_ballot(2, Ranking::all(2)));
    let lines = proof.get_profile(&vec![Some(3), Some(0), None]);
    assert_eq!(lines, vec!["3 -> {{a}, {b}} > {{a, b}}", "? -> {{a, b}} > {{a}, {b}}"]);
}

#[test]
fn evaluation_gives_the_value_or_nothing() {
    let big = || IntTerm::Lit(i64::MAX);
    let square = IntTerm::Prod(Box::new(big()), Box::new(big()));
    assert_eq!(square.evaluate(), Some((i64::MAX as i128) * (i64::MAX as i128)));
    // the third power is no number of 128 bits
    let cube = IntTerm::Prod(Box::new(square), Box::new(big()));
    assert_eq!(cube.evaluate(), None);
    // only the chosen part of a choice is looked at
    let choice = IntTerm::IfGreater(
        Box::new(IntTerm::Lit(0)),
        Box::new(IntTerm::Lit(1)),
        Box::new(IntTerm::Var("n".to_string())),
        Box::new(IntTerm::Lit(7)),
    );
    assert_eq!(choice.evaluate(), Some(7));
    let other = IntTerm::IfGreater(
        Box::new(IntTerm::Lit(2)),
        Box::new(IntTerm::Lit(1)),
        Box::new(IntTerm::Var("n".to_string())),
        Box::new(IntTerm::Lit(7)),
    );
    assert_eq!(other.evaluate(), None);
    // a variable or a quotient among the terms of a sum leaves no value
    let sum = IntTerm::Sum(vec![IntTerm::Lit(1), IntTerm::Var("n".to_string()), IntTerm::Lit(2)]);
    assert_eq!(sum.evaluate(), None);
    let quotient = IntTerm::Quot(Box::new(IntTerm::Lit(6)), Box::new(IntTerm::Lit(3)));
    assert_eq!(quotient.evaluate(), None);
    // a real term has a value where it is an integer term that has one
    assert_eq!(RealTerm::OfInt(IntTerm::Lit(-4)).evaluate(), Some(-4));
    assert_eq!(RealTerm::OfInt(IntTerm::Var("n".to_string())).evaluate(), None);
    assert_eq!(RealTerm::Var("s".to_string()).evaluate(), None);
    assert_eq!(RealTerm::Sum(vec![RealTerm::OfInt(IntTerm::Lit(1))]).evaluate(), None);
}
