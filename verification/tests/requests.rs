use partition_election::ballots::names::BallotKind;
use partition_election::ballots::{Ballot, Fcs, Fcw, Pa};
use partition_election::proving::axioms::names::{
    all_axiom_kinds, cases_fit, is_ready, AxiomKind,
};
use partition_election::proving::axioms::split::{asks_well_for, is_split_ready};
use partition_election::proving::axioms::{
    has_first_classes, is_complete, is_ready_for_one_more, is_rule_ready, product_fits, Axiom,
    Majority, WeakAllSplit,
};
use partition_election::proving::engine::{resolve_request, Proof, RequestError, Step};
use partition_election::proving::profile::Profile;
use partition_election::proving::rule::names::RuleKind;
use partition_election::proving::rule::rule_trait::can_score_all;
use partition_election::proving::rule::scoring::order_types;
use partition_election::proving::rule::{Borda, Copeland, Scoring, VotingRule};
use partition_election::structures::{Partition, Ranking, Structure};

fn strict_profile() -> Profile {
    Profile::from_ballot(3, Fcs::generate_all_rankings(3))
}

fn words(names: &[&str]) -> Vec<String> {
    names.iter().map(|n| n.to_string()).collect()
}

#[test]
fn every_axiom_can_be_stated_for_a_profile_of_ballots() {
    let profile = strict_profile();
    let borda = Borda::new(3);
    let copeland = Copeland::new(3);
    for kind in all_axiom_kinds() {
        assert!(is_ready(kind, &profile, &borda), "{:?}", kind);
        assert!(is_ready(kind, &profile, &copeland), "{:?}", kind);
        assert!(cases_fit::<Borda>(kind, &profile), "{:?}", kind);
    }
    assert!(is_rule_ready(&borda, &profile, None));
    assert!(has_first_classes(&profile));
    assert!(is_complete(&profile));
    assert!(is_ready_for_one_more(&borda, &profile));
    assert!(can_score_all(&borda, &profile, None));
}

#[test]
fn a_rule_without_scores_states_no_axiom() {
    let profile = strict_profile();
    let rule = Scoring::create(3, Vec::new());
    let first = Partition::all(3).remove(0);
    assert!(!rule.can_score(&first, &profile, None));
    assert!(!can_score_all(&rule, &profile, None));
    assert!(!is_rule_ready(&rule, &profile, None));
    assert!(!is_ready(AxiomKind::Majority, &profile, &rule));

    let mut proof = Proof::new(3, rule, profile);
    assert!(!proof.try_add_axiom(AxiomKind::Majority));
    assert!(proof.forall_conditions.is_empty());
    assert!(proof.exists_conditions.is_empty());
    assert!(proof.try_check_iteratively(AxiomKind::Majority).is_none());
}

#[test]
fn a_rule_with_the_scores_of_the_profile_states_the_axioms() {
    let profile = strict_profile();
    let types = order_types(&profile);
    assert_eq!(types, vec![vec![1, 4], vec![2, 3]]);
    let rule = Scoring::create(3, types);
    assert!(can_score_all(&rule, &profile, None));
    let mut proof = Proof::new(3, rule, profile);
    assert!(proof.try_add_axiom(AxiomKind::Majority));
    assert!(proof.try_add_axiom(AxiomKind::Nonimposition));
    assert_eq!(proof.forall_conditions.len(), 5);
    assert_eq!(proof.exists_conditions.len(), 5);
    match proof.try_check_iteratively(AxiomKind::Majority) {
        Some((search, Step::Ask(question))) => {
            assert_eq!(search.next, 1);
            assert!(!search.finished);
            assert_eq!(question.len(), 3);
        },
        _ => panic!("a first question"),
    }
}

#[test]
fn order_types_come_once_and_in_order() {
    let profile = Profile::from_ballot(2, Ranking::all(2));
    assert_eq!(order_types(&profile), vec![vec![1, 1], vec![2]]);
    // where every partition is approved the second class is empty
    let approval = Profile::from_ballot(3, Pa::generate_all_rankings(3));
    assert_eq!(
        order_types(&approval),
        vec![vec![1, 4], vec![2, 3], vec![3, 2], vec![4, 1], vec![5, 0]]
    );
}

#[test]
fn a_rule_for_other_candidates_is_not_ready() {
    let profile = strict_profile();
    let rule = Borda::new(2);
    assert!(!is_rule_ready(&rule, &profile, None));
    assert!(!is_ready(AxiomKind::Unanimity, &profile, &rule));
}

#[test]
fn products_that_fit() {
    assert!(product_fits(0, usize::MAX));
    assert!(product_fits(usize::MAX, 1));
    assert!(product_fits(1 << 16, 1 << 16));
    assert!(!product_fits(usize::MAX, 2));
    assert!(!product_fits(1 << 32, 1 << 32));
}

#[test]
fn requests_name_rule_ballot_and_axioms() {
    let request = resolve_request("Borda", "fcs", &words(&["maj", "Unanimity"]), false).unwrap();
    assert_eq!(request.rule, RuleKind::Borda);
    assert_eq!(request.ballot, BallotKind::Fcs);
    assert_eq!(request.axioms, vec![AxiomKind::Majority, AxiomKind::Unanimity]);
    assert!(!request.iteratively);

    let request = resolve_request("COPELAND", "Partition Approval", &words(&["maj"]), true).unwrap();
    assert_eq!(request.rule, RuleKind::Copeland);
    assert_eq!(request.ballot, BallotKind::Pa);
    assert_eq!(request.axioms, vec![AxiomKind::Majority]);
    assert!(request.iteratively);
}

#[test]
fn a_request_without_axioms_means_all() {
    let request = resolve_request("borda", "FP", &Vec::new(), false).unwrap();
    assert_eq!(request.axioms, all_axiom_kinds());
    assert_eq!(request.axioms.len(), 14);
}

#[test]
fn requests_are_refused() {
    let two = words(&["maj", "Unanimity"]);
    let none: Vec<String> = Vec::new();
    // a search takes one axiom, whatever the other names are
    assert_eq!(
        resolve_request("nothing", "nothing", &two, true).unwrap_err(),
        RequestError::IterativeWithMany
    );
    assert_eq!(
        resolve_request("borda", "fcs", &none, true).unwrap_err(),
        RequestError::IterativeWithMany
    );
    assert_eq!(
        resolve_request("bordas", "nothing", &two, false).unwrap_err(),
        RequestError::UnknownRule
    );
    assert_eq!(
        resolve_request("borda", "nothing", &words(&["nothing"]), false).unwrap_err(),
        RequestError::UnknownBallot
    );
    assert_eq!(
        resolve_request("borda", "fcs", &words(&["maj", "nothing", "nobody"]), false).unwrap_err(),
        RequestError::UnknownAxiom(1)
    );
}

#[test]
fn every_listed_ranking_is_read_back_from_its_text() {
    let all = Ranking::all(3);
    assert_eq!(all.len(), 541);
    for ranking in all {
        assert!(ranking.is_legal(3));
        let text = ranking.to_string();
        assert_eq!(Ranking::from_str(&text), Ok(ranking));
    }
}

#[test]
fn every_listed_partition_is_legal() {
    let expected = [1, 2, 5, 15, 52, 203];
    for (i, bell) in expected.iter().enumerate() {
        let m = i + 1;
        let all = Partition::all(m);
        assert_eq!(all.len(), *bell);
        assert!(all.iter().all(|p| p.is_legal(m)));
    }
}

#[test]
fn axioms_ballots_and_rules_know_their_names() {
    assert_eq!(<Majority as Axiom<Borda>>::short_name(), "maj");
    assert_eq!(<Majority as Axiom<Borda>>::full_name(), "majority");
    assert_eq!(<WeakAllSplit as Axiom<Copeland>>::short_name(), "splitwa");
    assert_eq!(<WeakAllSplit as Axiom<Copeland>>::full_name(), "weakly-all-split");
    assert_eq!(Fcw::get_name(), "FCW");
    assert_eq!(Fcw::get_full_name(), "Favorite Coalition Weak");
    assert_eq!(Copeland::name(), "copeland");
    assert_eq!(Scoring::name(), "scoring");
}

#[test]
fn split_axioms_ask_only_what_can_be_asked() {
    let profile = strict_profile();
    assert!(is_split_ready(&profile));
    for c in &profile.coalitions {
        let trivial = c.members.len() == 3;
        assert_eq!(asks_well_for(&profile, c), !trivial);
    }
    // rankings of the partitions of two candidates, asked about three
    let mut odd = strict_profile();
    odd.votes = Profile::from_ballot(2, Ranking::all(2)).votes;
    assert!(!is_split_ready(&odd));
    assert!(!is_ready(AxiomKind::WeakAllSplit, &odd, &Borda::new(3)));
}
