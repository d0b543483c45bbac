use std::collections::BTreeSet;

use partition_election::ballots::{Ballot, Fcs, Fcw, Fp, Pa};
use partition_election::structures::ranking::IndiffTypes;
use partition_election::structures::utils::parsing::TextError;
use partition_election::structures::{Candidate, Coalition, Partition, Ranking, Structure};

fn coalition(names: &[&str]) -> Coalition {
    Coalition::from_members(names.iter().map(|n| Candidate::from_str(n)).collect())
}

fn partition(blocks: &[&[&str]]) -> Partition {
    Partition::from_coalitions(blocks.iter().map(|b| coalition(b)).collect())
}

#[test]
fn test_split1() {
    let m = 3;
    let rankings = Ranking::all(m);
    let coalitions = Coalition::all(m);
    let allowed_coalitions = coalitions
        .iter()
        .filter(|x| x.members.len() > 1 && x.members.len() < m)
        .collect::<BTreeSet<_>>();
    for ranking in rankings {
        for coalition in allowed_coalitions.iter() {
            let strict_split = ranking.is_strict_split(coalition);
            let weak_split = ranking.is_weakly_split(coalition);
            assert!(
                !(strict_split && !weak_split),
                "Strict split but not weak split"
            );
        }
    }
}

#[test]
fn test_split2() {
    let m = 3;
    let rankings = Fp::generate_all_rankings(m);
    let coalitions = Coalition::all(m);
    let allowed_coalitions = coalitions
        .iter()
        .filter(|x| x.members.len() > 1 && x.members.len() < m)
        .collect::<BTreeSet<_>>();

    for ranking in rankings {
        for coalition in &allowed_coalitions {
            let is_strict_split = ranking.is_strict_split(coalition);
            assert!(!is_strict_split)
        }
    }
}

#[test]
fn test_split3() {
    let m = 3;
    let member = Candidate {
        name: "a".to_string(),
    };
    let coalition = Coalition::from_members(vec![member]);
    let partitions = Partition::all(m);
    let ranking = Pa::new(partitions, 3).get_ranking();

    assert!(ranking.is_weakly_split(&coalition))
}

#[test]
fn a_ranking_with_one_class_splits_weakly_and_not_strictly() {
    let ranking = Ranking { ranking: vec![Partition::all(3)] };
    let pair = coalition(&["a", "b"]);
    assert!(ranking.is_weakly_split(&pair));
    assert!(!ranking.is_strict_split(&pair));
}

#[test]
fn split_kinds_of_the_classes() {
    // {a, b} is kept apart by {{a, b}, {c}} alone
    let pair = coalition(&["a", "b"]);
    let apart = partition(&[&["a", "b"], &["c"]]);
    let together = partition(&[&["a", "b", "c"]]);
    let broken = partition(&[&["a"], &["b", "c"]]);
    assert!(apart.is_split(&pair));
    assert!(!together.is_split(&pair));
    assert!(!broken.is_split(&pair));

    let strict = Ranking {
        ranking: vec![vec![apart.clone()], vec![broken.clone(), together.clone()]],
    };
    assert_eq!(strict.split_helper(&pair), vec![IndiffTypes::Split, IndiffTypes::NotSplit]);
    assert!(strict.is_strict_split(&pair));
    assert!(strict.is_weakly_split(&pair));

    let mixed = Ranking {
        ranking: vec![vec![apart.clone(), broken.clone()], vec![together.clone()]],
    };
    assert_eq!(mixed.split_helper(&pair), vec![IndiffTypes::Mixed, IndiffTypes::NotSplit]);
    assert!(!mixed.is_strict_split(&pair));
    assert!(mixed.is_weakly_split(&pair));

    let wrong = Ranking {
        ranking: vec![vec![together.clone()], vec![apart.clone()], vec![broken.clone()]],
    };
    assert!(!wrong.is_strict_split(&pair));
    assert!(!wrong.is_weakly_split(&pair));

    let with_gap = Ranking {
        ranking: vec![vec![apart], vec![], vec![together, broken]],
    };
    assert_eq!(with_gap.split_helper(&pair), vec![IndiffTypes::Split, IndiffTypes::NotSplit]);
}

#[test]
fn there_are_as_many_partitions_as_the_bell_number() {
    assert_eq!(Partition::all(1).len(), 1);
    assert_eq!(Partition::all(2).len(), 2);
    assert_eq!(Partition::all(3).len(), 5);
    assert_eq!(Partition::all(4).len(), 15);
    assert_eq!(Partition::all(5).len(), 52);
}

#[test]
fn partitions_of_three_candidates_as_text() {
    let texts: Vec<String> = Partition::all(3).iter().map(|p| p.to_string()).collect();
    assert_eq!(
        texts,
        vec![
            "{{a}, {b}, {c}}",
            "{{a}, {b, c}}",
            "{{a, b}, {c}}",
            "{{a, b, c}}",
            "{{a, c}, {b}}",
        ]
    );
}

#[test]
fn there_are_seven_coalitions_of_three_candidates() {
    let all = Coalition::all(3);
    let texts: Vec<String> = all.iter().map(|c| c.to_string()).collect();
    assert_eq!(texts, vec!["{a}", "{a, b}", "{a, b, c}", "{a, c}", "{b}", "{b, c}", "{c}"]);
    assert_eq!(Coalition::all(0).len(), 0);
    assert_eq!(Coalition::all(4).len(), 15);
}

#[test]
fn every_ranking_is_listed_once() {
    // the orders of the classes are all there: one ranking with one class and
    // two with two classes
    assert_eq!(Ranking::all(1).len(), 1);
    assert_eq!(Ranking::all(2).len(), 3);
    assert_eq!(Ranking::all(3).len(), 541);
    let texts: Vec<String> = Ranking::all(2).iter().map(|r| r.to_string()).collect();
    assert_eq!(
        texts,
        vec!["{{a}, {b}} > {{a, b}}", "{{a}, {b}} ~ {{a, b}}", "{{a, b}} > {{a}, {b}}"]
    );
}

#[test]
fn every_listed_ranking_is_legal_and_as_large_as_the_bell_number() {
    for ranking in Ranking::all(3) {
        assert!(ranking.is_legal(3));
        assert_eq!(ranking.order_type().iter().sum::<usize>(), 5);
        assert_eq!(ranking.order_type().len(), ranking.num_indifference_class());
    }
}

#[test]
fn legality() {
    assert!(coalition(&["a", "b"]).is_legal(2));
    assert!(!coalition(&["a", "b"]).is_legal(1));
    assert!(!coalition(&[]).is_legal(3));
    assert!(partition(&[&["a"], &["b", "c"]]).is_legal(3));
    assert!(!partition(&[&["a"], &["b", "c"]]).is_legal(4));
    assert!(!partition(&[]).is_legal(3));
    let short = Ranking { ranking: vec![vec![partition(&[&["a", "b", "c"]])]] };
    assert!(!short.is_legal(3));
    let one = Ranking { ranking: vec![vec![partition(&[&["a"]])]] };
    assert!(one.is_legal(1));
    assert!(!one.is_legal(2));
    let with_gap = Ranking { ranking: vec![Partition::all(3), vec![]] };
    assert!(with_gap.is_legal(3));
}

#[test]
fn text_is_read_back() {
    for ranking in Ranking::all(3) {
        let text = ranking.to_string();
        assert_eq!(Ranking::from_str(&text), Ok(ranking));
    }
    for ranking in Pa::generate_all_rankings(3) {
        let text = ranking.to_string();
        assert_eq!(Ranking::from_str(&text), Ok(ranking));
    }
    for ranking in Fcw::generate_all_rankings(3) {
        let text = ranking.to_string();
        assert_eq!(Ranking::from_str(&text), Ok(ranking));
    }
}

#[test]
fn text_with_an_empty_class_is_read_back() {
    let all = Partition::all(2);
    let ranking = Ranking { ranking: vec![all.clone(), vec![]] };
    assert_eq!(ranking.to_string(), "{{a}, {b}} ~ {{a, b}} > ");
    assert_eq!(Ranking::from_str("{{a}, {b}} ~ {{a, b}} > "), Ok(ranking));
    let ranking = Ranking { ranking: vec![vec![], all] };
    assert_eq!(ranking.to_string(), " > {{a}, {b}} ~ {{a, b}}");
    assert_eq!(Ranking::from_str(" > {{a}, {b}} ~ {{a, b}}"), Ok(ranking));
}

#[test]
fn text_that_is_no_ranking_is_refused() {
    assert_eq!(Ranking::from_str("{{a}, {b}} >"), Err(TextError::Unreadable));
    assert_eq!(Ranking::from_str("{{a}, {b}"), Err(TextError::Unreadable));
    assert_eq!(Ranking::from_str("{{a}, {b}} ~"), Err(TextError::Unreadable));
    assert_eq!(Ranking::from_str("{{a} {b}}"), Err(TextError::Unreadable));
    assert_eq!(Ranking::from_str("a > b"), Err(TextError::Unreadable));
    assert_eq!(Partition::from_str("{{a}, {b}} "), Err(TextError::Unreadable));
    assert_eq!(Coalition::from_str("{a,b}"), Err(TextError::Unreadable));
}

#[test]
fn parts_of_a_ranking_are_read() {
    assert_eq!(Coalition::from_str("{a, b}"), Ok(coalition(&["a", "b"])));
    // `{}` holds the candidate whose name has no characters
    assert_eq!(Coalition::from_str("{}"), Ok(coalition(&[""])));
    assert_eq!(Coalition::from_str("{, a}"), Ok(coalition(&["", "a"])));
    assert_eq!(Coalition::from_str("{a, }"), Err(TextError::Unreadable));
    assert_eq!(Partition::from_str("{}"), Ok(partition(&[])));
    assert_eq!(Partition::from_str("{{}}"), Ok(partition(&[&[""]])));
    assert_eq!(
        Partition::from_str("{{a, b}, {c}}"),
        Ok(partition(&[&["a", "b"], &["c"]]))
    );
    assert_eq!(Candidate::from_str("zz").name, "zz");
}

#[test]
fn text_that_is_not_in_canonical_form_is_refused() {
    // the members of a coalition stand in order, each once
    assert_eq!(Coalition::from_str("{b, a}"), Err(TextError::Unreadable));
    assert_eq!(Coalition::from_str("{a, a}"), Err(TextError::Unreadable));
    // so do the coalitions of a partition
    assert_eq!(Partition::from_str("{{c}, {a, b}}"), Err(TextError::Unreadable));
    assert_eq!(Partition::from_str("{{b, a}, {c}}"), Err(TextError::Unreadable));
    // and the partitions of a class
    assert_eq!(Ranking::from_str("{{a, b}} ~ {{a, b}}"), Err(TextError::Unreadable));
    assert_eq!(Ranking::from_str("{{a, b}} ~ {{a}, {b}}"), Err(TextError::Unreadable));
    assert!(Ranking::from_str("{{a}, {b}} ~ {{a, b}}").is_ok());
}

#[test]
fn queries_on_coalitions_and_partitions() {
    let ab = coalition(&["a", "b"]);
    let abc = coalition(&["a", "b", "c"]);
    let a = Candidate::from_str("a");
    let b = Candidate::from_str("b");
    let c = Candidate::from_str("c");
    assert!(abc.contains_weak(&ab));
    assert!(!ab.contains_weak(&abc));
    assert!(ab.contains(&a));
    assert!(!ab.contains(&c));
    assert!(ab.contains_pair(&(&a, &b)));
    assert!(!ab.contains_pair(&(&a, &c)));
    assert_eq!(abc.all_pairs().len(), 3);
    assert_eq!(ab.all_pairs().len(), 1);

    let p = partition(&[&["a", "b"], &["c"]]);
    assert!(p.contains(&ab));
    assert!(!p.contains(&abc));
    assert!(p.contains_weak(&coalition(&["a"])));
    assert!(!p.contains_weak(&coalition(&["a", "c"])));
    assert!(p.contains_pair(&(&a, &b)));
    assert!(!p.contains_pair(&(&b, &c)));
    assert_eq!(p.all_pairs().len(), 1);
    assert_eq!(partition(&[&["a", "b", "c"]]).all_pairs().len(), 3);
}

#[test]
fn queries_on_rankings() {
    let ab_c = partition(&[&["a", "b"], &["c"]]);
    let abc = partition(&[&["a", "b", "c"]]);
    let a_bc = partition(&[&["a"], &["b", "c"]]);
    let ranking = Ranking {
        ranking: vec![vec![ab_c.clone(), abc.clone()], vec![a_bc.clone()]],
    };
    let a = Candidate::from_str("a");
    let b = Candidate::from_str("b");
    let c = Candidate::from_str("c");
    assert_eq!(ranking.index(&ab_c), 0);
    assert_eq!(ranking.index(&a_bc), 1);
    assert_eq!(ranking.position(&partition(&[&["a"], &["b"], &["c"]])), None);
    assert!(ranking.is_strictly_preferred(&abc, &a_bc));
    assert!(!ranking.is_strictly_preferred(&abc, &ab_c));
    assert!(ranking.is_preferred(&abc, &ab_c));
    assert!(!ranking.is_preferred(&a_bc, &ab_c));
    assert!(ranking.is_exacty_equiv_class(0, &vec![abc.clone(), ab_c.clone()]));
    assert!(!ranking.is_exacty_equiv_class(0, &vec![abc.clone()]));
    assert!(ranking.contains_coalition_in_indiff_class(0, &coalition(&["c"])));
    assert!(!ranking.contains_coalition_in_indiff_class(1, &coalition(&["c"])));
    assert!(!ranking.all_coalition_in_indiff_class(0, &coalition(&["c"])));
    assert!(ranking.all_coalition_in_indiff_class(1, &coalition(&["a"])));
    assert!(ranking.contains_pair_in_indiff_class(0, &(&a, &c)));
    assert!(!ranking.every_partition_contains_pair(0, &(&a, &c)));
    assert!(ranking.every_partition_contains_pair(0, &(&a, &b)));
    assert!(ranking.every_partition_contains_pair(1, &(&b, &c)));
}

#[test]
fn one_move_of_one_candidate() {
    let abc = partition(&[&["a", "b", "c"]]);
    let near: Vec<String> = abc.distance_one().iter().map(|p| p.to_string()).collect();
    // one candidate stands alone; the partition itself is no neighbour
    assert_eq!(near, vec!["{{a}, {b, c}}", "{{a, b}, {c}}", "{{a, c}, {b}}"]);
    let single = partition(&[&["a"], &["b"], &["c"]]);
    let near: Vec<String> = single.distance_one().iter().map(|p| p.to_string()).collect();
    assert_eq!(near, vec!["{{a}, {b, c}}", "{{a, b}, {c}}", "{{a, c}, {b}}"]);
    let two = partition(&[&["a"], &["b", "c"]]);
    let near: Vec<String> = two.distance_one().iter().map(|p| p.to_string()).collect();
    assert_eq!(
        near,
        vec!["{{a}, {b}, {c}}", "{{a, b}, {c}}", "{{a, b, c}}", "{{a, c}, {b}}"]
    );
    assert_eq!(partition(&[]).distance_one().len(), 0);
}

#[test]
fn no_partition_is_its_own_neighbour_and_neighbours_are_mutual() {
    let all = Partition::all(4);
    for p in &all {
        let near = p.distance_one();
        assert!(!near.contains(p));
        for q in &near {
            assert!(q.is_legal(4));
            assert!(q.distance_one().contains(p));
        }
    }
}

#[test]
fn a_trivial_coalition_is_not_asked_about() {
    let abc = partition(&[&["a", "b"], &["c"]]);
    let names: Vec<String> = abc.candidates().iter().map(|c| c.to_string()).collect();
    assert_eq!(names, vec!["a", "b", "c"]);
    assert!(abc.can_split(&coalition(&["a"])));
    assert!(abc.can_split(&coalition(&["a", "c"])));
    assert!(!abc.can_split(&coalition(&[])));
    assert!(!abc.can_split(&coalition(&["a", "b", "c"])));
    assert!(!abc.can_split(&coalition(&["a", "b", "c", "d"])));
    // nothing is asked of a partition without coalitions
    assert!(partition(&[]).can_split(&coalition(&[])));
    assert!(partition(&[]).is_split(&coalition(&[])));

    let everyone = coalition(&["a", "b", "c"]);
    let one_class = Ranking { ranking: vec![Partition::all(3)] };
    assert_eq!(one_class.num_filled(), 1);
    assert!(!one_class.can_split_all(&everyone));
    // with one class only no partition is asked
    assert!(one_class.is_split_defined(&everyone));
    assert!(one_class.is_weakly_split(&everyone));
    assert!(!one_class.is_strict_split(&everyone));
    let mut parts = Partition::all(3);
    let last = parts.split_off(2);
    let two_classes = Ranking { ranking: vec![parts, vec![], last] };
    assert_eq!(two_classes.num_filled(), 2);
    assert!(!two_classes.is_split_defined(&everyone));
    assert!(two_classes.is_split_defined(&coalition(&["b", "c"])));
}

#[test]
fn a_ranking_without_a_class_is_no_strict_split() {
    let pair = coalition(&["a", "b"]);
    let none = Ranking { ranking: vec![] };
    assert!(none.is_split_defined(&pair));
    assert!(!none.is_strict_split(&pair));
    let empty = Ranking { ranking: vec![vec![], vec![]] };
    assert_eq!(empty.num_filled(), 0);
    assert!(!empty.is_strict_split(&pair));
}

#[test]
fn favorite_coalition_ballots_have_two_classes() {
    let ballot = Fcs::new(&coalition(&["a", "b"]), 3);
    assert_eq!(ballot.get_ranking().order_type(), vec![1, 4]);
    assert_eq!(
        ballot.get_ranking().to_string(),
        "{{a, b}, {c}} > {{a}, {b}, {c}} ~ {{a}, {b, c}} ~ {{a, b, c}} ~ {{a, c}, {b}}"
    );
    let ballot = Fcw::new(&coalition(&["a", "b"]), 3);
    assert_eq!(ballot.get_ranking().order_type(), vec![2, 3]);
    let ballot = Fcw::new(&coalition(&["a"]), 3);
    assert_eq!(ballot.get_ranking().order_type(), vec![5, 0]);
}

#[test]
fn favorite_partition_ballot_ranks_by_distance() {
    let ballot = Fp::new(partition(&[&["a", "b", "c"]]), 3);
    assert_eq!(
        ballot.get_ranking().to_string(),
        "{{a, b, c}} > {{a}, {b, c}} ~ {{a, b}, {c}} ~ {{a, c}, {b}} > {{a}, {b}, {c}}"
    );
    let ballot = Fp::new(partition(&[&["a"], &["b", "c"]]), 3);
    assert_eq!(
        ballot.get_ranking().to_string(),
        "{{a}, {b, c}} > {{a}, {b}, {c}} ~ {{a, b}, {c}} ~ {{a, b, c}} ~ {{a, c}, {b}}"
    );
}

#[test]
fn a_legal_ranking_of_a_candidate_without_a_name_is_read_back() {
    let nameless = partition(&[&[""]]);
    assert!(nameless.is_legal(1));
    let ranking = Ranking { ranking: vec![vec![nameless]] };
    assert!(ranking.is_legal(1));
    assert_eq!(ranking.to_string(), "{{}}");
    assert_eq!(Ranking::from_str("{{}}"), Ok(ranking));
    // two candidates, one of them without a name
    let apart = partition(&[&[""], &["a"]]);
    let together = partition(&[&["", "a"]]);
    assert!(apart.is_legal(2) && together.is_legal(2));
    let ranking = Ranking { ranking: vec![vec![together], vec![apart]] };
    assert!(ranking.is_legal(2));
    assert_eq!(ranking.to_string(), "{{, a}} > {{}, {a}}");
    assert_eq!(Ranking::from_str("{{, a}} > {{}, {a}}"), Ok(ranking));
}

#[test]
fn the_text_of_a_coalition_without_members_is_read_as_a_nameless_candidate() {
    let nobody = Coalition { members: vec![] };
    assert!(!nobody.is_legal(3));
    assert_eq!(nobody.to_string(), "{}");
    assert_eq!(Coalition::from_str("{}"), Ok(coalition(&[""])));
}
