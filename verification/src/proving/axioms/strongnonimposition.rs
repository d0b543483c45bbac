//! Strong non-imposition: every set of partitions that is not empty can
//! be the set of winners.
use vstd::prelude::*;
use crate::proving::axioms::names::AxiomKind;
use crate::order::models;
use crate::proving::axioms::{is_rule_ready, rule_ready, Axiom, AxiomType};
use crate::proving::formula::{holds, Formula, Valuation};
use crate::proving::profile::{Electorate, Profile};
use crate::proving::rule::rule_trait::{exact_winner_set, exactly_win, VotingRule};
use crate::utils::structures::{
    chosen_by, lemma_chosen_within, powerset_generator, subset_count, two_to,
};

verus! {

/// Strong non-imposition: every set of partitions that is not empty is
/// the set of winners for some votes.
pub struct Strongnonimposition {}

impl<R: VotingRule> Axiom<R> for Strongnonimposition {
    /// One case for each set of partitions.
    open spec fn cases(e: Electorate) -> nat {
        two_to(e.partitions.len())
    }

    open spec fn ready(e: Electorate, rule: &R) -> bool {
        rule_ready(rule, e)
    }

    /// Nothing is asked of the empty set.
    open spec fn skipped(e: Electorate, i: int) -> bool {
        chosen_by(e.partitions, i as nat).len() == 0
    }

    /// The partitions of the set win, and no other partition does.
    open spec fn meaning(e: Electorate, rule: &R, i: int, v: Valuation) -> bool {
        exactly_win(rule, chosen_by(e.partitions, i as nat), e, None, v)
    }

    fn is_ready(profile: &Profile, rule: &R) -> (b: bool) {
        is_rule_ready(rule, profile, None)
    }

    fn cases_fit(profile: &Profile) -> (b: bool) {
        assert(profile@.partitions.len() == profile.partitions@.len());
        subset_count(profile.partitions.len()).is_some()
    }

    fn num_cases(profile: &Profile) -> (n: usize) {
        match subset_count(profile.partitions.len()) {
            Some(c) => c,
            None => {
                assert(false);
                0
            },
        }
    }

    fn condition_generator(profile: &Profile, rule: &R, i: usize) -> (f: Option<
        Formula,
    >) {
        let winner_set = powerset_generator(&profile.partitions, i);
        if winner_set.len() == 0 {
            None
        } else {
            proof {
                let e = profile@;
                let s = chosen_by(e.partitions, i as nat);
                lemma_chosen_within(e.partitions, i as nat);
                assert forall|k: int| 0 <= k < winner_set@.len() implies rule.scorable(
                    (#[trigger] winner_set@[k])@,
                    e,
                    None,
                ) by {
                    assert(winner_set@[k]@ == s[k]);
                    assert(e.partitions.contains(s[k]));
                    let j = choose|j: int| 0 <= j < e.partitions.len() && e.partitions[j] == s[k];
                    assert(rule.scorable(e.partitions[j], e, None));
                }
            }
            Some(exact_winner_set(rule, &winner_set, profile, None))
        }
    }

    open spec fn type_of() -> AxiomType {
        AxiomType::Exists
    }

    fn get_type() -> (t: AxiomType) {
        AxiomType::Exists
    }

    open spec fn kind() -> AxiomKind {
        AxiomKind::Strongnonimposition
    }

    fn short_name() -> &'static str {
        crate::proving::axioms::names::short_name(AxiomKind::Strongnonimposition)
    }

    fn full_name() -> &'static str {
        crate::proving::axioms::names::full_name(AxiomKind::Strongnonimposition)
    }
}

} // verus!
