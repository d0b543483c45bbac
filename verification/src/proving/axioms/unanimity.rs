//! Unanimity: where every voter has the same set of partitions as first
//! class, exactly those partitions win.
use vstd::prelude::*;
use crate::proving::axioms::names::AxiomKind;
use crate::order::models;
use crate::proving::axioms::{has_first_classes, is_rule_ready, rule_ready, silence, silent, Axiom, AxiomType};
use crate::proving::formula::{holds, implication, Formula, Valuation};
use crate::proving::profile::{Electorate, Profile};
use crate::proving::rule::rule_trait::{exact_winner_set, exactly_win, VotingRule};
use crate::structures::partition::{same_elements, Blocks};
use crate::utils::structures::{
    chosen_by, lemma_chosen_within, powerset_generator, subset_count, two_to,
};

verus! {

/// Unanimity: what all voters put first wins, and nothing else.
pub struct Unanimity {}

/// For each ranking, whether its first class is the set `s`.
pub open spec fn agreeing(e: Electorate, s: Seq<Blocks>) -> Seq<bool> {
    Seq::new(e.rankings.len(), |k: int| same_elements(e.rankings[k][0], s))
}

impl<R: VotingRule> Axiom<R> for Unanimity {
    /// One case for each set of partitions.
    open spec fn cases(e: Electorate) -> nat {
        two_to(e.partitions.len())
    }

    open spec fn ready(e: Electorate, rule: &R) -> bool {
        &&& rule_ready(rule, e)
        &&& forall|k: int| 0 <= k < e.rankings.len() ==> (#[trigger] e.rankings[k]).len() > 0
    }

    /// Nothing is asked of the empty set.
    open spec fn skipped(e: Electorate, i: int) -> bool {
        chosen_by(e.partitions, i as nat).len() == 0
    }

    /// Where only rankings with the set as first class have votes, the
    /// partitions of the set win and no other partition does.
    open spec fn meaning(e: Electorate, rule: &R, i: int, v: Valuation) -> bool {
        let s = chosen_by(e.partitions, i as nat);
        silent(e, agreeing(e, s), v) ==> exactly_win(rule, s, e, None, v)
    }

    fn is_ready(profile: &Profile, rule: &R) -> (b: bool) {
        is_rule_ready(rule, profile, None) && has_first_classes(profile)
    }

    fn cases_fit(profile: &Profile) -> (b: bool) {
        assert(profile@.partitions.len() == profile.partitions@.len());
        subset_count(profile.partitions.len()).is_some()
    }

    fn num_cases(profile: &Profile) -> (n: usize) {
        match subset_count(profile.partitions.len()) {
            Some(c) => c,
            None => {
                assert(false);
                0
            },
        }
    }

    fn condition_generator(profile: &Profile, rule: &R, i: usize) -> (f: Option<Formula>) {
        let ghost e = profile@;
        let winning_set = powerset_generator(&profile.partitions, i);
        let ghost s = chosen_by(e.partitions, i as nat);
        if winning_set.len() == 0 {
            return None;
        }
        let mut keep: Vec<bool> = Vec::new();
        let mut k: usize = 0;
        while k < profile.votes.len()
            invariant
                k <= profile.votes.len(),
                keep@.len() == k,
                s == models(winning_set@),
                forall|l: int|
                    0 <= l < k ==> #[trigger] keep@[l] == same_elements(e.rankings[l][0], s),
            decreases profile.votes.len() - k,
        {
            assert(e.rankings[k as int] == profile.votes@[k as int].0@);
            assert(e.rankings[k as int].len() > 0);
            keep.push(profile.votes[k].0.is_exacty_equiv_class(0, &winning_set));
            k += 1;
        }
        assert(keep@ =~= agreeing(e, s));
        proof {
            lemma_chosen_within(e.partitions, i as nat);
            assert forall|k: int| 0 <= k < winning_set@.len() implies rule.scorable(
                (#[trigger] winning_set@[k])@,
                e,
                None,
            ) by {
                assert(winning_set@[k]@ == s[k]);
                assert(e.partitions.contains(s[k]));
                let j = choose|j: int| 0 <= j < e.partitions.len() && e.partitions[j] == s[k];
                assert(rule.scorable(e.partitions[j], e, None));
            }
        }
        let precondition = silence(profile, rule, &keep);
        let winning_condition = exact_winner_set(rule, &winning_set, profile, None);
        Some(implication(precondition, winning_condition))
    }

    open spec fn type_of() -> AxiomType {
        AxiomType::Forall
    }

    fn get_type() -> (t: AxiomType) {
        AxiomType::Forall
    }

    open spec fn kind() -> AxiomKind {
        AxiomKind::Unanimity
    }

    fn short_name() -> &'static str {
        crate::proving::axioms::names::short_name(AxiomKind::Unanimity)
    }

    fn full_name() -> &'static str {
        crate::proving::axioms::names::full_name(AxiomKind::Unanimity)
    }
}

} // verus!
