//! Full coalition support: where every voter has a coalition in a
//! partition of the first class, a partition with that coalition wins.
use vstd::prelude::*;
use crate::proving::axioms::names::AxiomKind;
use crate::proving::axioms::{has_first_classes, is_rule_ready, rule_ready, silence, silent, some_winner, some_wins, Axiom, AxiomType};
use crate::proving::formula::{holds, implication, Formula, Valuation};
use crate::proving::profile::{Electorate, Profile};
use crate::proving::rule::rule_trait::VotingRule;
use crate::structures::coalition::Group;
use crate::structures::ranking::Tiers;

verus! {

/// Full coalition support: a coalition that every voter puts first is
/// part of every winner.
pub struct FullCoalitionSupport {}

/// Some partition of the first class of `r` has the coalition `c`.
pub open spec fn top_has_coalition(r: Tiers, c: Group) -> bool {
    exists|j: int| 0 <= j < r[0].len() && (#[trigger] r[0][j]).contains(c)
}

/// For each ranking, whether a partition of its first class has `c`.
pub open spec fn supporters(e: Electorate, c: Group) -> Seq<bool> {
    Seq::new(e.rankings.len(), |k: int| top_has_coalition(e.rankings[k], c))
}

/// For each partition, whether it has the coalition `c`.
pub open spec fn holders(e: Electorate, c: Group) -> Seq<bool> {
    Seq::new(e.partitions.len(), |j: int| e.partitions[j].contains(c))
}

impl<R: VotingRule> Axiom<R> for FullCoalitionSupport {
    /// One case for each coalition.
    open spec fn cases(e: Electorate) -> nat {
        e.coalitions.len()
    }

    open spec fn ready(e: Electorate, rule: &R) -> bool {
        &&& rule_ready(rule, e)
        &&& forall|k: int| 0 <= k < e.rankings.len() ==> (#[trigger] e.rankings[k]).len() > 0
    }

    open spec fn skipped(e: Electorate, i: int) -> bool {
        false
    }

    /// Where only rankings with the coalition in their first class have
    /// votes, some partition with the coalition wins.
    open spec fn meaning(e: Electorate, rule: &R, i: int, v: Valuation) -> bool {
        silent(e, supporters(e, e.coalitions[i]), v) ==> some_wins(
            rule,
            e,
            holders(e, e.coalitions[i]),
            v,
        )
    }

    fn is_ready(profile: &Profile, rule: &R) -> (b: bool) {
        is_rule_ready(rule, profile, None) && has_first_classes(profile)
    }

    fn cases_fit(profile: &Profile) -> (b: bool) {
        let n = profile.coalitions.len();
        assert(profile@.coalitions.len() == n);
        true
    }

    fn num_cases(profile: &Profile) -> (n: usize) {
        profile.coalitions.len()
    }

    fn condition_generator(profile: &Profile, rule: &R, i: usize) -> (f: Option<Formula>) {
        let ghost e = profile@;
        let coalition = &profile.coalitions[i];
        assert(coalition@ == e.coalitions[i as int]);
        let mut keep: Vec<bool> = Vec::new();
        let mut k: usize = 0;
        while k < profile.votes.len()
            invariant
                k <= profile.votes.len(),
                keep@.len() == k,
                forall|l: int|
                    0 <= l < k ==> #[trigger] keep@[l] == top_has_coalition(
                        e.rankings[l],
                        coalition@,
                    ),
            decreases profile.votes.len() - k,
        {
            assert(e.rankings[k as int] == profile.votes@[k as int].0@);
            assert(e.rankings[k as int].len() > 0);
            keep.push(profile.votes[k].0.contains_coalition_in_indiff_class(0, coalition));
            k += 1;
        }
        assert(keep@ =~= supporters(e, coalition@));
        let mut pick: Vec<bool> = Vec::new();
        let mut j: usize = 0;
        while j < profile.partitions.len()
            invariant
                j <= profile.partitions.len(),
                pick@.len() == j,
                forall|l: int|
                    0 <= l < j ==> #[trigger] pick@[l] == e.partitions[l].contains(coalition@),
            decreases profile.partitions.len() - j,
        {
            assert(e.partitions[j as int] == profile.partitions@[j as int]@);
            pick.push(profile.partitions[j].contains(coalition));
            j += 1;
        }
        assert(pick@ =~= holders(e, coalition@));
        let precondition = silence(profile, rule, &keep);
        let winning_condition = some_winner(profile, rule, &pick);
        Some(implication(precondition, winning_condition))
    }

    open spec fn type_of() -> AxiomType {
        AxiomType::Forall
    }

    fn get_type() -> (t: AxiomType) {
        AxiomType::Forall
    }

    open spec fn kind() -> AxiomKind {
        AxiomKind::FullCoalitionSupport
    }

    fn short_name() -> &'static str {
        crate::proving::axioms::names::short_name(AxiomKind::FullCoalitionSupport)
    }

    fn full_name() -> &'static str {
        crate::proving::axioms::names::full_name(AxiomKind::FullCoalitionSupport)
    }
}

} // verus!
