//! Non-imposition: every partition can be the only winner.
use vstd::prelude::*;
use crate::proving::axioms::names::AxiomKind;
use crate::proving::axioms::{is_rule_ready, rule_ready, Axiom, AxiomType};
use crate::proving::formula::{holds, Formula, Valuation};
use crate::proving::profile::{Electorate, Profile};
use crate::proving::rule::rule_trait::{only_winner, wins_alone, VotingRule};

verus! {

/// Non-imposition: every partition is the only winner for some votes.
pub struct Nonimposition {}

impl<R: VotingRule> Axiom<R> for Nonimposition {
    /// One case for each partition.
    open spec fn cases(e: Electorate) -> nat {
        e.partitions.len()
    }

    open spec fn ready(e: Electorate, rule: &R) -> bool {
        rule_ready(rule, e)
    }

    open spec fn skipped(e: Electorate, i: int) -> bool {
        false
    }

    /// The partition of the case is the only winner.
    open spec fn meaning(e: Electorate, rule: &R, i: int, v: Valuation) -> bool {
        wins_alone(rule, e.partitions[i], e, None, v)
    }

    fn is_ready(profile: &Profile, rule: &R) -> (b: bool) {
        is_rule_ready(rule, profile, None)
    }

    fn cases_fit(profile: &Profile) -> (b: bool) {
        let n = profile.partitions.len();
        assert(profile@.partitions.len() == n);
        true
    }

    fn num_cases(profile: &Profile) -> (n: usize) {
        profile.partitions.len()
    }

    fn condition_generator(profile: &Profile, rule: &R, i: usize) -> (f: Option<
        Formula,
    >) {
        assert(profile@.partitions[i as int] == profile.partitions@[i as int]@);
        Some(only_winner(rule, &profile.partitions[i], profile, None))
    }

    open spec fn type_of() -> AxiomType {
        AxiomType::Exists
    }

    fn get_type() -> (t: AxiomType) {
        AxiomType::Exists
    }

    open spec fn kind() -> AxiomKind {
        AxiomKind::Nonimposition
    }

    fn short_name() -> &'static str {
        crate::proving::axioms::names::short_name(AxiomKind::Nonimposition)
    }

    fn full_name() -> &'static str {
        crate::proving::axioms::names::full_name(AxiomKind::Nonimposition)
    }
}

} // verus!
