//! Strong pair support: where every voter has two candidates together in
//! every partition of the first class, no partition that parts them wins.
use vstd::prelude::*;
use crate::proving::axioms::names::AxiomKind;
use crate::order::{Keyed, Order};
use crate::proving::axioms::weakpairsupport::{mark_pair_holders, pair_holders};
use crate::proving::axioms::{has_first_classes, is_rule_ready, no_winner, none_wins, product_fits, rule_ready, silence, silent, Axiom, AxiomType};
use crate::proving::formula::{holds, implication, Formula, Valuation};
use crate::proving::profile::{Electorate, Profile};
use crate::proving::rule::rule_trait::VotingRule;
use crate::structures::candidate::{Candidate, Name};
use crate::structures::partition::paired;
use crate::structures::ranking::Tiers;

verus! {

/// Strong pair support: a pair of candidates that every voter keeps
/// together in the first class is together in every winner.
pub struct StrongPairSupport {}

/// Every partition of the first class of `r` has `a` and `b` together.
pub open spec fn top_keeps_pair(r: Tiers, a: Name, b: Name) -> bool {
    forall|j: int| 0 <= j < r[0].len() ==> paired(#[trigger] r[0][j], a, b)
}

/// For each ranking, whether every partition of its first class has `a`
/// and `b` together.
pub open spec fn strong_pair_supporters(e: Electorate, a: Name, b: Name) -> Seq<bool> {
    Seq::new(e.rankings.len(), |k: int| top_keeps_pair(e.rankings[k], a, b))
}

/// For each partition, whether it parts `a` and `b`.
pub open spec fn pair_breakers(e: Electorate, a: Name, b: Name) -> Seq<bool> {
    Seq::new(e.partitions.len(), |j: int| !paired(e.partitions[j], a, b))
}

impl<R: VotingRule> Axiom<R> for StrongPairSupport {
    /// One case for each ordered pair of candidates.
    open spec fn cases(e: Electorate) -> nat {
        e.candidates.len() * e.candidates.len()
    }

    open spec fn ready(e: Electorate, rule: &R) -> bool {
        &&& rule_ready(rule, e)
        &&& forall|k: int| 0 <= k < e.rankings.len() ==> (#[trigger] e.rankings[k]).len() > 0
    }

    /// Nothing is asked of a candidate paired with itself.
    open spec fn skipped(e: Electorate, i: int) -> bool {
        e.candidates[i / e.candidates.len() as int] == e.candidates[i % e.candidates.len() as int]
    }

    /// Where only rankings with the two candidates together in every
    /// partition of their first class have votes, no partition that
    /// parts the two wins.
    open spec fn meaning(e: Electorate, rule: &R, i: int, v: Valuation) -> bool {
        let a = e.candidates[i / e.candidates.len() as int];
        let b = e.candidates[i % e.candidates.len() as int];
        silent(e, strong_pair_supporters(e, a, b), v) ==> none_wins(
            rule,
            e,
            pair_breakers(e, a, b),
            v,
        )
    }

    fn is_ready(profile: &Profile, rule: &R) -> (b: bool) {
        is_rule_ready(rule, profile, None) && has_first_classes(profile)
    }

    fn cases_fit(profile: &Profile) -> (b: bool) {
        assert(profile@.candidates.len() == profile.candidates@.len());
        product_fits(profile.candidates.len(), profile.candidates.len())
    }

    fn num_cases(profile: &Profile) -> (n: usize) {
        let m = profile.candidates.len();
        assert(profile@.candidates.len() == m);
        m * m
    }

    fn condition_generator(profile: &Profile, rule: &R, i: usize) -> (f: Option<Formula>) {
        let ghost e = profile@;
        let m = profile.candidates.len();
        assert(e.candidates.len() == m);
        assert(m > 0) by (nonlinear_arith)
            requires
                i < m * m,
        ;
        let first = i / m;
        let second = i % m;
        assert(first < m) by (nonlinear_arith)
            requires
                i < m * m,
                first == i / m,
                m > 0,
        ;
        let pair = (&profile.candidates[first], &profile.candidates[second]);
        assert(pair.0@ == e.candidates[first as int] && pair.1@ == e.candidates[second as int]);
        proof {
            Candidate::lemma_order();
        }
        match pair.0.compare(pair.1) {
            Order::Equal => {
                return None;
            },
            _ => {},
        }
        let mut keep: Vec<bool> = Vec::new();
        let mut k: usize = 0;
        while k < profile.votes.len()
            invariant
                k <= profile.votes.len(),
                keep@.len() == k,
                forall|l: int|
                    0 <= l < k ==> #[trigger] keep@[l] == top_keeps_pair(
                        e.rankings[l],
                        pair.0@,
                        pair.1@,
                    ),
            decreases profile.votes.len() - k,
        {
            assert(e.rankings[k as int] == profile.votes@[k as int].0@);
            assert(e.rankings[k as int].len() > 0);
            keep.push(profile.votes[k].0.every_partition_contains_pair(0, &pair));
            k += 1;
        }
        assert(keep@ =~= strong_pair_supporters(e, pair.0@, pair.1@));
        let holders = mark_pair_holders(profile, &pair);
        let mut pick: Vec<bool> = Vec::new();
        let mut j: usize = 0;
        while j < holders.len()
            invariant
                j <= holders.len(),
                holders@ == pair_holders(e, pair.0@, pair.1@),
                pick@.len() == j,
                forall|l: int| 0 <= l < j ==> #[trigger] pick@[l] == !holders@[l],
            decreases holders.len() - j,
        {
            pick.push(!holders[j]);
            j += 1;
        }
        assert(pick@ =~= pair_breakers(e, pair.0@, pair.1@));
        let precondition = silence(profile, rule, &keep);
        let winning_condition = no_winner(profile, rule, &pick);
        Some(implication(precondition, winning_condition))
    }

    open spec fn type_of() -> AxiomType {
        AxiomType::Forall
    }

    fn get_type() -> (t: AxiomType) {
        AxiomType::Forall
    }

    open spec fn kind() -> AxiomKind {
        AxiomKind::StrongPairSupport
    }

    fn short_name() -> &'static str {
        crate::proving::axioms::names::short_name(AxiomKind::StrongPairSupport)
    }

    fn full_name() -> &'static str {
        crate::proving::axioms::names::full_name(AxiomKind::StrongPairSupport)
    }
}

} // verus!
