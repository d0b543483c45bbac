//! Strategy-proofness: a voter who votes for another ranking than the
//! true one does not make a partition the only winner that the voter
//! likes more than the only winner of an honest vote.
use vstd::prelude::*;
use crate::proving::axioms::names::AxiomKind;
use crate::order::{Keyed, Order};
use crate::proving::axioms::participation::{mark_preferences, none_marked};
use crate::proving::axioms::{is_complete, is_ready_for_one_more, is_rule_ready, no_sole_winner, none_wins_alone, one_more, one_vote, product_fits, rule_ready, rule_ready_with, Axiom, AxiomType};
use crate::proving::formula::{holds, implication, Formula, Valuation};
use crate::proving::profile::{Electorate, Profile};
use crate::proving::rule::rule_trait::{only_winner, wins_alone, VotingRule};
use crate::structures::partition::Blocks;
use crate::structures::ranking::{class_of, Ranking, Tiers};

verus! {

/// Strategy-proofness: no voter does better with another ranking than
/// their own.
pub struct Strategyproof {}

/// For each partition, whether `r` puts it in an earlier class than `p`.
pub open spec fn more_preferred(e: Electorate, r: Tiers, p: Blocks) -> Seq<bool> {
    Seq::new(e.partitions.len(), |q: int| class_of(r, e.partitions[q]) < class_of(r, p))
}

/// The index of the true ranking in case `i`.
pub open spec fn true_index(e: Electorate, i: int) -> int {
    i / ((e.rankings.len() * e.partitions.len()) as int)
}

/// The index of the ranking that is voted for in case `i`.
pub open spec fn fake_index(e: Electorate, i: int) -> int {
    (i / e.partitions.len() as int) % e.rankings.len() as int
}

impl<R: VotingRule> Axiom<R> for Strategyproof {
    /// One case for each true ranking, each ranking that is voted for,
    /// and each partition.
    open spec fn cases(e: Electorate) -> nat {
        e.rankings.len() * (e.rankings.len() * e.partitions.len())
    }

    open spec fn ready(e: Electorate, rule: &R) -> bool {
        &&& rule_ready(rule, e)
        &&& e.complete()
        &&& forall|k: int|
            0 <= k < e.rankings.len() ==> rule_ready_with(
                rule,
                e,
                one_more(#[trigger] e.rankings[k]),
            )
    }

    /// Nothing is asked where the two rankings are the same, or where
    /// the voter likes no partition more.
    open spec fn skipped(e: Electorate, i: int) -> bool {
        let t = e.rankings[true_index(e, i)];
        let f = e.rankings[fake_index(e, i)];
        let p = e.partitions[i % e.partitions.len() as int];
        t == f || none_marked(more_preferred(e, t, p))
    }

    /// Where the partition is the only winner of the honest vote, no
    /// partition that the voter likes more is the only winner of the
    /// other vote.
    open spec fn meaning(e: Electorate, rule: &R, i: int, v: Valuation) -> bool {
        let t = e.rankings[true_index(e, i)];
        let f = e.rankings[fake_index(e, i)];
        let p = e.partitions[i % e.partitions.len() as int];
        wins_alone(rule, p, e, one_more(t), v) ==> none_wins_alone(
            rule,
            e,
            more_preferred(e, t, p),
            one_more(f),
            v,
        )
    }

    fn is_ready(profile: &Profile, rule: &R) -> (b: bool) {
        is_rule_ready(rule, profile, None) && is_complete(profile) && is_ready_for_one_more(
            rule,
            profile,
        )
    }

    fn cases_fit(profile: &Profile) -> (b: bool) {
        let n = profile.votes.len();
        let m = profile.partitions.len();
        assert(profile@.rankings.len() == n && profile@.partitions.len() == m);
        match n.checked_mul(m) {
            None => {
                assert(n * (n * m) > usize::MAX) by (nonlinear_arith)
                    requires
                        n * m > usize::MAX,
                        n >= 0,
                        m >= 0,
                ;
                false
            },
            Some(nm) => product_fits(n, nm),
        }
    }

    fn num_cases(profile: &Profile) -> (n: usize) {
        assert(profile@.rankings.len() == profile.votes@.len());
        assert(profile@.partitions.len() == profile.partitions@.len());
        let n = profile.votes.len();
        let m = profile.partitions.len();
        if n == 0 {
            assert(0 * (0 * m) == 0) by (nonlinear_arith);
            return 0;
        }
        assert(n * m <= n * (n * m)) by (nonlinear_arith)
            requires
                n >= 1,
        ;
        n * (n * m)
    }

    fn condition_generator(profile: &Profile, rule: &R, i: usize) -> (f: Option<Formula>) {
        let ghost e = profile@;
        let n = profile.votes.len();
        let m = profile.partitions.len();
        assert(e.rankings.len() == n && e.partitions.len() == m);
        assert(n > 0 && m > 0 && n * m <= n * (n * m) && n * m > 0) by (nonlinear_arith)
            requires
                i < n * (n * m),
        ;
        let a = i / (n * m);
        let b = (i / m) % n;
        let p = i % m;
        assert(a < n) by (nonlinear_arith)
            requires
                i < n * (n * m),
                a as int == (i as int) / ((n * m) as int),
                n * m > 0,
        ;
        let true_pref = &profile.votes[a].0;
        let fake_pref = &profile.votes[b].0;
        let partition = &profile.partitions[p];
        assert(true_pref@ == e.rankings[a as int]);
        assert(fake_pref@ == e.rankings[b as int]);
        assert(partition@ == e.partitions[p as int]);
        proof {
            Ranking::lemma_order();
        }
        match true_pref.compare(fake_pref) {
            Order::Equal => {
                return None;
            },
            _ => {},
        }
        assert(crate::proving::profile::ranks_all(e.rankings[a as int], e.partitions));
        let (marks, none) = mark_preferences(profile, a, p, false);
        assert(marks@ =~= more_preferred(e, true_pref@, partition@));
        if none {
            return None;
        }
        let extra_votes_true = one_vote(true_pref);
        let extra_votes_fake = one_vote(fake_pref);
        assert(rule_ready_with(rule, e, one_more(e.rankings[a as int])));
        assert(rule_ready_with(rule, e, one_more(e.rankings[b as int])));
        let winner_true = only_winner(rule, partition, profile, Some(&extra_votes_true));
        let winning_conditions = no_sole_winner(profile, rule, &marks, Some(&extra_votes_fake));
        Some(implication(winner_true, winning_conditions))
    }

    open spec fn type_of() -> AxiomType {
        AxiomType::Forall
    }

    fn get_type() -> (t: AxiomType) {
        AxiomType::Forall
    }

    open spec fn kind() -> AxiomKind {
        AxiomKind::Strategyproof
    }

    fn short_name() -> &'static str {
        crate::proving::axioms::names::short_name(AxiomKind::Strategyproof)
    }

    fn full_name() -> &'static str {
        crate::proving::axioms::names::full_name(AxiomKind::Strategyproof)
    }
}

} // verus!
