//! Participation: a voter who joins does not make a partition the only
//! winner that the voter likes less than the former only winner.
use vstd::prelude::*;
use crate::proving::axioms::names::AxiomKind;
use crate::proving::axioms::{is_complete, is_ready_for_one_more, is_rule_ready, one_more, one_vote, product_fits, rule_ready, rule_ready_with, some_sole_winner, some_win_alone, Axiom, AxiomType};
use crate::proving::formula::{holds, implication, negation, Formula, Valuation};
use crate::proving::profile::{ranks_all, Electorate, Profile};
use crate::proving::rule::rule_trait::{only_winner, wins_alone, VotingRule};
use crate::structures::partition::Blocks;
use crate::structures::ranking::{class_of, ranks, Tiers};

verus! {

/// Participation: no voter does better by staying away.
pub struct Participation {}

/// For each partition, whether `r` puts it in a later class than `p`.
pub open spec fn less_preferred(e: Electorate, r: Tiers, p: Blocks) -> Seq<bool> {
    Seq::new(e.partitions.len(), |q: int| class_of(r, p) < class_of(r, e.partitions[q]))
}

/// No element of `marks` is set.
pub open spec fn none_marked(marks: Seq<bool>) -> bool {
    forall|q: int| 0 <= q < marks.len() ==> !#[trigger] marks[q]
}

/// Whether no element of `marks` is set.
pub fn no_mark(marks: &Vec<bool>) -> (none: bool)
    ensures
        none == none_marked(marks@),
{
    let mut q: usize = 0;
    while q < marks.len()
        invariant
            q <= marks.len(),
            forall|l: int| 0 <= l < q ==> !#[trigger] marks@[l],
        decreases marks.len() - q,
    {
        if marks[q] {
            return false;
        }
        q += 1;
    }
    true
}

/// For each partition, whether the ranking with index `r` puts it in a
/// later class than the partition with index `p` (`later`), or in an
/// earlier one; and whether it does so of none.
pub fn mark_preferences(profile: &Profile, r: usize, p: usize, later: bool) -> (marks: (
    Vec<bool>,
    bool,
))
    requires
        r < profile@.rankings.len(),
        p < profile@.partitions.len(),
        ranks_all(profile@.rankings[r as int], profile@.partitions),
    ensures
        marks.0@.len() == profile@.partitions.len(),
        forall|q: int|
            0 <= q < marks.0@.len() ==> #[trigger] marks.0@[q] == if later {
                class_of(profile@.rankings[r as int], profile@.partitions[p as int]) < class_of(
                    profile@.rankings[r as int],
                    profile@.partitions[q],
                )
            } else {
                class_of(profile@.rankings[r as int], profile@.partitions[q]) < class_of(
                    profile@.rankings[r as int],
                    profile@.partitions[p as int],
                )
            },
        marks.1 == none_marked(marks.0@),
{
    let ranking = &profile.votes[r].0;
    let ghost rv = ranking@;
    let ghost ps = profile@.partitions;
    assert(rv == profile@.rankings[r as int]);
    assert(ps[p as int] == profile.partitions@[p as int]@);
    assert(ranks(rv, ps[p as int]));
    let own = ranking.index(&profile.partitions[p]);
    let mut marks: Vec<bool> = Vec::new();
    let mut q: usize = 0;
    while q < profile.partitions.len()
        invariant
            q <= profile.partitions.len(),
            ps.len() == profile.partitions@.len(),
            marks@.len() == q,
            own == class_of(rv, ps[p as int]),
            ranks_all(rv, ps),
            forall|l: int|
                0 <= l < q ==> #[trigger] marks@[l] == if later {
                    own < class_of(rv, ps[l])
                } else {
                    class_of(rv, ps[l]) < own
                },
        decreases profile.partitions.len() - q,
    {
        assert(ps[q as int] == profile.partitions@[q as int]@);
        assert(ranks(rv, ps[q as int]));
        let other = ranking.index(&profile.partitions[q]);
        let mark = if later {
            own < other
        } else {
            other < own
        };
        marks.push(mark);
        q += 1;
    }
    let none = no_mark(&marks);
    (marks, none)
}

impl<R: VotingRule> Axiom<R> for Participation {
    /// One case for each ranking and partition.
    open spec fn cases(e: Electorate) -> nat {
        e.rankings.len() * e.partitions.len()
    }

    open spec fn ready(e: Electorate, rule: &R) -> bool {
        &&& rule_ready(rule, e)
        &&& e.complete()
        &&& forall|k: int|
            0 <= k < e.rankings.len() ==> rule_ready_with(
                rule,
                e,
                one_more(#[trigger] e.rankings[k]),
            )
    }

    /// Nothing is asked where the voter likes no partition less.
    open spec fn skipped(e: Electorate, i: int) -> bool {
        none_marked(
            less_preferred(
                e,
                e.rankings[i / e.partitions.len() as int],
                e.partitions[i % e.partitions.len() as int],
            ),
        )
    }

    /// Where the partition is the only winner, no partition that the
    /// voter with the ranking of the case likes less is the only winner
    /// once that voter has joined.
    open spec fn meaning(e: Electorate, rule: &R, i: int, v: Valuation) -> bool {
        let r = e.rankings[i / e.partitions.len() as int];
        let p = e.partitions[i % e.partitions.len() as int];
        wins_alone(rule, p, e, None, v) ==> !some_win_alone(
            rule,
            e,
            less_preferred(e, r, p),
            one_more(r),
            v,
        )
    }

    fn is_ready(profile: &Profile, rule: &R) -> (b: bool) {
        is_rule_ready(rule, profile, None) && is_complete(profile) && is_ready_for_one_more(
            rule,
            profile,
        )
    }

    fn cases_fit(profile: &Profile) -> (b: bool) {
        assert(profile@.rankings.len() == profile.votes@.len());
        assert(profile@.partitions.len() == profile.partitions@.len());
        product_fits(profile.votes.len(), profile.partitions.len())
    }

    fn num_cases(profile: &Profile) -> (n: usize) {
        assert(profile@.rankings.len() == profile.votes@.len());
        assert(profile@.partitions.len() == profile.partitions@.len());
        profile.votes.len() * profile.partitions.len()
    }

    #[verifier::rlimit(60)]
    fn condition_generator(profile: &Profile, rule: &R, i: usize) -> (f: Option<Formula>) {
        let ghost e = profile@;
        let n = profile.votes.len();
        let m = profile.partitions.len();
        assert(e.rankings.len() == n && e.partitions.len() == m);
        assert(m > 0) by (nonlinear_arith)
            requires
                i < n * m,
        ;
        let r = i / m;
        let p = i % m;
        assert(r < n) by (nonlinear_arith)
            requires
                i < n * m,
                r == i / m,
                m > 0,
        ;
        let ranking = &profile.votes[r].0;
        let partition = &profile.partitions[p];
        assert(ranking@ == e.rankings[r as int]);
        assert(partition@ == e.partitions[p as int]);
        assert(ranks_all(e.rankings[r as int], e.partitions));
        let (marks, none) = mark_preferences(profile, r, p, true);
        assert(marks@ =~= less_preferred(e, ranking@, partition@));
        if none {
            return None;
        }
        let extra_votes = one_vote(ranking);
        let winner_condition = only_winner(rule, partition, profile, None);
        assert(rule_ready_with(rule, e, one_more(e.rankings[r as int])));
        let more_preferred_wins = some_sole_winner(profile, rule, &marks, Some(&extra_votes));
        let more_preferred_does_not_win = negation(more_preferred_wins);
        Some(implication(winner_condition, more_preferred_does_not_win))
    }

    open spec fn type_of() -> AxiomType {
        AxiomType::Forall
    }

    fn get_type() -> (t: AxiomType) {
        AxiomType::Forall
    }

    open spec fn kind() -> AxiomKind {
        AxiomKind::Participation
    }

    fn short_name() -> &'static str {
        crate::proving::axioms::names::short_name(AxiomKind::Participation)
    }

    fn full_name() -> &'static str {
        crate::proving::axioms::names::full_name(AxiomKind::Participation)
    }
}

} // verus!
