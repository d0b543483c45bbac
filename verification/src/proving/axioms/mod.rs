//! Axioms: properties that a voting rule may have, each as a family of
//! statements about the vote counts of a profile.
pub mod consistency;
pub mod fullcoalitionsupport;
pub mod majority;
pub mod names;
pub mod nonimposition;
pub mod participation;
pub mod split;
pub mod strategyproof;
pub mod strongnonimposition;
pub mod strongpairsupport;
pub mod unanimity;
pub mod weakpairsupport;

pub use consistency::Consistency;
pub use fullcoalitionsupport::FullCoalitionSupport;
pub use majority::Majority;
pub use nonimposition::Nonimposition;
pub use participation::Participation;
pub use split::{StrictAllSplit, StrictSomeSplit, WeakAllSplit, WeakSomeSplit};
pub use strategyproof::Strategyproof;
pub use strongnonimposition::Strongnonimposition;
pub use unanimity::Unanimity;
pub use strongpairsupport::StrongPairSupport;
pub use weakpairsupport::WeakPairSupport;

use vstd::prelude::*;
use crate::proving::axioms::names::{full_text, short_text, AxiomKind};
use crate::proving::formula::{all_of, any_of, holds, negation, Formula, Valuation};
use crate::proving::profile::{
    extra_view, extras, ranks_all, ranks_every, Count, Electorate, Extra, ExtraVotes, Profile,
    VoteCount,
};
use crate::order::Keyed;
use crate::structures::ranking::{Ranking, Tiers};
use crate::proving::rule::rule_trait::{
    can_score_all, not_winner, only_winner, scores_all, winner, wins, wins_alone, zero_votes,
    VotingRule,
};

verus! {

/// Whether all statements of an axiom must hold, or each must be
/// satisfiable.
#[derive(Clone, Copy, Debug, PartialEq, Eq, Structural)]
pub enum AxiomType {
    Forall,
    Exists,
}

/// The rule has a score for each of its own partitions and for each
/// partition of the profile, without extra votes.
pub open spec fn rule_ready<R: VotingRule>(rule: &R, e: Electorate) -> bool {
    &&& scores_all(rule, e, None)
    &&& forall|j: int| 0 <= j < e.partitions.len() ==> rule.scorable(#[trigger] e.partitions[j], e, None)
}

/// The rankings that `keep` does not mark have no votes.
pub open spec fn silent(e: Electorate, keep: Seq<bool>, v: Valuation) -> bool {
    forall|k: int|
        0 <= k < e.rankings.len() && !#[trigger] keep[k] ==> e.amount(
            None,
            e.vote_index(e.rankings[k]),
            v,
        ) == 0
}

/// Some partition that `pick` marks wins.
pub open spec fn some_wins<R: VotingRule>(rule: &R, e: Electorate, pick: Seq<bool>, v: Valuation) -> bool {
    exists|j: int|
        0 <= j < e.partitions.len() && #[trigger] pick[j] && wins(rule, e.partitions[j], e, None, v)
}

/// No partition that `pick` marks wins.
pub open spec fn none_wins<R: VotingRule>(rule: &R, e: Electorate, pick: Seq<bool>, v: Valuation) -> bool {
    forall|j: int|
        0 <= j < e.partitions.len() && #[trigger] pick[j] ==> !wins(rule, e.partitions[j], e, None, v)
}

/// The rule has a score for each of its own partitions and for each
/// partition of the profile, with the votes of `extra` added.
pub open spec fn rule_ready_with<R: VotingRule>(rule: &R, e: Electorate, extra: Option<Extra>) -> bool {
    &&& scores_all(rule, e, extra)
    &&& forall|j: int|
        0 <= j < e.partitions.len() ==> rule.scorable(#[trigger] e.partitions[j], e, extra)
}

/// One more vote, for the ranking `r`.
pub open spec fn one_more(r: Tiers) -> Option<Extra> {
    Some(seq![(r, Count::Fixed(1))])
}

/// Some partition that `pick` marks is the only winner once the votes of
/// `extra` are added.
pub open spec fn some_win_alone<R: VotingRule>(
    rule: &R,
    e: Electorate,
    pick: Seq<bool>,
    extra: Option<Extra>,
    v: Valuation,
) -> bool {
    exists|j: int|
        0 <= j < e.partitions.len() && #[trigger] pick[j] && wins_alone(
            rule,
            e.partitions[j],
            e,
            extra,
            v,
        )
}

/// No partition that `pick` marks is the only winner once the votes of
/// `extra` are added.
pub open spec fn none_wins_alone<R: VotingRule>(
    rule: &R,
    e: Electorate,
    pick: Seq<bool>,
    extra: Option<Extra>,
    v: Valuation,
) -> bool {
    forall|j: int|
        0 <= j < e.partitions.len() && #[trigger] pick[j] ==> !wins_alone(
            rule,
            e.partitions[j],
            e,
            extra,
            v,
        )
}

/// An axiom: a family of statements about a profile and a rule, one
/// for each case, that must all hold or must each be satisfiable.
pub trait Axiom<R: VotingRule> {
    /// The number of cases that the axiom ranges over.
    spec fn cases(e: Electorate) -> nat;

    /// The profiles and rules for which the statements can be formed.
    spec fn ready(e: Electorate, rule: &R) -> bool;

    /// The cases for which the axiom asks nothing.
    spec fn skipped(e: Electorate, i: int) -> bool;

    /// What the axiom asks in case `i`, where the variables have the
    /// values of `v`.
    spec fn meaning(e: Electorate, rule: &R, i: int, v: Valuation) -> bool;

    /// Whether the statements can be formed for `profile` and `rule`.
    fn is_ready(profile: &Profile, rule: &R) -> (b: bool)
        ensures
            b == Self::ready(profile@, rule),
    ;

    /// Whether the number of cases is a number of the machine.
    fn cases_fit(profile: &Profile) -> (b: bool)
        ensures
            b == (Self::cases(profile@) <= usize::MAX),
    ;

    /// The number of cases.
    fn num_cases(profile: &Profile) -> (n: usize)
        requires
            Self::cases(profile@) <= usize::MAX,
        ensures
            n == Self::cases(profile@),
    ;

    /// The statement for case `i`, made when it is asked for; `None` where
    /// the axiom asks nothing in that case.
    fn condition_generator(profile: &Profile, rule: &R, i: usize) -> (f: Option<
        Formula,
    >)
        requires
            Self::ready(profile@, rule),
            i < Self::cases(profile@),
            Self::cases(profile@) <= usize::MAX,
        ensures
            f is None <==> Self::skipped(profile@, i as int),
            f matches Some(g) ==> forall|v: Valuation| #[trigger]
                holds(g, v) <==> Self::meaning(profile@, rule, i as int, v),
    ;

    /// Whether all statements must hold or each must be satisfiable.
    spec fn type_of() -> AxiomType;

    /// Whether all statements must hold or each must be satisfiable.
    fn get_type() -> (t: AxiomType)
        ensures
            t == Self::type_of(),
    ;

    /// Which of the axioms this is.
    spec fn kind() -> AxiomKind;

    /// The short name of the axiom.
    fn short_name() -> (s: &'static str)
        ensures
            s@ == short_text(Self::kind()),
    ;

    /// The full name of the axiom.
    fn full_name() -> (s: &'static str)
        ensures
            s@ == full_text(Self::kind()),
    ;
}

/// The index of the case that the statement with index `k` of the list
/// of all statements belongs to: the `k`-th case that is not skipped.
pub open spec fn kept_cases<R: VotingRule, A: Axiom<R>>(e: Electorate, n: nat) -> Seq<int>
    decreases n,
{
    if n == 0 {
        Seq::empty()
    } else if A::skipped(e, n - 1) {
        kept_cases::<R, A>(e, (n - 1) as nat)
    } else {
        kept_cases::<R, A>(e, (n - 1) as nat).push(n - 1)
    }
}

/// All statements of the axiom `A`, in the order of their cases.
pub fn condition<R: VotingRule, A: Axiom<R>>(profile: &Profile, rule: &R) -> (r: Vec<Formula>)
    requires
        A::ready(profile@, rule),
        A::cases(profile@) <= usize::MAX,
    ensures
        r@.len() == kept_cases::<R, A>(profile@, A::cases(profile@)).len(),
        forall|k: int, v: Valuation|
            0 <= k < r@.len() ==> (#[trigger] holds(r@[k], v) <==> A::meaning(
                profile@,
                rule,
                kept_cases::<R, A>(profile@, A::cases(profile@))[k],
                v,
            )),
{
    let n = A::num_cases(profile);
    let mut r: Vec<Formula> = Vec::new();
    let mut i: usize = 0;
    while i < n
        invariant
            i <= n,
            n == A::cases(profile@),
            r@.len() == kept_cases::<R, A>(profile@, i as nat).len(),
            forall|k: int, v: Valuation|
                0 <= k < r@.len() ==> (#[trigger] holds(r@[k], v) <==> A::meaning(
                    profile@,
                    rule,
                    kept_cases::<R, A>(profile@, i as nat)[k],
                    v,
                )),
        decreases n - i,
    {
        match A::condition_generator(profile, rule, i) {
            None => {},
            Some(g) => {
                r.push(g);
            },
        }
        i += 1;
    }
    r
}

/// The statement that the rankings that `keep` does not mark have no
/// votes.
pub fn silence<R: VotingRule>(profile: &Profile, rule: &R, keep: &Vec<bool>) -> (f: Formula)
    requires
        keep@.len() == profile@.rankings.len(),
    ensures
        forall|v: Valuation| #[trigger] holds(f, v) <==> silent(profile@, keep@, v),
{
    let ghost e = profile@;
    let mut parts: Vec<Formula> = Vec::new();
    let ghost mut origin: Seq<int> = Seq::empty();
    let mut k: usize = 0;
    while k < profile.votes.len()
        invariant
            k <= profile.votes.len(),
            origin.len() == parts@.len(),
            forall|l: int| 0 <= l < origin.len() ==> 0 <= #[trigger] origin[l] < k && !keep@[origin[l]],
            forall|l: int, v: Valuation|
                0 <= l < parts@.len() ==> (#[trigger] holds(parts@[l], v) <==> e.amount(
                    None,
                    e.vote_index(e.rankings[origin[l]]),
                    v,
                ) == 0),
            forall|j: int|
                0 <= j < k && !keep@[j] ==> exists|l: int|
                    0 <= l < origin.len() && #[trigger] origin[l] == j,
        decreases profile.votes.len() - k,
    {
        if !keep[k] {
            assert(e.rankings[k as int] == profile.votes@[k as int].0@);
            let part = zero_votes(rule, &profile.votes[k].0, profile, None);
            let ghost old_origin = origin;
            proof {
                origin = origin.push(k as int);
                assert forall|j: int| 0 <= j < k + 1 && !keep@[j] implies exists|l: int|
                    0 <= l < origin.len() && #[trigger] origin[l] == j by {
                    if j < k {
                        let l = choose|l: int|
                            0 <= l < old_origin.len() && #[trigger] old_origin[l] == j;
                        assert(origin[l] == j);
                    } else {
                        assert(origin[old_origin.len() as int] == j);
                    }
                }
            }
            parts.push(part);
        }
        k += 1;
    }
    let ghost ps = parts@;
    let f = all_of(parts);
    proof {
        assert forall|v: Valuation| #[trigger] holds(f, v) <==> silent(e, keep@, v) by {
            if holds(f, v) {
                assert forall|j: int|
                    0 <= j < e.rankings.len() && !#[trigger] keep@[j] implies e.amount(
                    None,
                    e.vote_index(e.rankings[j]),
                    v,
                ) == 0 by {
                    let l = choose|l: int| 0 <= l < origin.len() && #[trigger] origin[l] == j;
                    assert(holds(ps[l], v));
                }
            }
            if silent(e, keep@, v) {
                assert forall|l: int| 0 <= l < ps.len() implies holds(#[trigger] ps[l], v) by {
                    let j = origin[l];
                    assert(!keep@[j]);
                }
            }
        }
    }
    f
}

/// The statement that some partition that `pick` marks is a winner.
pub fn some_winner<R: VotingRule>(profile: &Profile, rule: &R, pick: &Vec<bool>) -> (f: Formula)
    requires
        pick@.len() == profile@.partitions.len(),
        rule_ready(rule, profile@),
    ensures
        forall|v: Valuation| #[trigger] holds(f, v) <==> some_wins(rule, profile@, pick@, v),
{
    let ghost e = profile@;
    let mut parts: Vec<Formula> = Vec::new();
    let ghost mut origin: Seq<int> = Seq::empty();
    let mut j: usize = 0;
    while j < profile.partitions.len()
        invariant
            j <= profile.partitions.len(),
            origin.len() == parts@.len(),
            forall|l: int| 0 <= l < origin.len() ==> 0 <= #[trigger] origin[l] < j && pick@[origin[l]],
            forall|l: int, v: Valuation|
                0 <= l < parts@.len() ==> (#[trigger] holds(parts@[l], v) <==> wins(
                    rule,
                    e.partitions[origin[l]],
                    e,
                    None,
                    v,
                )),
            forall|i: int|
                0 <= i < j && pick@[i] ==> exists|l: int|
                    0 <= l < origin.len() && #[trigger] origin[l] == i,
        decreases profile.partitions.len() - j,
    {
        if pick[j] {
            assert(e.partitions[j as int] == profile.partitions@[j as int]@);
            let part = winner(rule, &profile.partitions[j], profile, None);
            let ghost old_origin = origin;
            proof {
                origin = origin.push(j as int);
                assert forall|i: int| 0 <= i < j + 1 && pick@[i] implies exists|l: int|
                    0 <= l < origin.len() && #[trigger] origin[l] == i by {
                    if i < j {
                        let l = choose|l: int|
                            0 <= l < old_origin.len() && #[trigger] old_origin[l] == i;
                        assert(origin[l] == i);
                    } else {
                        assert(origin[old_origin.len() as int] == i);
                    }
                }
            }
            parts.push(part);
        }
        j += 1;
    }
    let ghost ps = parts@;
    let f = any_of(parts);
    proof {
        assert forall|v: Valuation| #[trigger] holds(f, v) <==> some_wins(rule, e, pick@, v) by {
            if holds(f, v) {
                let l = choose|l: int| 0 <= l < ps.len() && holds(#[trigger] ps[l], v);
                let i = origin[l];
                assert(pick@[i] && wins(rule, e.partitions[i], e, None, v));
            }
            if some_wins(rule, e, pick@, v) {
                let i = choose|i: int|
                    0 <= i < e.partitions.len() && #[trigger] pick@[i] && wins(
                        rule,
                        e.partitions[i],
                        e,
                        None,
                        v,
                    );
                let l = choose|l: int| 0 <= l < origin.len() && #[trigger] origin[l] == i;
                assert(holds(ps[l], v));
            }
        }
    }
    f
}

/// The statement that no partition that `pick` marks is a winner.
pub fn no_winner<R: VotingRule>(profile: &Profile, rule: &R, pick: &Vec<bool>) -> (f: Formula)
    requires
        pick@.len() == profile@.partitions.len(),
        rule_ready(rule, profile@),
    ensures
        forall|v: Valuation| #[trigger] holds(f, v) <==> none_wins(rule, profile@, pick@, v),
{
    let ghost e = profile@;
    let mut parts: Vec<Formula> = Vec::new();
    let ghost mut origin: Seq<int> = Seq::empty();
    let mut j: usize = 0;
    while j < profile.partitions.len()
        invariant
            j <= profile.partitions.len(),
            origin.len() == parts@.len(),
            forall|l: int| 0 <= l < origin.len() ==> 0 <= #[trigger] origin[l] < j && pick@[origin[l]],
            forall|l: int, v: Valuation|
                0 <= l < parts@.len() ==> (#[trigger] holds(parts@[l], v) <==> !wins(
                    rule,
                    e.partitions[origin[l]],
                    e,
                    None,
                    v,
                )),
            forall|i: int|
                0 <= i < j && pick@[i] ==> exists|l: int|
                    0 <= l < origin.len() && #[trigger] origin[l] == i,
        decreases profile.partitions.len() - j,
    {
        if pick[j] {
            assert(e.partitions[j as int] == profile.partitions@[j as int]@);
            let part = not_winner(rule, &profile.partitions[j], profile, None);
            let ghost old_origin = origin;
            proof {
                origin = origin.push(j as int);
                assert forall|i: int| 0 <= i < j + 1 && pick@[i] implies exists|l: int|
                    0 <= l < origin.len() && #[trigger] origin[l] == i by {
                    if i < j {
                        let l = choose|l: int|
                            0 <= l < old_origin.len() && #[trigger] old_origin[l] == i;
                        assert(origin[l] == i);
                    } else {
                        assert(origin[old_origin.len() as int] == i);
                    }
                }
            }
            parts.push(part);
        }
        j += 1;
    }
    let ghost ps = parts@;
    let f = all_of(parts);
    proof {
        assert forall|v: Valuation| #[trigger] holds(f, v) <==> none_wins(rule, e, pick@, v) by {
            if holds(f, v) {
                assert forall|i: int|
                    0 <= i < e.partitions.len() && #[trigger] pick@[i] implies !wins(
                    rule,
                    e.partitions[i],
                    e,
                    None,
                    v,
                ) by {
                    let l = choose|l: int| 0 <= l < origin.len() && #[trigger] origin[l] == i;
                    assert(holds(ps[l], v));
                }
            }
            if none_wins(rule, e, pick@, v) {
                assert forall|l: int| 0 <= l < ps.len() implies holds(#[trigger] ps[l], v) by {
                    let i = origin[l];
                    assert(pick@[i]);
                }
            }
        }
    }
    f
}

/// The statement that some partition that `pick` marks is the only winner, with the votes of
/// `extra_votes` added.
pub fn some_sole_winner<R: VotingRule>(
    profile: &Profile,
    rule: &R,
    pick: &Vec<bool>,
    extra_votes: Option<&ExtraVotes>,
) -> (f: Formula)
    requires
        pick@.len() == profile@.partitions.len(),
        rule_ready_with(rule, profile@, extras(extra_votes)),
    ensures
        forall|v: Valuation| #[trigger] holds(f, v) <==> some_win_alone(rule, profile@, pick@, extras(extra_votes), v),
{
    let ghost e = profile@;
    let ghost x = extras(extra_votes);
    let mut parts: Vec<Formula> = Vec::new();
    let ghost mut origin: Seq<int> = Seq::empty();
    let mut j: usize = 0;
    while j < profile.partitions.len()
        invariant
            j <= profile.partitions.len(),
            origin.len() == parts@.len(),
            forall|l: int| 0 <= l < origin.len() ==> 0 <= #[trigger] origin[l] < j && pick@[origin[l]],
            forall|l: int, v: Valuation|
                0 <= l < parts@.len() ==> (#[trigger] holds(parts@[l], v) <==> wins_alone(
                    rule,
                    e.partitions[origin[l]],
                    e,
                    x,
                    v,
                )),
            forall|i: int|
                0 <= i < j && pick@[i] ==> exists|l: int|
                    0 <= l < origin.len() && #[trigger] origin[l] == i,
        decreases profile.partitions.len() - j,
    {
        if pick[j] {
            assert(e.partitions[j as int] == profile.partitions@[j as int]@);
            let part = only_winner(rule, &profile.partitions[j], profile, extra_votes);
            let ghost old_origin = origin;
            proof {
                origin = origin.push(j as int);
                assert forall|i: int| 0 <= i < j + 1 && pick@[i] implies exists|l: int|
                    0 <= l < origin.len() && #[trigger] origin[l] == i by {
                    if i < j {
                        let l = choose|l: int|
                            0 <= l < old_origin.len() && #[trigger] old_origin[l] == i;
                        assert(origin[l] == i);
                    } else {
                        assert(origin[old_origin.len() as int] == i);
                    }
                }
            }
            parts.push(part);
        }
        j += 1;
    }
    let ghost ps = parts@;
    let f = any_of(parts);
    proof {
        assert forall|v: Valuation| #[trigger] holds(f, v) <==> some_win_alone(rule, e, pick@, x, v) by {
            if holds(f, v) {
                let l = choose|l: int| 0 <= l < ps.len() && holds(#[trigger] ps[l], v);
                let i = origin[l];
                assert(pick@[i] && wins_alone(rule, e.partitions[i], e, x, v));
            }
            if some_win_alone(rule, e, pick@, x, v) {
                let i = choose|i: int|
                    0 <= i < e.partitions.len() && #[trigger] pick@[i] && wins_alone(
                        rule,
                        e.partitions[i],
                        e,
                        x,
                        v,
                    );
                let l = choose|l: int| 0 <= l < origin.len() && #[trigger] origin[l] == i;
                assert(holds(ps[l], v));
            }
        }
    }
    f
}

/// The statement that no partition that `pick` marks is the only winner, with the votes of
/// `extra_votes` added.
pub fn no_sole_winner<R: VotingRule>(
    profile: &Profile,
    rule: &R,
    pick: &Vec<bool>,
    extra_votes: Option<&ExtraVotes>,
) -> (f: Formula)
    requires
        pick@.len() == profile@.partitions.len(),
        rule_ready_with(rule, profile@, extras(extra_votes)),
    ensures
        forall|v: Valuation| #[trigger] holds(f, v) <==> none_wins_alone(rule, profile@, pick@, extras(extra_votes), v),
{
    let ghost e = profile@;
    let ghost x = extras(extra_votes);
    let mut parts: Vec<Formula> = Vec::new();
    let ghost mut origin: Seq<int> = Seq::empty();
    let mut j: usize = 0;
    while j < profile.partitions.len()
        invariant
            j <= profile.partitions.len(),
            origin.len() == parts@.len(),
            forall|l: int| 0 <= l < origin.len() ==> 0 <= #[trigger] origin[l] < j && pick@[origin[l]],
            forall|l: int, v: Valuation|
                0 <= l < parts@.len() ==> (#[trigger] holds(parts@[l], v) <==> !wins_alone(
                    rule,
                    e.partitions[origin[l]],
                    e,
                    x,
                    v,
                )),
            forall|i: int|
                0 <= i < j && pick@[i] ==> exists|l: int|
                    0 <= l < origin.len() && #[trigger] origin[l] == i,
        decreases profile.partitions.len() - j,
    {
        if pick[j] {
            assert(e.partitions[j as int] == profile.partitions@[j as int]@);
            let part = negation(only_winner(rule, &profile.partitions[j], profile, extra_votes));
            let ghost old_origin = origin;
            proof {
                origin = origin.push(j as int);
                assert forall|i: int| 0 <= i < j + 1 && pick@[i] implies exists|l: int|
                    0 <= l < origin.len() && #[trigger] origin[l] == i by {
                    if i < j {
                        let l = choose|l: int|
                            0 <= l < old_origin.len() && #[trigger] old_origin[l] == i;
                        assert(origin[l] == i);
                    } else {
                        assert(origin[old_origin.len() as int] == i);
                    }
                }
            }
            parts.push(part);
        }
        j += 1;
    }
    let ghost ps = parts@;
    let f = all_of(parts);
    proof {
        assert forall|v: Valuation| #[trigger] holds(f, v) <==> none_wins_alone(rule, e, pick@, x, v) by {
            if holds(f, v) {
                assert forall|i: int|
                    0 <= i < e.partitions.len() && #[trigger] pick@[i] implies !wins_alone(
                    rule,
                    e.partitions[i],
                    e,
                    x,
                    v,
                ) by {
                    let l = choose|l: int| 0 <= l < origin.len() && #[trigger] origin[l] == i;
                    assert(holds(ps[l], v));
                }
            }
            if none_wins_alone(rule, e, pick@, x, v) {
                assert forall|l: int| 0 <= l < ps.len() implies holds(#[trigger] ps[l], v) by {
                    let i = origin[l];
                    assert(pick@[i]);
                }
            }
        }
    }
    f
}

/// One vote for `ranking`, to be added to a profile.
pub fn one_vote(ranking: &Ranking) -> (x: ExtraVotes)
    ensures
        extras(Some(&x)) == one_more(ranking@),
{
    let mut x: ExtraVotes = Vec::new();
    x.push((ranking.copy(), VoteCount::Fixed(1)));
    assert(extra_view(&x) =~= seq![(ranking@, Count::Fixed(1))]);
    x
}

/// Whether the rule has a score for each of its own partitions and for
/// each partition of the profile, with the votes of `extra_votes` added.
pub fn is_rule_ready<R: VotingRule>(rule: &R, profile: &Profile, extra_votes: Option<&ExtraVotes>) -> (b:
    bool)
    ensures
        b == rule_ready_with(rule, profile@, extras(extra_votes)),
        extra_votes is None ==> b == rule_ready(rule, profile@),
{
    if !can_score_all(rule, profile, extra_votes) {
        return false;
    }
    let ghost e = profile@;
    let mut j: usize = 0;
    while j < profile.partitions.len()
        invariant
            j <= profile.partitions.len(),
            forall|l: int|
                0 <= l < j ==> rule.scorable(#[trigger] e.partitions[l], e, extras(extra_votes)),
        decreases profile.partitions.len() - j,
    {
        assert(e.partitions[j as int] == profile.partitions@[j as int]@);
        if !rule.can_score(&profile.partitions[j], profile, extra_votes) {
            return false;
        }
        j += 1;
    }
    true
}

/// Whether every ranking of the profile has a class.
pub fn has_first_classes(profile: &Profile) -> (b: bool)
    ensures
        b == forall|k: int|
            0 <= k < profile@.rankings.len() ==> (#[trigger] profile@.rankings[k]).len() > 0,
{
    let mut k: usize = 0;
    while k < profile.votes.len()
        invariant
            k <= profile.votes.len(),
            forall|l: int| 0 <= l < k ==> (#[trigger] profile@.rankings[l]).len() > 0,
        decreases profile.votes.len() - k,
    {
        assert(profile@.rankings[k as int] == profile.votes@[k as int].0@);
        if profile.votes[k].0.num_indifference_class() == 0 {
            return false;
        }
        k += 1;
    }
    true
}

/// Whether every ranking of the profile ranks every partition of the
/// profile.
pub fn is_complete(profile: &Profile) -> (b: bool)
    ensures
        b == profile@.complete(),
{
    let mut k: usize = 0;
    while k < profile.votes.len()
        invariant
            k <= profile.votes.len(),
            forall|l: int|
                0 <= l < k ==> ranks_all(#[trigger] profile@.rankings[l], profile@.partitions),
        decreases profile.votes.len() - k,
    {
        assert(profile@.rankings[k as int] == profile.votes@[k as int].0@);
        if !ranks_every(&profile.votes[k].0, &profile.partitions) {
            return false;
        }
        k += 1;
    }
    true
}

/// Whether the rule is ready for the profile with one more vote for any
/// of its rankings.
pub fn is_ready_for_one_more<R: VotingRule>(rule: &R, profile: &Profile) -> (b: bool)
    ensures
        b == forall|k: int|
            0 <= k < profile@.rankings.len() ==> rule_ready_with(
                rule,
                profile@,
                one_more(#[trigger] profile@.rankings[k]),
            ),
{
    let mut k: usize = 0;
    while k < profile.votes.len()
        invariant
            k <= profile.votes.len(),
            forall|l: int|
                0 <= l < k ==> rule_ready_with(
                    rule,
                    profile@,
                    one_more(#[trigger] profile@.rankings[l]),
                ),
        decreases profile.votes.len() - k,
    {
        assert(profile@.rankings[k as int] == profile.votes@[k as int].0@);
        let extra = one_vote(&profile.votes[k].0);
        if !is_rule_ready(rule, profile, Some(&extra)) {
            return false;
        }
        k += 1;
    }
    true
}

/// Whether the product of the two numbers is a number of the machine.
pub fn product_fits(a: usize, b: usize) -> (r: bool)
    ensures
        r == (a * b <= usize::MAX),
{
    a.checked_mul(b).is_some()
}

} // verus!
