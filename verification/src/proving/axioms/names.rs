//! The axioms by name.
use vstd::prelude::*;
use crate::proving::axioms::{
    Axiom, AxiomType, Consistency, FullCoalitionSupport, Majority, Nonimposition, Participation,
    StrictAllSplit, StrictSomeSplit, Strategyproof, StrongPairSupport, Strongnonimposition,
    Unanimity, WeakAllSplit, WeakPairSupport, WeakSomeSplit,
};
use crate::proving::formula::{holds, Formula, Valuation};
use crate::proving::profile::{Electorate, Profile};
use crate::proving::rule::rule_trait::VotingRule;
use crate::utils::text::{eq_ignore_case, lowered};

verus! {

/// The axioms that the library knows.
#[derive(Clone, Copy, Debug, PartialEq, Eq, Structural)]
pub enum AxiomKind {
    Unanimity,
    Consistency,
    FullCoalitionSupport,
    Majority,
    Nonimposition,
    Participation,
    Strategyproof,
    Strongnonimposition,
    StrictSomeSplit,
    StrictAllSplit,
    WeakSomeSplit,
    WeakAllSplit,
    WeakPairSupport,
    StrongPairSupport,
}

/// All axioms, in the order in which a name is looked up.
pub open spec fn kinds() -> Seq<AxiomKind> {
    seq![
        AxiomKind::Unanimity,
        AxiomKind::Consistency,
        AxiomKind::FullCoalitionSupport,
        AxiomKind::Majority,
        AxiomKind::Nonimposition,
        AxiomKind::Participation,
        AxiomKind::Strategyproof,
        AxiomKind::Strongnonimposition,
        AxiomKind::StrictSomeSplit,
        AxiomKind::StrictAllSplit,
        AxiomKind::WeakSomeSplit,
        AxiomKind::WeakAllSplit,
        AxiomKind::WeakPairSupport,
        AxiomKind::StrongPairSupport,
    ]
}

/// The short name of an axiom.
pub open spec fn short_text(kind: AxiomKind) -> Seq<char> {
    match kind {
        AxiomKind::Unanimity => "unam"@,
        AxiomKind::Consistency => "cons"@,
        AxiomKind::FullCoalitionSupport => "fcs"@,
        AxiomKind::Majority => "maj"@,
        AxiomKind::Nonimposition => "noim"@,
        AxiomKind::Participation => "part"@,
        AxiomKind::Strategyproof => "strat"@,
        AxiomKind::Strongnonimposition => "snoim"@,
        AxiomKind::StrictSomeSplit => "splitss"@,
        AxiomKind::StrictAllSplit => "splitsa"@,
        AxiomKind::WeakSomeSplit => "splitws"@,
        AxiomKind::WeakAllSplit => "splitwa"@,
        AxiomKind::WeakPairSupport => "wps"@,
        AxiomKind::StrongPairSupport => "sps"@,
    }
}

/// The full name of an axiom.
pub open spec fn full_text(kind: AxiomKind) -> Seq<char> {
    match kind {
        AxiomKind::Unanimity => "unanimity"@,
        AxiomKind::Consistency => "consistency"@,
        AxiomKind::FullCoalitionSupport => "full-coalition-support"@,
        AxiomKind::Majority => "majority"@,
        AxiomKind::Nonimposition => "noimposition"@,
        AxiomKind::Participation => "participation"@,
        AxiomKind::Strategyproof => "strategyproof"@,
        AxiomKind::Strongnonimposition => "strong-nonimposition"@,
        AxiomKind::StrictSomeSplit => "strictly-some-split"@,
        AxiomKind::StrictAllSplit => "strictly-all-split"@,
        AxiomKind::WeakSomeSplit => "weakly-some-split"@,
        AxiomKind::WeakAllSplit => "weakly-all-split"@,
        AxiomKind::WeakPairSupport => "weak-pair-support"@,
        AxiomKind::StrongPairSupport => "strong-pair-support"@,
    }
}

/// `name` is the short or the full name of the axiom, whatever the case
/// of its letters.
pub open spec fn names(kind: AxiomKind, name: Seq<char>) -> bool {
    lowered(name) == lowered(short_text(kind)) || lowered(name) == lowered(full_text(kind))
}

/// The number of cases of an axiom.
pub open spec fn cases_of<R: VotingRule>(kind: AxiomKind, e: Electorate) -> nat {
    match kind {
        AxiomKind::Unanimity => <Unanimity as Axiom<R>>::cases(e),
        AxiomKind::Consistency => <Consistency as Axiom<R>>::cases(e),
        AxiomKind::FullCoalitionSupport => <FullCoalitionSupport as Axiom<R>>::cases(e),
        AxiomKind::Majority => <Majority as Axiom<R>>::cases(e),
        AxiomKind::Nonimposition => <Nonimposition as Axiom<R>>::cases(e),
        AxiomKind::Participation => <Participation as Axiom<R>>::cases(e),
        AxiomKind::Strategyproof => <Strategyproof as Axiom<R>>::cases(e),
        AxiomKind::Strongnonimposition => <Strongnonimposition as Axiom<R>>::cases(e),
        AxiomKind::StrictSomeSplit => <StrictSomeSplit as Axiom<R>>::cases(e),
        AxiomKind::StrictAllSplit => <StrictAllSplit as Axiom<R>>::cases(e),
        AxiomKind::WeakSomeSplit => <WeakSomeSplit as Axiom<R>>::cases(e),
        AxiomKind::WeakAllSplit => <WeakAllSplit as Axiom<R>>::cases(e),
        AxiomKind::WeakPairSupport => <WeakPairSupport as Axiom<R>>::cases(e),
        AxiomKind::StrongPairSupport => <StrongPairSupport as Axiom<R>>::cases(e),
    }
}

/// The profiles and rules for which the statements of an axiom can be
/// formed.
pub open spec fn ready_for<R: VotingRule>(kind: AxiomKind, e: Electorate, rule: &R) -> bool {
    match kind {
        AxiomKind::Unanimity => <Unanimity as Axiom<R>>::ready(e, rule),
        AxiomKind::Consistency => <Consistency as Axiom<R>>::ready(e, rule),
        AxiomKind::FullCoalitionSupport => <FullCoalitionSupport as Axiom<R>>::ready(e, rule),
        AxiomKind::Majority => <Majority as Axiom<R>>::ready(e, rule),
        AxiomKind::Nonimposition => <Nonimposition as Axiom<R>>::ready(e, rule),
        AxiomKind::Participation => <Participation as Axiom<R>>::ready(e, rule),
        AxiomKind::Strategyproof => <Strategyproof as Axiom<R>>::ready(e, rule),
        AxiomKind::Strongnonimposition => <Strongnonimposition as Axiom<R>>::ready(e, rule),
        AxiomKind::StrictSomeSplit => <StrictSomeSplit as Axiom<R>>::ready(e, rule),
        AxiomKind::StrictAllSplit => <StrictAllSplit as Axiom<R>>::ready(e, rule),
        AxiomKind::WeakSomeSplit => <WeakSomeSplit as Axiom<R>>::ready(e, rule),
        AxiomKind::WeakAllSplit => <WeakAllSplit as Axiom<R>>::ready(e, rule),
        AxiomKind::WeakPairSupport => <WeakPairSupport as Axiom<R>>::ready(e, rule),
        AxiomKind::StrongPairSupport => <StrongPairSupport as Axiom<R>>::ready(e, rule),
    }
}

/// The cases for which an axiom asks nothing.
pub open spec fn skipped_by<R: VotingRule>(kind: AxiomKind, e: Electorate, i: int) -> bool {
    match kind {
        AxiomKind::Unanimity => <Unanimity as Axiom<R>>::skipped(e, i),
        AxiomKind::Consistency => <Consistency as Axiom<R>>::skipped(e, i),
        AxiomKind::FullCoalitionSupport => <FullCoalitionSupport as Axiom<R>>::skipped(e, i),
        AxiomKind::Majority => <Majority as Axiom<R>>::skipped(e, i),
        AxiomKind::Nonimposition => <Nonimposition as Axiom<R>>::skipped(e, i),
        AxiomKind::Participation => <Participation as Axiom<R>>::skipped(e, i),
        AxiomKind::Strategyproof => <Strategyproof as Axiom<R>>::skipped(e, i),
        AxiomKind::Strongnonimposition => <Strongnonimposition as Axiom<R>>::skipped(e, i),
        AxiomKind::StrictSomeSplit => <StrictSomeSplit as Axiom<R>>::skipped(e, i),
        AxiomKind::StrictAllSplit => <StrictAllSplit as Axiom<R>>::skipped(e, i),
        AxiomKind::WeakSomeSplit => <WeakSomeSplit as Axiom<R>>::skipped(e, i),
        AxiomKind::WeakAllSplit => <WeakAllSplit as Axiom<R>>::skipped(e, i),
        AxiomKind::WeakPairSupport => <WeakPairSupport as Axiom<R>>::skipped(e, i),
        AxiomKind::StrongPairSupport => <StrongPairSupport as Axiom<R>>::skipped(e, i),
    }
}

/// What an axiom asks in case `i`.
pub open spec fn meaning_of<R: VotingRule>(
    kind: AxiomKind,
    e: Electorate,
    rule: &R,
    i: int,
    v: Valuation,
) -> bool {
    match kind {
        AxiomKind::Unanimity => <Unanimity as Axiom<R>>::meaning(e, rule, i, v),
        AxiomKind::Consistency => <Consistency as Axiom<R>>::meaning(e, rule, i, v),
        AxiomKind::FullCoalitionSupport => <FullCoalitionSupport as Axiom<R>>::meaning(e, rule, i, v),
        AxiomKind::Majority => <Majority as Axiom<R>>::meaning(e, rule, i, v),
        AxiomKind::Nonimposition => <Nonimposition as Axiom<R>>::meaning(e, rule, i, v),
        AxiomKind::Participation => <Participation as Axiom<R>>::meaning(e, rule, i, v),
        AxiomKind::Strategyproof => <Strategyproof as Axiom<R>>::meaning(e, rule, i, v),
        AxiomKind::Strongnonimposition => <Strongnonimposition as Axiom<R>>::meaning(e, rule, i, v),
        AxiomKind::StrictSomeSplit => <StrictSomeSplit as Axiom<R>>::meaning(e, rule, i, v),
        AxiomKind::StrictAllSplit => <StrictAllSplit as Axiom<R>>::meaning(e, rule, i, v),
        AxiomKind::WeakSomeSplit => <WeakSomeSplit as Axiom<R>>::meaning(e, rule, i, v),
        AxiomKind::WeakAllSplit => <WeakAllSplit as Axiom<R>>::meaning(e, rule, i, v),
        AxiomKind::WeakPairSupport => <WeakPairSupport as Axiom<R>>::meaning(e, rule, i, v),
        AxiomKind::StrongPairSupport => <StrongPairSupport as Axiom<R>>::meaning(e, rule, i, v),
    }
}

/// Whether all statements of an axiom must hold or each must be
/// satisfiable.
pub open spec fn type_of_kind<R: VotingRule>(kind: AxiomKind) -> AxiomType {
    match kind {
        AxiomKind::Unanimity => <Unanimity as Axiom<R>>::type_of(),
        AxiomKind::Consistency => <Consistency as Axiom<R>>::type_of(),
        AxiomKind::FullCoalitionSupport => <FullCoalitionSupport as Axiom<R>>::type_of(),
        AxiomKind::Majority => <Majority as Axiom<R>>::type_of(),
        AxiomKind::Nonimposition => <Nonimposition as Axiom<R>>::type_of(),
        AxiomKind::Participation => <Participation as Axiom<R>>::type_of(),
        AxiomKind::Strategyproof => <Strategyproof as Axiom<R>>::type_of(),
        AxiomKind::Strongnonimposition => <Strongnonimposition as Axiom<R>>::type_of(),
        AxiomKind::StrictSomeSplit => <StrictSomeSplit as Axiom<R>>::type_of(),
        AxiomKind::StrictAllSplit => <StrictAllSplit as Axiom<R>>::type_of(),
        AxiomKind::WeakSomeSplit => <WeakSomeSplit as Axiom<R>>::type_of(),
        AxiomKind::WeakAllSplit => <WeakAllSplit as Axiom<R>>::type_of(),
        AxiomKind::WeakPairSupport => <WeakPairSupport as Axiom<R>>::type_of(),
        AxiomKind::StrongPairSupport => <StrongPairSupport as Axiom<R>>::type_of(),
    }
}

/// The short name of an axiom.
pub fn short_name(kind: AxiomKind) -> (s: &'static str)
    ensures
        s@ == short_text(kind),
{
    match kind {
        AxiomKind::Unanimity => "unam",
        AxiomKind::Consistency => "cons",
        AxiomKind::FullCoalitionSupport => "fcs",
        AxiomKind::Majority => "maj",
        AxiomKind::Nonimposition => "noim",
        AxiomKind::Participation => "part",
        AxiomKind::Strategyproof => "strat",
        AxiomKind::Strongnonimposition => "snoim",
        AxiomKind::StrictSomeSplit => "splitss",
        AxiomKind::StrictAllSplit => "splitsa",
        AxiomKind::WeakSomeSplit => "splitws",
        AxiomKind::WeakAllSplit => "splitwa",
        AxiomKind::WeakPairSupport => "wps",
        AxiomKind::StrongPairSupport => "sps",
    }
}

/// The full name of an axiom.
pub fn full_name(kind: AxiomKind) -> (s: &'static str)
    ensures
        s@ == full_text(kind),
{
    match kind {
        AxiomKind::Unanimity => "unanimity",
        AxiomKind::Consistency => "consistency",
        AxiomKind::FullCoalitionSupport => "full-coalition-support",
        AxiomKind::Majority => "majority",
        AxiomKind::Nonimposition => "noimposition",
        AxiomKind::Participation => "participation",
        AxiomKind::Strategyproof => "strategyproof",
        AxiomKind::Strongnonimposition => "strong-nonimposition",
        AxiomKind::StrictSomeSplit => "strictly-some-split",
        AxiomKind::StrictAllSplit => "strictly-all-split",
        AxiomKind::WeakSomeSplit => "weakly-some-split",
        AxiomKind::WeakAllSplit => "weakly-all-split",
        AxiomKind::WeakPairSupport => "weak-pair-support",
        AxiomKind::StrongPairSupport => "strong-pair-support",
    }
}

/// All axioms, in the order in which a name is looked up.
pub fn all_axiom_kinds() -> (r: Vec<AxiomKind>)
    ensures
        r@ == kinds(),
{
    let mut r: Vec<AxiomKind> = Vec::new();
    r.push(AxiomKind::Unanimity);
    r.push(AxiomKind::Consistency);
    r.push(AxiomKind::FullCoalitionSupport);
    r.push(AxiomKind::Majority);
    r.push(AxiomKind::Nonimposition);
    r.push(AxiomKind::Participation);
    r.push(AxiomKind::Strategyproof);
    r.push(AxiomKind::Strongnonimposition);
    r.push(AxiomKind::StrictSomeSplit);
    r.push(AxiomKind::StrictAllSplit);
    r.push(AxiomKind::WeakSomeSplit);
    r.push(AxiomKind::WeakAllSplit);
    r.push(AxiomKind::WeakPairSupport);
    r.push(AxiomKind::StrongPairSupport);
    assert(r@ =~= kinds());
    r
}

/// The short and the full name of every axiom.
pub fn all_axiom_names() -> (r: Vec<(&'static str, &'static str)>)
    ensures
        r@.len() == kinds().len(),
        forall|i: int|
            0 <= i < r@.len() ==> (#[trigger] r@[i]).0@ == short_text(kinds()[i]) && r@[i].1@
                == full_text(kinds()[i]),
{
    let all = all_axiom_kinds();
    let mut r: Vec<(&'static str, &'static str)> = Vec::new();
    let mut i: usize = 0;
    while i < all.len()
        invariant
            i <= all.len(),
            all@ == kinds(),
            r@.len() == i,
            forall|j: int|
                0 <= j < i ==> (#[trigger] r@[j]).0@ == short_text(kinds()[j]) && r@[j].1@
                    == full_text(kinds()[j]),
        decreases all.len() - i,
    {
        r.push((short_name(all[i]), full_name(all[i])));
        i += 1;
    }
    r
}

/// The axiom with the short or full name `name`, whatever the case of
/// its letters: the first such axiom in the order of `kinds`, or none.
pub fn axiom_kind(name: &str) -> (r: Option<AxiomKind>)
    ensures
        match r {
            Some(kind) => exists|i: int|
                0 <= i < kinds().len() && #[trigger] kinds()[i] == kind && names(kind, name@)
                    && forall|j: int| 0 <= j < i ==> !names(#[trigger] kinds()[j], name@),
            None => forall|i: int| 0 <= i < kinds().len() ==> !names(#[trigger] kinds()[i], name@),
        },
{
    let all = all_axiom_kinds();
    let mut i: usize = 0;
    while i < all.len()
        invariant
            i <= all.len(),
            all@ == kinds(),
            forall|j: int| 0 <= j < i ==> !names(#[trigger] kinds()[j], name@),
        decreases all.len() - i,
    {
        if eq_ignore_case(name, short_name(all[i])) || eq_ignore_case(name, full_name(all[i])) {
            assert(kinds()[i as int] == all@[i as int]);
            return Some(all[i]);
        }
        i += 1;
    }
    None
}

/// The short name of the axiom with the name `name`, if there is one.
pub fn get_axiom_short_name(name: &str) -> (r: Option<&'static str>)
    ensures
        r is None <==> forall|i: int| 0 <= i < kinds().len() ==> !names(#[trigger] kinds()[i], name@),
        r matches Some(s) ==> exists|i: int|
            0 <= i < kinds().len() && names(#[trigger] kinds()[i], name@) && s@ == short_text(
                kinds()[i],
            ),
{
    match axiom_kind(name) {
        Some(kind) => Some(short_name(kind)),
        None => None,
    }
}

/// The full name of the axiom with the name `name`, if there is one.
pub fn get_axiom_full_name(name: &str) -> (r: Option<&'static str>)
    ensures
        r is None <==> forall|i: int| 0 <= i < kinds().len() ==> !names(#[trigger] kinds()[i], name@),
        r matches Some(s) ==> exists|i: int|
            0 <= i < kinds().len() && names(#[trigger] kinds()[i], name@) && s@ == full_text(
                kinds()[i],
            ),
{
    match axiom_kind(name) {
        Some(kind) => Some(full_name(kind)),
        None => None,
    }
}

/// Whether the statements of an axiom can be formed for `profile` and
/// `rule`.
pub fn is_ready<R: VotingRule>(kind: AxiomKind, profile: &Profile, rule: &R) -> (b: bool)
    ensures
        b == ready_for(kind, profile@, rule),
{
    match kind {
        AxiomKind::Unanimity => <Unanimity as Axiom<R>>::is_ready(profile, rule),
        AxiomKind::Consistency => <Consistency as Axiom<R>>::is_ready(profile, rule),
        AxiomKind::FullCoalitionSupport => <FullCoalitionSupport as Axiom<R>>::is_ready(profile, rule),
        AxiomKind::Majority => <Majority as Axiom<R>>::is_ready(profile, rule),
        AxiomKind::Nonimposition => <Nonimposition as Axiom<R>>::is_ready(profile, rule),
        AxiomKind::Participation => <Participation as Axiom<R>>::is_ready(profile, rule),
        AxiomKind::Strategyproof => <Strategyproof as Axiom<R>>::is_ready(profile, rule),
        AxiomKind::Strongnonimposition => <Strongnonimposition as Axiom<R>>::is_ready(profile, rule),
        AxiomKind::StrictSomeSplit => <StrictSomeSplit as Axiom<R>>::is_ready(profile, rule),
        AxiomKind::StrictAllSplit => <StrictAllSplit as Axiom<R>>::is_ready(profile, rule),
        AxiomKind::WeakSomeSplit => <WeakSomeSplit as Axiom<R>>::is_ready(profile, rule),
        AxiomKind::WeakAllSplit => <WeakAllSplit as Axiom<R>>::is_ready(profile, rule),
        AxiomKind::WeakPairSupport => <WeakPairSupport as Axiom<R>>::is_ready(profile, rule),
        AxiomKind::StrongPairSupport => <StrongPairSupport as Axiom<R>>::is_ready(profile, rule),
    }
}

/// Whether the number of cases of an axiom is a number of the machine.
pub fn cases_fit<R: VotingRule>(kind: AxiomKind, profile: &Profile) -> (b: bool)
    ensures
        b == (cases_of::<R>(kind, profile@) <= usize::MAX),
{
    match kind {
        AxiomKind::Unanimity => <Unanimity as Axiom<R>>::cases_fit(profile),
        AxiomKind::Consistency => <Consistency as Axiom<R>>::cases_fit(profile),
        AxiomKind::FullCoalitionSupport => <FullCoalitionSupport as Axiom<R>>::cases_fit(profile),
        AxiomKind::Majority => <Majority as Axiom<R>>::cases_fit(profile),
        AxiomKind::Nonimposition => <Nonimposition as Axiom<R>>::cases_fit(profile),
        AxiomKind::Participation => <Participation as Axiom<R>>::cases_fit(profile),
        AxiomKind::Strategyproof => <Strategyproof as Axiom<R>>::cases_fit(profile),
        AxiomKind::Strongnonimposition => <Strongnonimposition as Axiom<R>>::cases_fit(profile),
        AxiomKind::StrictSomeSplit => <StrictSomeSplit as Axiom<R>>::cases_fit(profile),
        AxiomKind::StrictAllSplit => <StrictAllSplit as Axiom<R>>::cases_fit(profile),
        AxiomKind::WeakSomeSplit => <WeakSomeSplit as Axiom<R>>::cases_fit(profile),
        AxiomKind::WeakAllSplit => <WeakAllSplit as Axiom<R>>::cases_fit(profile),
        AxiomKind::WeakPairSupport => <WeakPairSupport as Axiom<R>>::cases_fit(profile),
        AxiomKind::StrongPairSupport => <StrongPairSupport as Axiom<R>>::cases_fit(profile),
    }
}

/// The number of cases of an axiom.
pub fn num_cases<R: VotingRule>(kind: AxiomKind, profile: &Profile) -> (n: usize)
    requires
        cases_of::<R>(kind, profile@) <= usize::MAX,
    ensures
        n == cases_of::<R>(kind, profile@),
{
    match kind {
        AxiomKind::Unanimity => <Unanimity as Axiom<R>>::num_cases(profile),
        AxiomKind::Consistency => <Consistency as Axiom<R>>::num_cases(profile),
        AxiomKind::FullCoalitionSupport => <FullCoalitionSupport as Axiom<R>>::num_cases(profile),
        AxiomKind::Majority => <Majority as Axiom<R>>::num_cases(profile),
        AxiomKind::Nonimposition => <Nonimposition as Axiom<R>>::num_cases(profile),
        AxiomKind::Participation => <Participation as Axiom<R>>::num_cases(profile),
        AxiomKind::Strategyproof => <Strategyproof as Axiom<R>>::num_cases(profile),
        AxiomKind::Strongnonimposition => <Strongnonimposition as Axiom<R>>::num_cases(profile),
        AxiomKind::StrictSomeSplit => <StrictSomeSplit as Axiom<R>>::num_cases(profile),
        AxiomKind::StrictAllSplit => <StrictAllSplit as Axiom<R>>::num_cases(profile),
        AxiomKind::WeakSomeSplit => <WeakSomeSplit as Axiom<R>>::num_cases(profile),
        AxiomKind::WeakAllSplit => <WeakAllSplit as Axiom<R>>::num_cases(profile),
        AxiomKind::WeakPairSupport => <WeakPairSupport as Axiom<R>>::num_cases(profile),
        AxiomKind::StrongPairSupport => <StrongPairSupport as Axiom<R>>::num_cases(profile),
    }
}

/// The statement of an axiom for case `i`, or `None` where the axiom
/// asks nothing in that case.
pub fn condition_generator<R: VotingRule>(kind: AxiomKind, profile: &Profile, rule: &R, i: usize) -> (f:
    Option<Formula>)
    requires
        ready_for(kind, profile@, rule),
        i < cases_of::<R>(kind, profile@),
        cases_of::<R>(kind, profile@) <= usize::MAX,
    ensures
        f is None <==> skipped_by::<R>(kind, profile@, i as int),
        f matches Some(g) ==> forall|v: Valuation| #[trigger]
            holds(g, v) <==> meaning_of(kind, profile@, rule, i as int, v),
{
    match kind {
        AxiomKind::Unanimity => <Unanimity as Axiom<R>>::condition_generator(profile, rule, i),
        AxiomKind::Consistency => <Consistency as Axiom<R>>::condition_generator(profile, rule, i),
        AxiomKind::FullCoalitionSupport => <FullCoalitionSupport as Axiom<R>>::condition_generator(profile, rule, i),
        AxiomKind::Majority => <Majority as Axiom<R>>::condition_generator(profile, rule, i),
        AxiomKind::Nonimposition => <Nonimposition as Axiom<R>>::condition_generator(profile, rule, i),
        AxiomKind::Participation => <Participation as Axiom<R>>::condition_generator(profile, rule, i),
        AxiomKind::Strategyproof => <Strategyproof as Axiom<R>>::condition_generator(profile, rule, i),
        AxiomKind::Strongnonimposition => <Strongnonimposition as Axiom<R>>::condition_generator(profile, rule, i),
        AxiomKind::StrictSomeSplit => <StrictSomeSplit as Axiom<R>>::condition_generator(profile, rule, i),
        AxiomKind::StrictAllSplit => <StrictAllSplit as Axiom<R>>::condition_generator(profile, rule, i),
        AxiomKind::WeakSomeSplit => <WeakSomeSplit as Axiom<R>>::condition_generator(profile, rule, i),
        AxiomKind::WeakAllSplit => <WeakAllSplit as Axiom<R>>::condition_generator(profile, rule, i),
        AxiomKind::WeakPairSupport => <WeakPairSupport as Axiom<R>>::condition_generator(profile, rule, i),
        AxiomKind::StrongPairSupport => <StrongPairSupport as Axiom<R>>::condition_generator(profile, rule, i),
    }
}

/// Whether all statements of an axiom must hold or each must be
/// satisfiable.
pub fn get_type<R: VotingRule>(kind: AxiomKind) -> (t: AxiomType)
    ensures
        t == type_of_kind::<R>(kind),
{
    match kind {
        AxiomKind::Unanimity => <Unanimity as Axiom<R>>::get_type(),
        AxiomKind::Consistency => <Consistency as Axiom<R>>::get_type(),
        AxiomKind::FullCoalitionSupport => <FullCoalitionSupport as Axiom<R>>::get_type(),
        AxiomKind::Majority => <Majority as Axiom<R>>::get_type(),
        AxiomKind::Nonimposition => <Nonimposition as Axiom<R>>::get_type(),
        AxiomKind::Participation => <Participation as Axiom<R>>::get_type(),
        AxiomKind::Strategyproof => <Strategyproof as Axiom<R>>::get_type(),
        AxiomKind::Strongnonimposition => <Strongnonimposition as Axiom<R>>::get_type(),
        AxiomKind::StrictSomeSplit => <StrictSomeSplit as Axiom<R>>::get_type(),
        AxiomKind::StrictAllSplit => <StrictAllSplit as Axiom<R>>::get_type(),
        AxiomKind::WeakSomeSplit => <WeakSomeSplit as Axiom<R>>::get_type(),
        AxiomKind::WeakAllSplit => <WeakAllSplit as Axiom<R>>::get_type(),
        AxiomKind::WeakPairSupport => <WeakPairSupport as Axiom<R>>::get_type(),
        AxiomKind::StrongPairSupport => <StrongPairSupport as Axiom<R>>::get_type(),
    }
}

} // verus!
