//! The split axioms: where every voter keeps a coalition apart from the
//! other candidates, so does the outcome.
use vstd::prelude::*;
use crate::proving::axioms::names::AxiomKind;
use crate::proving::axioms::{is_rule_ready, no_winner, none_wins, rule_ready, silence, silent, some_winner, some_wins, Axiom, AxiomType};
use crate::proving::formula::{holds, implication, Formula, Valuation};
use crate::proving::profile::{Electorate, Profile};
use crate::proving::rule::rule_trait::VotingRule;
use crate::structures::coalition::Group;
use crate::structures::coalition::Coalition;
use crate::structures::partition::{split_by, splittable};
use crate::structures::ranking::{class_kinds, split_defined, strict_split, weak_split};

verus! {

/// How strictly the rankings must split the coalition.
#[derive(Clone, Copy, Debug, PartialEq, Eq, Structural)]
pub enum SplitType {
    Weak,
    Strict,
}

/// Whether no partition that does not split may win, or some partition
/// that splits must.
#[derive(Clone, Copy, Debug, PartialEq, Eq, Structural)]
pub enum WinningType {
    All,
    Any,
}

/// For each ranking, whether it splits `c` in the sense of `split_type`.
pub open spec fn splitters(e: Electorate, split_type: SplitType, c: Group) -> Seq<bool> {
    Seq::new(
        e.rankings.len(),
        |k: int|
            match split_type {
                SplitType::Weak => weak_split(class_kinds(e.rankings[k], c)),
                SplitType::Strict => strict_split(class_kinds(e.rankings[k], c)),
            },
    )
}

/// For each partition, whether it keeps `c` apart (`wanted`) or not.
pub open spec fn split_marks(e: Electorate, c: Group, wanted: bool) -> Seq<bool> {
    Seq::new(e.partitions.len(), |j: int| split_by(e.partitions[j], c) == wanted)
}

/// The coalition is empty or holds every candidate.
pub open spec fn trivial(e: Electorate, c: Group) -> bool {
    c.len() == 0 || c.len() == e.num_candidates
}

/// The questions that a split axiom has about the coalition `c` can be
/// asked: of every partition of the profile whether it keeps `c` apart,
/// and of every ranking of the profile whether it splits `c`.
pub open spec fn asks_well(e: Electorate, c: Group) -> bool {
    &&& forall|j: int| 0 <= j < e.partitions.len() ==> splittable(#[trigger] e.partitions[j], c)
    &&& forall|k: int| 0 <= k < e.rankings.len() ==> split_defined(#[trigger] e.rankings[k], c)
}

/// The questions of a split axiom can be asked about every coalition of
/// the profile about which it asks something.
pub open spec fn split_ready(e: Electorate) -> bool {
    forall|i: int|
        0 <= i < e.coalitions.len() ==> trivial(e, #[trigger] e.coalitions[i]) || asks_well(
            e,
            e.coalitions[i],
        )
}

/// Whether the questions of a split axiom about `coalition` can be
/// asked.
pub fn asks_well_for(profile: &Profile, coalition: &Coalition) -> (b: bool)
    ensures
        b == asks_well(profile@, coalition@),
{
    let ghost e = profile@;
    let mut j: usize = 0;
    while j < profile.partitions.len()
        invariant
            j <= profile.partitions.len(),
            e == profile@,
            forall|l: int| 0 <= l < j ==> splittable(#[trigger] e.partitions[l], coalition@),
        decreases profile.partitions.len() - j,
    {
        assert(e.partitions[j as int] == profile.partitions@[j as int]@);
        if !profile.partitions[j].can_split(coalition) {
            assert(!splittable(e.partitions[j as int], coalition@));
            return false;
        }
        j += 1;
    }
    let mut k: usize = 0;
    while k < profile.votes.len()
        invariant
            k <= profile.votes.len(),
            e == profile@,
            forall|l: int| 0 <= l < e.partitions.len() ==> splittable(#[trigger] e.partitions[l], coalition@),
            forall|l: int| 0 <= l < k ==> split_defined(#[trigger] e.rankings[l], coalition@),
        decreases profile.votes.len() - k,
    {
        assert(e.rankings[k as int] == profile.votes@[k as int].0@);
        if !profile.votes[k].0.is_split_defined(coalition) {
            assert(!split_defined(e.rankings[k as int], coalition@));
            return false;
        }
        k += 1;
    }
    true
}

/// Whether the questions of a split axiom can be asked about every
/// coalition of the profile about which it asks something.
pub fn is_split_ready(profile: &Profile) -> (b: bool)
    ensures
        b == split_ready(profile@),
{
    let ghost e = profile@;
    let mut i: usize = 0;
    while i < profile.coalitions.len()
        invariant
            i <= profile.coalitions.len(),
            e == profile@,
            forall|l: int|
                0 <= l < i ==> trivial(e, #[trigger] e.coalitions[l]) || asks_well(
                    e,
                    e.coalitions[l],
                ),
        decreases profile.coalitions.len() - i,
    {
        let coalition = &profile.coalitions[i];
        assert(coalition@ == e.coalitions[i as int]);
        let skipped = coalition.members.len() == 0 || coalition.members.len()
            == profile.num_candidates;
        assert(skipped == trivial(e, e.coalitions[i as int]));
        if !skipped && !asks_well_for(profile, coalition) {
            return false;
        }
        i += 1;
    }
    true
}

/// What a split axiom asks for the coalition `c`: where only rankings
/// that split `c` have votes, no partition that does not keep `c` apart
/// wins, or some partition that keeps it apart does.
pub open spec fn split_meaning<R: VotingRule>(
    split_type: SplitType,
    winning_type: WinningType,
    e: Electorate,
    rule: &R,
    c: Group,
    v: Valuation,
) -> bool {
    silent(e, splitters(e, split_type, c), v) ==> match winning_type {
        WinningType::All => none_wins(rule, e, split_marks(e, c, false), v),
        WinningType::Any => some_wins(rule, e, split_marks(e, c, true), v),
    }
}

/// The statement of a split axiom for the coalition with index `i`.
pub fn split_condition<R: VotingRule>(
    split_type: SplitType,
    winning_type: WinningType,
    profile: &Profile,
    rule: &R,
    i: usize,
) -> (f: Option<Formula>)
    requires
        rule_ready(rule, profile@),
        i < profile@.coalitions.len(),
        trivial(profile@, profile@.coalitions[i as int]) || asks_well(
            profile@,
            profile@.coalitions[i as int],
        ),
    ensures
        f is None <==> trivial(profile@, profile@.coalitions[i as int]),
        f matches Some(g) ==> forall|v: Valuation| #[trigger]
            holds(g, v) <==> split_meaning(
                split_type,
                winning_type,
                profile@,
                rule,
                profile@.coalitions[i as int],
                v,
            ),
{
    let ghost e = profile@;
    let coalition = &profile.coalitions[i];
    assert(coalition@ == e.coalitions[i as int]);
    if coalition.members.len() == 0 || coalition.members.len() == profile.num_candidates {
        return None;
    }
    let mut keep: Vec<bool> = Vec::new();
    let mut k: usize = 0;
    while k < profile.votes.len()
        invariant
            k <= profile.votes.len(),
            keep@.len() == k,
            forall|l: int|
                0 <= l < k ==> #[trigger] keep@[l] == match split_type {
                    SplitType::Weak => weak_split(class_kinds(e.rankings[l], coalition@)),
                    SplitType::Strict => strict_split(class_kinds(e.rankings[l], coalition@)),
                },
        decreases profile.votes.len() - k,
    {
        assert(e.rankings[k as int] == profile.votes@[k as int].0@);
        let splits = match split_type {
            SplitType::Weak => profile.votes[k].0.is_weakly_split(coalition),
            SplitType::Strict => profile.votes[k].0.is_strict_split(coalition),
        };
        keep.push(splits);
        k += 1;
    }
    assert(keep@ =~= splitters(e, split_type, coalition@));
    let wanted = match winning_type {
        WinningType::All => false,
        WinningType::Any => true,
    };
    let mut pick: Vec<bool> = Vec::new();
    let mut j: usize = 0;
    while j < profile.partitions.len()
        invariant
            j <= profile.partitions.len(),
            pick@.len() == j,
            forall|l: int|
                0 <= l < j ==> #[trigger] pick@[l] == (split_by(e.partitions[l], coalition@)
                    == wanted),
        decreases profile.partitions.len() - j,
    {
        assert(e.partitions[j as int] == profile.partitions@[j as int]@);
        pick.push(profile.partitions[j].is_split(coalition) == wanted);
        j += 1;
    }
    assert(pick@ =~= split_marks(e, coalition@, wanted));
    let precondition = silence(profile, rule, &keep);
    let winner_condition = match winning_type {
        WinningType::All => no_winner(profile, rule, &pick),
        WinningType::Any => some_winner(profile, rule, &pick),
    };
    Some(implication(precondition, winner_condition))
}

/// Where no voter splits a coalition weakly, some partition that
/// does not split it wins.
pub struct WeakSomeSplit {}

impl<R: VotingRule> Axiom<R> for WeakSomeSplit {
    /// One case for each coalition.
    open spec fn cases(e: Electorate) -> nat {
        e.coalitions.len()
    }

    /// The rule has its scores, and the questions about the coalitions
    /// can be asked.
    open spec fn ready(e: Electorate, rule: &R) -> bool {
        rule_ready(rule, e) && split_ready(e)
    }

    /// Nothing is asked of the empty coalition and of the coalition of
    /// all candidates.
    open spec fn skipped(e: Electorate, i: int) -> bool {
        trivial(e, e.coalitions[i])
    }

    open spec fn meaning(e: Electorate, rule: &R, i: int, v: Valuation) -> bool {
        split_meaning(SplitType::Weak, WinningType::Any, e, rule, e.coalitions[i], v)
    }

    fn is_ready(profile: &Profile, rule: &R) -> (b: bool) {
        is_rule_ready(rule, profile, None) && is_split_ready(profile)
    }

    fn cases_fit(profile: &Profile) -> (b: bool) {
        let n = profile.coalitions.len();
        assert(profile@.coalitions.len() == n);
        true
    }

    fn num_cases(profile: &Profile) -> (n: usize) {
        profile.coalitions.len()
    }

    fn condition_generator(profile: &Profile, rule: &R, i: usize) -> (f: Option<Formula>) {
        split_condition(SplitType::Weak, WinningType::Any, profile, rule, i)
    }

    open spec fn type_of() -> AxiomType {
        AxiomType::Forall
    }

    fn get_type() -> (t: AxiomType) {
        AxiomType::Forall
    }

    open spec fn kind() -> AxiomKind {
        AxiomKind::WeakSomeSplit
    }

    fn short_name() -> &'static str {
        crate::proving::axioms::names::short_name(AxiomKind::WeakSomeSplit)
    }

    fn full_name() -> &'static str {
        crate::proving::axioms::names::full_name(AxiomKind::WeakSomeSplit)
    }
}

/// Where no voter splits a coalition weakly, no partition that
/// splits it wins.
pub struct WeakAllSplit {}

impl<R: VotingRule> Axiom<R> for WeakAllSplit {
    /// One case for each coalition.
    open spec fn cases(e: Electorate) -> nat {
        e.coalitions.len()
    }

    /// The rule has its scores, and the questions about the coalitions
    /// can be asked.
    open spec fn ready(e: Electorate, rule: &R) -> bool {
        rule_ready(rule, e) && split_ready(e)
    }

    /// Nothing is asked of the empty coalition and of the coalition of
    /// all candidates.
    open spec fn skipped(e: Electorate, i: int) -> bool {
        trivial(e, e.coalitions[i])
    }

    open spec fn meaning(e: Electorate, rule: &R, i: int, v: Valuation) -> bool {
        split_meaning(SplitType::Weak, WinningType::All, e, rule, e.coalitions[i], v)
    }

    fn is_ready(profile: &Profile, rule: &R) -> (b: bool) {
        is_rule_ready(rule, profile, None) && is_split_ready(profile)
    }

    fn cases_fit(profile: &Profile) -> (b: bool) {
        let n = profile.coalitions.len();
        assert(profile@.coalitions.len() == n);
        true
    }

    fn num_cases(profile: &Profile) -> (n: usize) {
        profile.coalitions.len()
    }

    fn condition_generator(profile: &Profile, rule: &R, i: usize) -> (f: Option<Formula>) {
        split_condition(SplitType::Weak, WinningType::All, profile, rule, i)
    }

    open spec fn type_of() -> AxiomType {
        AxiomType::Forall
    }

    fn get_type() -> (t: AxiomType) {
        AxiomType::Forall
    }

    open spec fn kind() -> AxiomKind {
        AxiomKind::WeakAllSplit
    }

    fn short_name() -> &'static str {
        crate::proving::axioms::names::short_name(AxiomKind::WeakAllSplit)
    }

    fn full_name() -> &'static str {
        crate::proving::axioms::names::full_name(AxiomKind::WeakAllSplit)
    }
}

/// Where no voter splits a coalition strictly, some partition that
/// does not split it wins.
pub struct StrictSomeSplit {}

impl<R: VotingRule> Axiom<R> for StrictSomeSplit {
    /// One case for each coalition.
    open spec fn cases(e: Electorate) -> nat {
        e.coalitions.len()
    }

    /// The rule has its scores, and the questions about the coalitions
    /// can be asked.
    open spec fn ready(e: Electorate, rule: &R) -> bool {
        rule_ready(rule, e) && split_ready(e)
    }

    /// Nothing is asked of the empty coalition and of the coalition of
    /// all candidates.
    open spec fn skipped(e: Electorate, i: int) -> bool {
        trivial(e, e.coalitions[i])
    }

    open spec fn meaning(e: Electorate, rule: &R, i: int, v: Valuation) -> bool {
        split_meaning(SplitType::Strict, WinningType::Any, e, rule, e.coalitions[i], v)
    }

    fn is_ready(profile: &Profile, rule: &R) -> (b: bool) {
        is_rule_ready(rule, profile, None) && is_split_ready(profile)
    }

    fn cases_fit(profile: &Profile) -> (b: bool) {
        let n = profile.coalitions.len();
        assert(profile@.coalitions.len() == n);
        true
    }

    fn num_cases(profile: &Profile) -> (n: usize) {
        profile.coalitions.len()
    }

    fn condition_generator(profile: &Profile, rule: &R, i: usize) -> (f: Option<Formula>) {
        split_condition(SplitType::Strict, WinningType::Any, profile, rule, i)
    }

    open spec fn type_of() -> AxiomType {
        AxiomType::Forall
    }

    fn get_type() -> (t: AxiomType) {
        AxiomType::Forall
    }

    open spec fn kind() -> AxiomKind {
        AxiomKind::StrictSomeSplit
    }

    fn short_name() -> &'static str {
        crate::proving::axioms::names::short_name(AxiomKind::StrictSomeSplit)
    }

    fn full_name() -> &'static str {
        crate::proving::axioms::names::full_name(AxiomKind::StrictSomeSplit)
    }
}

/// Where no voter splits a coalition strictly, no partition that
/// splits it wins.
pub struct StrictAllSplit {}

impl<R: VotingRule> Axiom<R> for StrictAllSplit {
    /// One case for each coalition.
    open spec fn cases(e: Electorate) -> nat {
        e.coalitions.len()
    }

    /// The rule has its scores, and the questions about the coalitions
    /// can be asked.
    open spec fn ready(e: Electorate, rule: &R) -> bool {
        rule_ready(rule, e) && split_ready(e)
    }

    /// Nothing is asked of the empty coalition and of the coalition of
    /// all candidates.
    open spec fn skipped(e: Electorate, i: int) -> bool {
        trivial(e, e.coalitions[i])
    }

    open spec fn meaning(e: Electorate, rule: &R, i: int, v: Valuation) -> bool {
        split_meaning(SplitType::Strict, WinningType::All, e, rule, e.coalitions[i], v)
    }

    fn is_ready(profile: &Profile, rule: &R) -> (b: bool) {
        is_rule_ready(rule, profile, None) && is_split_ready(profile)
    }

    fn cases_fit(profile: &Profile) -> (b: bool) {
        let n = profile.coalitions.len();
        assert(profile@.coalitions.len() == n);
        true
    }

    fn num_cases(profile: &Profile) -> (n: usize) {
        profile.coalitions.len()
    }

    fn condition_generator(profile: &Profile, rule: &R, i: usize) -> (f: Option<Formula>) {
        split_condition(SplitType::Strict, WinningType::All, profile, rule, i)
    }

    open spec fn type_of() -> AxiomType {
        AxiomType::Forall
    }

    fn get_type() -> (t: AxiomType) {
        AxiomType::Forall
    }

    open spec fn kind() -> AxiomKind {
        AxiomKind::StrictAllSplit
    }

    fn short_name() -> &'static str {
        crate::proving::axioms::names::short_name(AxiomKind::StrictAllSplit)
    }

    fn full_name() -> &'static str {
        crate::proving::axioms::names::full_name(AxiomKind::StrictAllSplit)
    }
}

} // verus!
