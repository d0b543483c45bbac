//! The search for a proof: all statements in one query, or one statement
//! after the other until a counterexample is found.
use vstd::prelude::*;
use crate::ballots::names::BallotKind;
use crate::proving::axioms::names::{
    all_axiom_kinds, axiom_kind, cases_fit, cases_of, is_ready, meaning_of, ready_for,
    skipped_by, type_of_kind, AxiomKind,
};
use crate::proving::rule::names::RuleKind;
use crate::proving::axioms::{
    condition, kept_cases, Axiom, AxiomType, Consistency, FullCoalitionSupport, Majority,
    Nonimposition, Participation, StrictAllSplit, StrictSomeSplit, Strategyproof,
    StrongPairSupport, Strongnonimposition, Unanimity, WeakAllSplit, WeakPairSupport,
    WeakSomeSplit,
};
use crate::proving::formula::{
    agree_outside, all_of, both, for_all, for_some, holds, implication, name_seq, negation,
    Formula, Valuation,
};
use crate::proving::profile::{free_named, Electorate, Profile};
use crate::proving::rule::rule_trait::VotingRule;
use crate::structures::ranking::Tiers;
use crate::structures::utils::to_string::ranking_text;
use crate::utils::text::{integer_string, signed_decimal};
use vstd::string::*;

verus! {

/// What a solver says of a query.
#[derive(Clone, Copy, Debug, PartialEq, Eq, Structural)]
pub enum SatResult {
    Unsat,
    Unknown,
    Sat,
}

/// The outcome of a proof, with the lines that describe the witness or
/// the counterexample.
#[derive(Debug)]
pub enum ProofResult {
    Sat(Vec<String>),
    Unsat(Vec<String>),
    Unknown,
}

/// What to do next in a search.
#[derive(Debug)]
pub enum Step {
    /// Ask the solver whether these statements can hold together.
    Ask(Vec<Formula>),
    /// The search has ended with this result.
    Done(SatResult),
}

/// How far a search through the statements of one axiom has come.
#[derive(Clone, Copy, Debug, PartialEq, Eq, Structural)]
pub struct Search {
    /// Whether all statements must hold or each must be satisfiable.
    pub kind: AxiomType,
    /// The first case that has not been looked at.
    pub next: usize,
    /// Whether the search has ended.
    pub finished: bool,
}

/// A profile and a rule, with the statements of the axioms that were
/// added.
pub struct Proof<R: VotingRule> {
    pub profile: Profile,
    pub forall_conditions: Vec<Formula>,
    pub exists_conditions: Vec<Formula>,
    pub rule: R,
}

/// The answer after which a search goes on: a statement that must hold
/// has no counterexample, a statement that must be satisfiable has a
/// witness.
pub open spec fn goes_on(kind: AxiomType, answer: SatResult) -> bool {
    match kind {
        AxiomType::Forall => answer == SatResult::Unsat,
        AxiomType::Exists => answer == SatResult::Sat,
    }
}

/// The result of a search that ends with `answer`.
pub open spec fn verdict(kind: AxiomType, answer: SatResult) -> SatResult {
    match answer {
        SatResult::Unknown => SatResult::Unknown,
        _ => SatResult::Unsat,
    }
}

/// The number of queries of a search through `n` statements, where the
/// solver gives the answers of `answers` in turn: the search ends with
/// the first answer after which it does not go on.
pub open spec fn queries(kind: AxiomType, answers: Seq<SatResult>, n: nat) -> nat
    decreases n,
{
    if n == 0 || answers.len() == 0 {
        0
    } else if goes_on(kind, answers[0]) {
        1 + queries(kind, answers.skip(1), (n - 1) as nat)
    } else {
        1
    }
}

/// A search asks nothing after the first answer that ends it: where the
/// answer with index `k` is the first such, it makes `k + 1` queries.
pub proof fn lemma_search_stops_at_first(kind: AxiomType, answers: Seq<SatResult>, n: nat, k: int)
    requires
        0 <= k < n,
        k < answers.len(),
        !goes_on(kind, answers[k]),
        forall|j: int| 0 <= j < k ==> goes_on(kind, #[trigger] answers[j]),
    ensures
        queries(kind, answers, n) == k + 1,
    decreases n,
{
    if k > 0 {
        assert(goes_on(kind, answers[0]));
        let rest = answers.skip(1);
        assert forall|j: int| 0 <= j < k - 1 implies goes_on(kind, #[trigger] rest[j]) by {
            assert(rest[j] == answers[j + 1]);
        }
        assert(rest[k - 1] == answers[k]);
        lemma_search_stops_at_first(kind, rest, (n - 1) as nat, k - 1);
    }
}

/// `after` is `before` with the statements of the axiom `A` behind it:
/// one for each case that asks something, in the order of the cases.
pub open spec fn extended<R: VotingRule, A: Axiom<R>>(
    before: Seq<Formula>,
    after: Seq<Formula>,
    e: Electorate,
    rule: &R,
) -> bool {
    let kept = kept_cases::<R, A>(e, A::cases(e));
    &&& after.len() == before.len() + kept.len()
    &&& forall|k: int| 0 <= k < before.len() ==> #[trigger] after[k] == before[k]
    &&& forall|k: int, v: Valuation|
        0 <= k < kept.len() ==> (#[trigger] holds(after[before.len() + k], v) <==> A::meaning(
            e,
            rule,
            kept[k],
            v,
        ))
}

/// The profile is not empty and has no negative count under `v`.
pub open spec fn feasible(e: Electorate, v: Valuation) -> bool {
    e.nonnegative(v) && e.total(v) > 0
}

/// The names of the variables of the profile.
pub open spec fn is_variable(e: Electorate, n: Seq<char>) -> bool {
    exists|i: int| 0 <= i < e.counts.len() && free_named(#[trigger] e.counts[i], n)
}

/// `w` differs from `v` at most in the variables of the profile.
pub open spec fn same_outside(e: Electorate, v: Valuation, w: Valuation) -> bool {
    &&& w.reals == v.reals
    &&& forall|n: Seq<char>| !is_variable(e, n) ==> w.ints[n] == v.ints[n]
}

/// The statement that the profile is not empty and has no negative
/// count.
pub fn feasibility(profile: &Profile) -> (f: Formula)
    ensures
        forall|v: Valuation| #[trigger] holds(f, v) <==> feasible(profile@, v),
{
    both(profile.vars_nonnegative(), profile.vars_sum_positive())
}

/// Every statement of `fs` holds under `v`.
pub open spec fn all_hold(fs: Seq<Formula>, v: Valuation) -> bool {
    forall|k: int| 0 <= k < fs.len() ==> holds(#[trigger] fs[k], v)
}

/// Whatever feasible counts the variables of the profile take, every
/// statement of `fs` holds.
pub open spec fn always(e: Electorate, fs: Seq<Formula>, v: Valuation) -> bool {
    forall|w: Valuation| same_outside(e, v, w) && feasible(e, w) ==> #[trigger] all_hold(fs, w)
}

/// For some feasible counts in place of the variables of the profile,
/// `f` holds.
pub open spec fn sometimes(e: Electorate, f: Formula, v: Valuation) -> bool {
    exists|w: Valuation| same_outside(e, v, w) && feasible(e, w) && #[trigger] holds(f, w)
}

/// The statement that `f` holds for some feasible counts.
pub fn witness_query(profile: &Profile, f: Formula) -> (q: Formula)
    ensures
        forall|v: Valuation| #[trigger] holds(q, v) <==> sometimes(profile@, f, v),
{
    let ghost e = profile@;
    let names = profile.var_names();
    let ghost ns = name_seq(names@);
    let body = both(feasibility(profile), f);
    let q = for_some(names, body);
    proof {
        assert forall|v: Valuation| #[trigger] holds(q, v) <==> sometimes(e, f, v) by {
            assert forall|w: Valuation| agree_outside(v, w, ns) <==> same_outside(e, v, w) by {
                assert forall|n: Seq<char>| ns.contains(n) <==> is_variable(e, n) by {}
            }
            if holds(q, v) {
                let w = choose|w: Valuation| #[trigger] agree_outside(v, w, ns) && holds(body, w);
                assert(same_outside(e, v, w) && feasible(e, w) && holds(f, w));
            }
            if sometimes(e, f, v) {
                let w = choose|w: Valuation|
                    same_outside(e, v, w) && feasible(e, w) && #[trigger] holds(f, w);
                assert(agree_outside(v, w, ns) && holds(body, w));
            }
        }
    }
    q
}

impl<R: VotingRule> Proof<R> {
    /// A proof for the given profile and rule, with no statements yet.
    pub fn new(_m: usize, rule: R, profile: Profile) -> (p: Self)
        ensures
            p.profile == profile,
            p.rule == rule,
            p.forall_conditions@.len() == 0,
            p.exists_conditions@.len() == 0,
    {
        Proof { profile, forall_conditions: Vec::new(), exists_conditions: Vec::new(), rule }
    }

    /// Adds the statements of the axiom `A`: to those that must hold, or
    /// to those that must be satisfiable.
    pub fn add_axiom<A: Axiom<R>>(&mut self)
        requires
            A::ready(old(self).profile@, &old(self).rule),
            A::cases(old(self).profile@) <= usize::MAX,
        ensures
            final(self).profile == old(self).profile,
            final(self).rule == old(self).rule,
            A::type_of() == AxiomType::Forall ==> final(self).exists_conditions@ == old(
                self,
            ).exists_conditions@ && extended::<R, A>(
                old(self).forall_conditions@,
                final(self).forall_conditions@,
                old(self).profile@,
                &old(self).rule,
            ),
            A::type_of() == AxiomType::Exists ==> final(self).forall_conditions@ == old(
                self,
            ).forall_conditions@ && extended::<R, A>(
                old(self).exists_conditions@,
                final(self).exists_conditions@,
                old(self).profile@,
                &old(self).rule,
            ),
    {
        let mut found = condition::<R, A>(&self.profile, &self.rule);
        let ghost fs = found@;
        let ax_type = A::get_type();
        match ax_type {
            AxiomType::Forall => {
                let ghost before = self.forall_conditions@;
                self.forall_conditions.append(&mut found);
                assert(self.forall_conditions@ =~= before + fs);
            },
            AxiomType::Exists => {
                let ghost before = self.exists_conditions@;
                self.exists_conditions.append(&mut found);
                assert(self.exists_conditions@ =~= before + fs);
            },
        }
    }
}

impl<R: VotingRule> Proof<R> {
    /// The query that decides all statements at once: the statements that
    /// must hold do so for all feasible counts, and each statement that
    /// must be satisfiable holds for some. The statements of the result
    /// are to be asserted together.
    pub fn check(self) -> (r: Vec<Formula>)
        ensures
            r@.len() == 1 + self.exists_conditions@.len(),
            forall|v: Valuation| #[trigger]
                holds(r@[0], v) <==> always(self.profile@, self.forall_conditions@, v),
            forall|k: int, v: Valuation|
                1 <= k < r@.len() ==> (#[trigger] holds(r@[k], v) <==> sometimes(
                    self.profile@,
                    self.exists_conditions@[k - 1],
                    v,
                )),
    {
        let ghost e = self.profile@;
        let ghost fs = self.forall_conditions@;
        let ghost xs = self.exists_conditions@;
        let Proof { profile, forall_conditions, exists_conditions, rule } = self;
        let all_forall_conditions = all_of(forall_conditions);
        let preconditions = feasibility(&profile);
        let formula = implication(preconditions, all_forall_conditions);
        let names = profile.var_names();
        let ghost ns = name_seq(names@);
        let forall_quantor = for_all(names, formula);
        proof {
            assert forall|v: Valuation| #[trigger] holds(forall_quantor, v) <==> always(e, fs, v) by {
                assert forall|w: Valuation| agree_outside(v, w, ns) <==> same_outside(e, v, w) by {
                    assert forall|n: Seq<char>| ns.contains(n) <==> is_variable(e, n) by {}
                }
                if holds(forall_quantor, v) {
                    assert forall|w: Valuation|
                        same_outside(e, v, w) && feasible(e, w) implies #[trigger] all_hold(
                        fs,
                        w,
                    ) by {
                        assert(agree_outside(v, w, ns));
                        assert(holds(formula, w));
                    }
                }
                if always(e, fs, v) {
                    assert forall|w: Valuation| #[trigger] agree_outside(v, w, ns) implies holds(
                        formula,
                        w,
                    ) by {
                        if feasible(e, w) {
                            assert(same_outside(e, v, w));
                            assert(all_hold(fs, w));
                        }
                    }
                }
            }
        }
        let mut r: Vec<Formula> = Vec::new();
        r.push(forall_quantor);
        let mut rest = exists_conditions;
        let ghost mut taken: int = 0;
        while rest.len() > 0
            invariant
                profile@ == e,
                0 <= taken <= xs.len(),
                rest@ == xs.subrange(taken, xs.len() as int),
                r@.len() == 1 + taken,
                forall|v: Valuation| #[trigger] holds(r@[0], v) <==> always(e, fs, v),
                forall|k: int, v: Valuation|
                    1 <= k < r@.len() ==> (#[trigger] holds(r@[k], v) <==> sometimes(
                        e,
                        xs[k - 1],
                        v,
                    )),
            decreases rest@.len(),
        {
            let f = rest.remove(0);
            assert(f == xs[taken]);
            let q = witness_query(&profile, f);
            r.push(q);
            proof {
                assert(rest@ =~= xs.subrange(taken + 1, xs.len() as int));
                taken = taken + 1;
            }
        }
        r
    }
}

/// `step` asks for case `c` of the axiom `A`: whether the statement of
/// the case can fail, where all statements must hold, or whether it can
/// hold, where each must be satisfiable; in both cases with feasible
/// counts.
pub open spec fn asks_for<R: VotingRule, A: Axiom<R>>(
    step: Step,
    kind: AxiomType,
    e: Electorate,
    rule: &R,
    c: int,
) -> bool {
    &&& step matches Step::Ask(q)
    &&& q@.len() == 3
    &&& forall|v: Valuation| #[trigger]
        holds(q@[0], v) <==> match kind {
            AxiomType::Forall => !A::meaning(e, rule, c, v),
            AxiomType::Exists => A::meaning(e, rule, c, v),
        }
    &&& forall|v: Valuation| #[trigger] holds(q@[1], v) <==> e.nonnegative(v)
    &&& forall|v: Valuation| #[trigger] holds(q@[2], v) <==> e.total(v) > 0
}

/// The cases from `from` up to `to` ask nothing.
pub open spec fn all_skipped<R: VotingRule, A: Axiom<R>>(e: Electorate, from: int, to: int) -> bool {
    forall|c: int| from <= c < to ==> #[trigger] A::skipped(e, c)
}

impl<R: VotingRule> Proof<R> {
    /// The question for the next case of the axiom `A` that asks
    /// something, or the end of the search with `Sat` where no case is
    /// left.
    pub fn next_question<A: Axiom<R>>(&self, search: Search) -> (r: (Search, Step))
        requires
            !search.finished,
            search.kind == A::type_of(),
            search.next <= A::cases(self.profile@),
            A::ready(self.profile@, &self.rule),
            A::cases(self.profile@) <= usize::MAX,
        ensures
            r.0.kind == search.kind,
            search.next <= r.0.next <= A::cases(self.profile@),
            match r.1 {
                Step::Ask(_) => {
                    &&& !r.0.finished
                    &&& r.0.next > search.next
                    &&& !A::skipped(self.profile@, r.0.next - 1)
                    &&& all_skipped::<R, A>(self.profile@, search.next as int, r.0.next - 1)
                    &&& asks_for::<R, A>(r.1, search.kind, self.profile@, &self.rule, r.0.next - 1)
                },
                Step::Done(result) => {
                    &&& r.0.finished
                    &&& result == SatResult::Sat
                    &&& all_skipped::<R, A>(
                        self.profile@,
                        search.next as int,
                        A::cases(self.profile@) as int,
                    )
                },
            },
    {
        let n = A::num_cases(&self.profile);
        let mut c: usize = search.next;
        while c < n
            invariant
                search.next <= c <= n,
                n == A::cases(self.profile@),
                all_skipped::<R, A>(self.profile@, search.next as int, c as int),
            decreases n - c,
        {
            match A::condition_generator(&self.profile, &self.rule, c) {
                None => {},
                Some(condition) => {
                    let first = match search.kind {
                        AxiomType::Forall => negation(condition),
                        AxiomType::Exists => condition,
                    };
                    let mut q: Vec<Formula> = Vec::new();
                    q.push(first);
                    q.push(self.profile.vars_nonnegative());
                    q.push(self.profile.vars_sum_positive());
                    let next = Search { kind: search.kind, next: c + 1, finished: false };
                    return (next, Step::Ask(q));
                },
            }
            c += 1;
        }
        (Search { kind: search.kind, next: n, finished: true }, Step::Done(SatResult::Sat))
    }

    /// Starts the search through the statements of the axiom `A`, one
    /// after the other.
    pub fn check_iteratively<A: Axiom<R>>(&self) -> (r: (Search, Step))
        requires
            A::ready(self.profile@, &self.rule),
            A::cases(self.profile@) <= usize::MAX,
        ensures
            r.0.kind == A::type_of(),
            r.0.next <= A::cases(self.profile@),
            match r.1 {
                Step::Ask(_) => {
                    &&& !r.0.finished
                    &&& r.0.next > 0
                    &&& !A::skipped(self.profile@, r.0.next - 1)
                    &&& all_skipped::<R, A>(self.profile@, 0, r.0.next - 1)
                    &&& asks_for::<R, A>(r.1, r.0.kind, self.profile@, &self.rule, r.0.next - 1)
                },
                Step::Done(result) => {
                    &&& r.0.finished
                    &&& result == SatResult::Sat
                    &&& all_skipped::<R, A>(self.profile@, 0, A::cases(self.profile@) as int)
                },
            },
    {
        let search = Search { kind: A::get_type(), next: 0, finished: false };
        self.next_question::<A>(search)
    }

    /// Goes on with a search after the solver has given `answer` to the
    /// last question. An answer that decides the search ends it at once:
    /// no further case is looked at.
    pub fn resume<A: Axiom<R>>(&self, search: Search, answer: SatResult) -> (r: (Search, Step))
        requires
            !search.finished,
            search.kind == A::type_of(),
            search.next <= A::cases(self.profile@),
            A::ready(self.profile@, &self.rule),
            A::cases(self.profile@) <= usize::MAX,
        ensures
            r.0.kind == search.kind,
            !goes_on(search.kind, answer) ==> r.0.finished && r.0.next == search.next && r.1
                == Step::Done(verdict(search.kind, answer)),
            goes_on(search.kind, answer) ==> search.next <= r.0.next <= A::cases(self.profile@)
                && match r.1 {
                Step::Ask(_) => {
                    &&& !r.0.finished
                    &&& r.0.next > search.next
                    &&& !A::skipped(self.profile@, r.0.next - 1)
                    &&& all_skipped::<R, A>(self.profile@, search.next as int, r.0.next - 1)
                    &&& asks_for::<R, A>(r.1, search.kind, self.profile@, &self.rule, r.0.next - 1)
                },
                Step::Done(result) => {
                    &&& r.0.finished
                    &&& result == SatResult::Sat
                    &&& all_skipped::<R, A>(
                        self.profile@,
                        search.next as int,
                        A::cases(self.profile@) as int,
                    )
                },
            },
    {
        let proceed = match search.kind {
            AxiomType::Forall => answer == SatResult::Unsat,
            AxiomType::Exists => answer == SatResult::Sat,
        };
        if proceed {
            self.next_question::<A>(search)
        } else {
            let result = match answer {
                SatResult::Unknown => SatResult::Unknown,
                _ => SatResult::Unsat,
            };
            (Search { kind: search.kind, next: search.next, finished: true }, Step::Done(result))
        }
    }
}

/// The lines that describe the values that a solver has found for the
/// vote counts of the first `n` rankings: for each ranking its number of
/// votes, an arrow, and the ranking; `?` in place of the number where the
/// solver gives none; no line where the number is 0.
pub open spec fn witness_lines(rankings: Seq<Tiers>, model: Seq<Option<i64>>, n: nat) -> Seq<Seq<char>>
    decreases n,
{
    if n == 0 || n > rankings.len() || n > model.len() {
        Seq::empty()
    } else {
        let before = witness_lines(rankings, model, (n - 1) as nat);
        match model[n - 1] {
            None => before.push("? -> "@ + ranking_text(rankings[n - 1])),
            Some(value) => if value == 0 {
                before
            } else {
                before.push(signed_decimal(value as int) + " -> "@ + ranking_text(rankings[n - 1]))
            },
        }
    }
}

impl<R: VotingRule> Proof<R> {
    /// The numbers of votes that a solver has found, as lines of text;
    /// `model` holds the value of the count of each ranking, in the
    /// order of the rankings.
    pub fn get_profile(&self, model: &Vec<Option<i64>>) -> (lines: Vec<String>)
        requires
            model@.len() == self.profile@.rankings.len(),
        ensures
            Seq::new(lines@.len(), |k: int| lines@[k]@) == witness_lines(
                self.profile@.rankings,
                model@,
                model@.len(),
            ),
    {
        let ghost rs = self.profile@.rankings;
        let mut lines: Vec<String> = Vec::new();
        let mut i: usize = 0;
        while i < model.len()
            invariant
                i <= model.len(),
                rs == self.profile@.rankings,
                model@.len() == rs.len(),
                self.profile.votes@.len() == rs.len(),
                Seq::new(lines@.len(), |k: int| lines@[k]@) == witness_lines(rs, model@, i as nat),
            decreases model.len() - i,
        {
            let ghost before = Seq::new(lines@.len(), |k: int| lines@[k]@);
            assert(rs[i as int] == self.profile.votes@[i as int].0@);
            let ranking = self.profile.votes[i].0.to_string();
            match model[i] {
                None => {
                    let line = String::from_str("? -> ").concat(ranking.as_str());
                    lines.push(line);
                    assert(Seq::new(lines@.len(), |k: int| lines@[k]@) =~= before.push(
                        "? -> "@ + ranking_text(rs[i as int]),
                    ));
                },
                Some(value) => {
                    if value != 0 {
                        let line = integer_string(value).concat(" -> ").concat(ranking.as_str());
                        lines.push(line);
                        assert(Seq::new(lines@.len(), |k: int| lines@[k]@) =~= before.push(
                            signed_decimal(value as int) + " -> "@ + ranking_text(rs[i as int]),
                        ));
                    }
                },
            }
            i += 1;
        }
        lines
    }
}

/// `step` asks for case `c` of the axiom `kind`.
pub open spec fn asks_for_kind<R: VotingRule>(
    kind: AxiomKind,
    step: Step,
    e: Electorate,
    rule: &R,
    c: int,
) -> bool {
    match kind {
        AxiomKind::Unanimity => asks_for::<R, Unanimity>(step, type_of_kind::<R>(kind), e, rule, c),
        AxiomKind::Consistency => asks_for::<R, Consistency>(step, type_of_kind::<R>(kind), e, rule, c),
        AxiomKind::FullCoalitionSupport => asks_for::<R, FullCoalitionSupport>(step, type_of_kind::<R>(kind), e, rule, c),
        AxiomKind::Majority => asks_for::<R, Majority>(step, type_of_kind::<R>(kind), e, rule, c),
        AxiomKind::Nonimposition => asks_for::<R, Nonimposition>(step, type_of_kind::<R>(kind), e, rule, c),
        AxiomKind::Participation => asks_for::<R, Participation>(step, type_of_kind::<R>(kind), e, rule, c),
        AxiomKind::Strategyproof => asks_for::<R, Strategyproof>(step, type_of_kind::<R>(kind), e, rule, c),
        AxiomKind::Strongnonimposition => asks_for::<R, Strongnonimposition>(step, type_of_kind::<R>(kind), e, rule, c),
        AxiomKind::StrictSomeSplit => asks_for::<R, StrictSomeSplit>(step, type_of_kind::<R>(kind), e, rule, c),
        AxiomKind::StrictAllSplit => asks_for::<R, StrictAllSplit>(step, type_of_kind::<R>(kind), e, rule, c),
        AxiomKind::WeakSomeSplit => asks_for::<R, WeakSomeSplit>(step, type_of_kind::<R>(kind), e, rule, c),
        AxiomKind::WeakAllSplit => asks_for::<R, WeakAllSplit>(step, type_of_kind::<R>(kind), e, rule, c),
        AxiomKind::WeakPairSupport => asks_for::<R, WeakPairSupport>(step, type_of_kind::<R>(kind), e, rule, c),
        AxiomKind::StrongPairSupport => asks_for::<R, StrongPairSupport>(step, type_of_kind::<R>(kind), e, rule, c),
    }
}

/// The cases from `from` up to `to` of the axiom `kind` ask nothing.
pub open spec fn skipped_between<R: VotingRule>(kind: AxiomKind, e: Electorate, from: int, to: int) -> bool {
    match kind {
        AxiomKind::Unanimity => all_skipped::<R, Unanimity>(e, from, to),
        AxiomKind::Consistency => all_skipped::<R, Consistency>(e, from, to),
        AxiomKind::FullCoalitionSupport => all_skipped::<R, FullCoalitionSupport>(e, from, to),
        AxiomKind::Majority => all_skipped::<R, Majority>(e, from, to),
        AxiomKind::Nonimposition => all_skipped::<R, Nonimposition>(e, from, to),
        AxiomKind::Participation => all_skipped::<R, Participation>(e, from, to),
        AxiomKind::Strategyproof => all_skipped::<R, Strategyproof>(e, from, to),
        AxiomKind::Strongnonimposition => all_skipped::<R, Strongnonimposition>(e, from, to),
        AxiomKind::StrictSomeSplit => all_skipped::<R, StrictSomeSplit>(e, from, to),
        AxiomKind::StrictAllSplit => all_skipped::<R, StrictAllSplit>(e, from, to),
        AxiomKind::WeakSomeSplit => all_skipped::<R, WeakSomeSplit>(e, from, to),
        AxiomKind::WeakAllSplit => all_skipped::<R, WeakAllSplit>(e, from, to),
        AxiomKind::WeakPairSupport => all_skipped::<R, WeakPairSupport>(e, from, to),
        AxiomKind::StrongPairSupport => all_skipped::<R, StrongPairSupport>(e, from, to),
    }
}

/// `after` is `before` with the statements of the axiom `kind` behind it.
pub open spec fn extended_by<R: VotingRule>(
    kind: AxiomKind,
    before: Seq<Formula>,
    after: Seq<Formula>,
    e: Electorate,
    rule: &R,
) -> bool {
    match kind {
        AxiomKind::Unanimity => extended::<R, Unanimity>(before, after, e, rule),
        AxiomKind::Consistency => extended::<R, Consistency>(before, after, e, rule),
        AxiomKind::FullCoalitionSupport => extended::<R, FullCoalitionSupport>(before, after, e, rule),
        AxiomKind::Majority => extended::<R, Majority>(before, after, e, rule),
        AxiomKind::Nonimposition => extended::<R, Nonimposition>(before, after, e, rule),
        AxiomKind::Participation => extended::<R, Participation>(before, after, e, rule),
        AxiomKind::Strategyproof => extended::<R, Strategyproof>(before, after, e, rule),
        AxiomKind::Strongnonimposition => extended::<R, Strongnonimposition>(before, after, e, rule),
        AxiomKind::StrictSomeSplit => extended::<R, StrictSomeSplit>(before, after, e, rule),
        AxiomKind::StrictAllSplit => extended::<R, StrictAllSplit>(before, after, e, rule),
        AxiomKind::WeakSomeSplit => extended::<R, WeakSomeSplit>(before, after, e, rule),
        AxiomKind::WeakAllSplit => extended::<R, WeakAllSplit>(before, after, e, rule),
        AxiomKind::WeakPairSupport => extended::<R, WeakPairSupport>(before, after, e, rule),
        AxiomKind::StrongPairSupport => extended::<R, StrongPairSupport>(before, after, e, rule),
    }
}

impl<R: VotingRule> Proof<R> {
    /// Adds the statements of the axiom `kind`: to those that must hold,
    /// or to those that must be satisfiable.
    pub fn add_axiom_kind(&mut self, kind: AxiomKind)
        requires
            ready_for(kind, old(self).profile@, &old(self).rule),
            cases_of::<R>(kind, old(self).profile@) <= usize::MAX,
        ensures
            final(self).profile == old(self).profile,
            final(self).rule == old(self).rule,
            type_of_kind::<R>(kind) == AxiomType::Forall ==> final(self).exists_conditions@ == old(
                self,
            ).exists_conditions@ && extended_by::<R>(
                kind,
                old(self).forall_conditions@,
                final(self).forall_conditions@,
                old(self).profile@,
                &old(self).rule,
            ),
            type_of_kind::<R>(kind) == AxiomType::Exists ==> final(self).forall_conditions@ == old(
                self,
            ).forall_conditions@ && extended_by::<R>(
                kind,
                old(self).exists_conditions@,
                final(self).exists_conditions@,
                old(self).profile@,
                &old(self).rule,
            ),
    {
        match kind {
            AxiomKind::Unanimity => self.add_axiom::<Unanimity>(),
            AxiomKind::Consistency => self.add_axiom::<Consistency>(),
            AxiomKind::FullCoalitionSupport => self.add_axiom::<FullCoalitionSupport>(),
            AxiomKind::Majority => self.add_axiom::<Majority>(),
            AxiomKind::Nonimposition => self.add_axiom::<Nonimposition>(),
            AxiomKind::Participation => self.add_axiom::<Participation>(),
            AxiomKind::Strategyproof => self.add_axiom::<Strategyproof>(),
            AxiomKind::Strongnonimposition => self.add_axiom::<Strongnonimposition>(),
            AxiomKind::StrictSomeSplit => self.add_axiom::<StrictSomeSplit>(),
            AxiomKind::StrictAllSplit => self.add_axiom::<StrictAllSplit>(),
            AxiomKind::WeakSomeSplit => self.add_axiom::<WeakSomeSplit>(),
            AxiomKind::WeakAllSplit => self.add_axiom::<WeakAllSplit>(),
            AxiomKind::WeakPairSupport => self.add_axiom::<WeakPairSupport>(),
            AxiomKind::StrongPairSupport => self.add_axiom::<StrongPairSupport>(),
        }
    }

    /// Starts the search through the statements of the axiom `kind`.
    pub fn check_iteratively_kind(&self, kind: AxiomKind) -> (r: (Search, Step))
        requires
            ready_for(kind, self.profile@, &self.rule),
            cases_of::<R>(kind, self.profile@) <= usize::MAX,
        ensures
            r.0.kind == type_of_kind::<R>(kind),
            r.0.next <= cases_of::<R>(kind, self.profile@),
            r.1 is Done ==> r.0.finished && r.1 == Step::Done(SatResult::Sat) && skipped_between::<R>(
                kind,
                self.profile@,
                0,
                cases_of::<R>(kind, self.profile@) as int,
            ),
            r.1 is Ask ==> !r.0.finished && r.0.next > 0 && !skipped_by::<R>(
                kind,
                self.profile@,
                r.0.next - 1,
            ) && skipped_between::<R>(kind, self.profile@, 0, r.0.next - 1) && asks_for_kind(
                kind,
                r.1,
                self.profile@,
                &self.rule,
                r.0.next - 1,
            ),
    {
        match kind {
            AxiomKind::Unanimity => self.check_iteratively::<Unanimity>(),
            AxiomKind::Consistency => self.check_iteratively::<Consistency>(),
            AxiomKind::FullCoalitionSupport => self.check_iteratively::<FullCoalitionSupport>(),
            AxiomKind::Majority => self.check_iteratively::<Majority>(),
            AxiomKind::Nonimposition => self.check_iteratively::<Nonimposition>(),
            AxiomKind::Participation => self.check_iteratively::<Participation>(),
            AxiomKind::Strategyproof => self.check_iteratively::<Strategyproof>(),
            AxiomKind::Strongnonimposition => self.check_iteratively::<Strongnonimposition>(),
            AxiomKind::StrictSomeSplit => self.check_iteratively::<StrictSomeSplit>(),
            AxiomKind::StrictAllSplit => self.check_iteratively::<StrictAllSplit>(),
            AxiomKind::WeakSomeSplit => self.check_iteratively::<WeakSomeSplit>(),
            AxiomKind::WeakAllSplit => self.check_iteratively::<WeakAllSplit>(),
            AxiomKind::WeakPairSupport => self.check_iteratively::<WeakPairSupport>(),
            AxiomKind::StrongPairSupport => self.check_iteratively::<StrongPairSupport>(),
        }
    }

    /// Goes on with the search through the statements of the axiom `kind`
    /// after the solver has given `answer`. An answer that decides the
    /// search ends it at once.
    pub fn resume_kind(&self, kind: AxiomKind, search: Search, answer: SatResult) -> (r: (
        Search,
        Step,
    ))
        requires
            !search.finished,
            search.kind == type_of_kind::<R>(kind),
            search.next <= cases_of::<R>(kind, self.profile@),
            ready_for(kind, self.profile@, &self.rule),
            cases_of::<R>(kind, self.profile@) <= usize::MAX,
        ensures
            r.0.kind == search.kind,
            !goes_on(search.kind, answer) ==> r.0.finished && r.0.next == search.next && r.1
                == Step::Done(verdict(search.kind, answer)),
            goes_on(search.kind, answer) ==> search.next <= r.0.next <= cases_of::<R>(
                kind,
                self.profile@,
            ) && (r.1 is Done ==> r.0.finished && r.1 == Step::Done(SatResult::Sat)
                && skipped_between::<R>(
                kind,
                self.profile@,
                search.next as int,
                cases_of::<R>(kind, self.profile@) as int,
            )) && (r.1 is Ask ==> !r.0.finished && r.0.next > search.next && !skipped_by::<R>(
                kind,
                self.profile@,
                r.0.next - 1,
            ) && skipped_between::<R>(kind, self.profile@, search.next as int, r.0.next - 1)
                && asks_for_kind(kind, r.1, self.profile@, &self.rule, r.0.next - 1)),
    {
        match kind {
            AxiomKind::Unanimity => self.resume::<Unanimity>(search, answer),
            AxiomKind::Consistency => self.resume::<Consistency>(search, answer),
            AxiomKind::FullCoalitionSupport => self.resume::<FullCoalitionSupport>(search, answer),
            AxiomKind::Majority => self.resume::<Majority>(search, answer),
            AxiomKind::Nonimposition => self.resume::<Nonimposition>(search, answer),
            AxiomKind::Participation => self.resume::<Participation>(search, answer),
            AxiomKind::Strategyproof => self.resume::<Strategyproof>(search, answer),
            AxiomKind::Strongnonimposition => self.resume::<Strongnonimposition>(search, answer),
            AxiomKind::StrictSomeSplit => self.resume::<StrictSomeSplit>(search, answer),
            AxiomKind::StrictAllSplit => self.resume::<StrictAllSplit>(search, answer),
            AxiomKind::WeakSomeSplit => self.resume::<WeakSomeSplit>(search, answer),
            AxiomKind::WeakAllSplit => self.resume::<WeakAllSplit>(search, answer),
            AxiomKind::WeakPairSupport => self.resume::<WeakPairSupport>(search, answer),
            AxiomKind::StrongPairSupport => self.resume::<StrongPairSupport>(search, answer),
        }
    }
}

impl<R: VotingRule> Proof<R> {
    /// Adds the statements of the axiom `kind` where they can be formed
    /// for the profile and the rule, and says whether it did.
    pub fn try_add_axiom(&mut self, kind: AxiomKind) -> (added: bool)
        ensures
            final(self).profile == old(self).profile,
            final(self).rule == old(self).rule,
            added == (ready_for(kind, old(self).profile@, &old(self).rule) && cases_of::<R>(
                kind,
                old(self).profile@,
            ) <= usize::MAX),
            !added ==> final(self).forall_conditions == old(self).forall_conditions,
            !added ==> final(self).exists_conditions == old(self).exists_conditions,
            added && type_of_kind::<R>(kind) == AxiomType::Forall ==> final(self).exists_conditions@
                == old(self).exists_conditions@ && extended_by::<R>(
                kind,
                old(self).forall_conditions@,
                final(self).forall_conditions@,
                old(self).profile@,
                &old(self).rule,
            ),
            added && type_of_kind::<R>(kind) == AxiomType::Exists ==> final(self).forall_conditions@
                == old(self).forall_conditions@ && extended_by::<R>(
                kind,
                old(self).exists_conditions@,
                final(self).exists_conditions@,
                old(self).profile@,
                &old(self).rule,
            ),
    {
        if is_ready(kind, &self.profile, &self.rule) && cases_fit::<R>(kind, &self.profile) {
            self.add_axiom_kind(kind);
            true
        } else {
            false
        }
    }

    /// Starts the search through the statements of the axiom `kind` where
    /// they can be formed for the profile and the rule.
    pub fn try_check_iteratively(&self, kind: AxiomKind) -> (r: Option<(Search, Step)>)
        ensures
            r is Some <==> (ready_for(kind, self.profile@, &self.rule) && cases_of::<R>(
                kind,
                self.profile@,
            ) <= usize::MAX),
            r matches Some(start) ==> {
                &&& start.0.kind == type_of_kind::<R>(kind)
                &&& start.0.next <= cases_of::<R>(kind, self.profile@)
                &&& start.1 is Done ==> start.0.finished && start.1 == Step::Done(SatResult::Sat)
                    && skipped_between::<R>(
                    kind,
                    self.profile@,
                    0,
                    cases_of::<R>(kind, self.profile@) as int,
                )
                &&& start.1 is Ask ==> !start.0.finished && start.0.next > 0 && !skipped_by::<R>(
                    kind,
                    self.profile@,
                    start.0.next - 1,
                ) && skipped_between::<R>(kind, self.profile@, 0, start.0.next - 1)
                    && asks_for_kind(kind, start.1, self.profile@, &self.rule, start.0.next - 1)
            },
    {
        if is_ready(kind, &self.profile, &self.rule) && cases_fit::<R>(kind, &self.profile) {
            Some(self.check_iteratively_kind(kind))
        } else {
            None
        }
    }
}

/// Why a request for a proof cannot be served.
#[derive(Clone, Copy, Debug, PartialEq, Eq, Structural)]
pub enum RequestError {
    /// A search for a counterexample was asked for more than one axiom.
    IterativeWithMany,
    /// No rule has the name.
    UnknownRule,
    /// No ballot format has the name.
    UnknownBallot,
    /// No axiom has the name with this index among the names.
    UnknownAxiom(usize),
}

/// What a request for a proof asks for.
#[derive(Debug)]
pub struct Request {
    pub rule: RuleKind,
    pub ballot: BallotKind,
    pub axioms: Vec<AxiomKind>,
    pub iteratively: bool,
}

/// The axioms that the names of `names` stand for, in order.
pub open spec fn named_kinds(names: Seq<String>, kinds: Seq<AxiomKind>) -> bool {
    &&& kinds.len() == names.len()
    &&& forall|i: int|
        0 <= i < names.len() ==> crate::proving::axioms::names::names(
            #[trigger] kinds[i],
            names[i]@,
        )
}

/// No axiom has the name `name`.
pub open spec fn names_no_axiom(name: Seq<char>) -> bool {
    forall|i: int|
        0 <= i < crate::proving::axioms::names::kinds().len()
            ==> !crate::proving::axioms::names::names(
            #[trigger] crate::proving::axioms::names::kinds()[i],
            name,
        )
}

/// No rule has the name `name`.
pub open spec fn names_no_rule(name: Seq<char>) -> bool {
    forall|i: int|
        0 <= i < crate::proving::rule::names::kinds().len()
            ==> !crate::proving::rule::names::names(
            #[trigger] crate::proving::rule::names::kinds()[i],
            name,
        )
}

/// No ballot format has the name `name`.
pub open spec fn names_no_ballot(name: Seq<char>) -> bool {
    forall|i: int|
        0 <= i < crate::ballots::names::kinds().len() ==> !crate::ballots::names::names(
            #[trigger] crate::ballots::names::kinds()[i],
            name,
        )
}

/// Reads a request: the rule, the ballot format and the axioms by their
/// names. Where no axiom is named, all axioms are meant. A search for a
/// counterexample is refused for more than one axiom, before any name is
/// looked up.
pub fn resolve_request(rule: &str, ballot: &str, axioms: &Vec<String>, iteratively: bool) -> (r:
    Result<Request, RequestError>)
    ensures
        match r {
            Err(RequestError::IterativeWithMany) => iteratively && (axioms@.len() > 1
                || axioms@.len() == 0),
            Err(RequestError::UnknownRule) => !(iteratively && axioms@.len() != 1)
                && names_no_rule(rule@),
            Err(RequestError::UnknownBallot) => !(iteratively && axioms@.len() != 1)
                && !names_no_rule(rule@) && names_no_ballot(ballot@),
            Err(RequestError::UnknownAxiom(i)) => !(iteratively && axioms@.len() != 1)
                && !names_no_rule(rule@) && !names_no_ballot(ballot@) && i < axioms@.len()
                && names_no_axiom(axioms@[i as int]@) && forall|j: int|
                0 <= j < i ==> !names_no_axiom((#[trigger] axioms@[j])@),
            Ok(request) => {
                &&& !(iteratively && axioms@.len() != 1)
                &&& request.iteratively == iteratively
                &&& crate::proving::rule::names::names(request.rule, rule@)
                &&& crate::ballots::names::names(request.ballot, ballot@)
                &&& axioms@.len() > 0 ==> named_kinds(axioms@, request.axioms@)
                &&& axioms@.len() == 0 ==> request.axioms@ == crate::proving::axioms::names::kinds()
            },
        },
{
    // without a name all axioms are meant, which are more than one
    if iteratively && axioms.len() != 1 {
        return Err(RequestError::IterativeWithMany);
    }
    let rule_kind = match crate::proving::rule::names::kind_of(rule) {
        Some(kind) => kind,
        None => {
            return Err(RequestError::UnknownRule);
        },
    };
    let ballot_kind = match crate::ballots::names::kind_of(ballot) {
        Some(kind) => kind,
        None => {
            return Err(RequestError::UnknownBallot);
        },
    };
    if axioms.len() == 0 {
        return Ok(
            Request {
                rule: rule_kind,
                ballot: ballot_kind,
                axioms: all_axiom_kinds(),
                iteratively,
            },
        );
    }
    let mut kinds: Vec<AxiomKind> = Vec::new();
    let mut i: usize = 0;
    while i < axioms.len()
        invariant
            i <= axioms.len(),
            kinds@.len() == i,
            forall|j: int|
                0 <= j < i ==> crate::proving::axioms::names::names(
                    #[trigger] kinds@[j],
                    axioms@[j]@,
                ),
            forall|j: int| 0 <= j < i ==> !names_no_axiom((#[trigger] axioms@[j])@),
        decreases axioms.len() - i,
    {
        match axiom_kind(axioms[i].as_str()) {
            Some(kind) => {
                kinds.push(kind);
            },
            None => {
                return Err(RequestError::UnknownAxiom(i));
            },
        }
        i += 1;
    }
    Ok(Request { rule: rule_kind, ballot: ballot_kind, axioms: kinds, iteratively })
}

} // verus!
