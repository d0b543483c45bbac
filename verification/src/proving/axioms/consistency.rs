//! Consistency: where two parts of the electorate have the same set of
//! winners, the whole electorate has exactly this set of winners too.
use vstd::prelude::*;
use crate::proving::axioms::names::AxiomKind;
use crate::order::models;
use crate::proving::axioms::{is_rule_ready, rule_ready, Axiom, AxiomType};
use crate::proving::formula::{
    all_of, both, holds, implication, int_eq, int_sum, int_total, int_value, negation, Formula,
    IntTerm, Valuation,
};
use crate::proving::profile::{count_value, renamed, Electorate, Profile};
use crate::proving::rule::rule_trait::{
    all_win, exact_winner_set, exactly_win, winner, winner_set, wins, VotingRule,
};
use crate::sorted::member;
use crate::structures::partition::{Blocks, Partition};
use crate::utils::structures::{
    chosen_by, lemma_chosen_within, powerset_generator, subset_count, two_to,
};

verus! {

/// Consistency: what two parts of the voters elect each, all voters
/// elect together.
pub struct Consistency {}

/// The first part of the electorate: the profile with new variables.
pub open spec fn first_part(e: Electorate) -> Electorate {
    renamed(e, "'"@)
}

/// The second part of the electorate.
pub open spec fn second_part(e: Electorate) -> Electorate {
    renamed(e, "''"@)
}

/// Every ranking has as many votes in `e` as in the two parts together.
pub open spec fn sums_up(e: Electorate, a: Electorate, b: Electorate, v: Valuation) -> bool {
    forall|k: int|
        0 <= k < e.counts.len() ==> count_value(#[trigger] e.counts[k], v) == count_value(
            a.counts[k],
            v,
        ) + count_value(b.counts[k], v)
}

/// The two parts are electorates that are not empty and make up `e`.
pub open spec fn parts_valid(e: Electorate, v: Valuation) -> bool {
    let a = first_part(e);
    let b = second_part(e);
    &&& a.nonnegative(v)
    &&& b.nonnegative(v)
    &&& a.total(v) > 0
    &&& b.total(v) > 0
    &&& sums_up(e, a, b, v)
}

/// No partition outside `s` wins in both parts.
pub open spec fn no_other_common_winner<R: VotingRule>(
    rule: &R,
    e: Electorate,
    s: Seq<Blocks>,
    v: Valuation,
) -> bool {
    forall|j: int|
        0 <= j < e.partitions.len() && !s.contains(#[trigger] e.partitions[j]) ==> !(wins(
            rule,
            e.partitions[j],
            first_part(e),
            None,
            v,
        ) && wins(rule, e.partitions[j], second_part(e), None, v))
}

/// The statement that every ranking has as many votes in `profile` as
/// in `a` and `b` together.
fn sum_condition(profile: &Profile, a: &Profile, b: &Profile) -> (f: Formula)
    requires
        a@.counts.len() == profile@.counts.len(),
        b@.counts.len() == profile@.counts.len(),
    ensures
        forall|v: Valuation| #[trigger] holds(f, v) <==> sums_up(profile@, a@, b@, v),
{
    let ghost e = profile@;
    let mut sum_correct: Vec<Formula> = Vec::new();
    let mut k: usize = 0;
    while k < profile.votes.len()
        invariant
            k <= profile.votes.len(),
            sum_correct@.len() == k,
            a.votes@.len() == profile.votes@.len(),
            b.votes@.len() == profile.votes@.len(),
            forall|l: int, v: Valuation|
                0 <= l < k ==> (#[trigger] holds(sum_correct@[l], v) <==> count_value(
                    e.counts[l],
                    v,
                ) == count_value(a@.counts[l], v) + count_value(b@.counts[l], v)),
        decreases profile.votes.len() - k,
    {
        assert(e.counts[k as int] == profile.votes@[k as int].1@);
        assert(a@.counts[k as int] == a.votes@[k as int].1@);
        assert(b@.counts[k as int] == b.votes@[k as int].1@);
        let var = profile.votes[k].1.term();
        let var1 = a.votes[k].1.term();
        let var2 = b.votes[k].1.term();
        let mut pair: Vec<IntTerm> = Vec::new();
        pair.push(var1);
        pair.push(var2);
        let ghost ps = pair@;
        let sum = int_total(pair);
        let equal = int_eq(var, sum);
        proof {
            assert forall|v: Valuation| #[trigger]
                holds(equal, v) <==> count_value(e.counts[k as int], v) == count_value(
                    a@.counts[k as int],
                    v,
                ) + count_value(b@.counts[k as int], v) by {
                assert(int_sum(ps, 0, v) == 0);
                assert(int_sum(ps, 1, v) == int_value(ps[0], v));
                assert(int_sum(ps, 2, v) == int_value(ps[0], v) + int_value(ps[1], v));
                assert(int_value(var, v) == count_value(e.counts[k as int], v));
            }
        }
        sum_correct.push(equal);
        k += 1;
    }
    let ghost cs = sum_correct@;
    let f = all_of(sum_correct);
    proof {
        assert forall|v: Valuation| #[trigger] holds(f, v) <==> sums_up(e, a@, b@, v) by {
            if holds(f, v) {
                assert forall|l: int| 0 <= l < e.counts.len() implies count_value(
                    #[trigger] e.counts[l],
                    v,
                ) == count_value(a@.counts[l], v) + count_value(b@.counts[l], v) by {
                    assert(holds(cs[l], v));
                }
            }
            if sums_up(e, a@, b@, v) {
                assert forall|l: int| 0 <= l < cs.len() implies holds(#[trigger] cs[l], v) by {
                    assert(count_value(e.counts[l], v) == count_value(a@.counts[l], v)
                        + count_value(b@.counts[l], v));
                }
            }
        }
    }
    f
}

/// The statement that no partition outside `winning_set` wins in both
/// parts.
fn exact_intersection<R: VotingRule>(
    profile: &Profile,
    a: &Profile,
    b: &Profile,
    rule: &R,
    winning_set: &Vec<Partition>,
) -> (f: Formula)
    requires
        a@ == first_part(profile@),
        b@ == second_part(profile@),
        rule_ready(rule, a@),
        rule_ready(rule, b@),
    ensures
        forall|v: Valuation| #[trigger]
            holds(f, v) <==> no_other_common_winner(rule, profile@, models(winning_set@), v),
{
    let ghost e = profile@;
    let ghost s = models(winning_set@);
    let mut condition: Vec<Formula> = Vec::new();
    let ghost mut origin: Seq<int> = Seq::empty();
    let mut j: usize = 0;
    while j < profile.partitions.len()
        invariant
            j <= profile.partitions.len(),
            origin.len() == condition@.len(),
            forall|l: int|
                0 <= l < origin.len() ==> 0 <= #[trigger] origin[l] < j && !s.contains(
                    e.partitions[origin[l]],
                ),
            forall|l: int, v: Valuation|
                0 <= l < condition@.len() ==> (#[trigger] holds(condition@[l], v) <==> !(wins(
                    rule,
                    e.partitions[origin[l]],
                    first_part(e),
                    None,
                    v,
                ) && wins(rule, e.partitions[origin[l]], second_part(e), None, v))),
            forall|i: int|
                0 <= i < j && !s.contains(e.partitions[i]) ==> exists|l: int|
                    0 <= l < origin.len() && #[trigger] origin[l] == i,
        decreases profile.partitions.len() - j,
    {
        let partition = &profile.partitions[j];
        assert(partition@ == e.partitions[j as int]);
        if !member(winning_set, partition) {
            assert(a@.partitions[j as int] == e.partitions[j as int]);
            assert(b@.partitions[j as int] == e.partitions[j as int]);
            let winner1 = winner(rule, partition, a, None);
            let winner2 = winner(rule, partition, b, None);
            let cond = both(winner1, winner2);
            let part = negation(cond);
            let ghost old_origin = origin;
            proof {
                origin = origin.push(j as int);
                assert forall|i: int|
                    0 <= i < j + 1 && !s.contains(e.partitions[i]) implies exists|l: int|
                    0 <= l < origin.len() && #[trigger] origin[l] == i by {
                    if i < j {
                        let l = choose|l: int|
                            0 <= l < old_origin.len() && #[trigger] old_origin[l] == i;
                        assert(origin[l] == i);
                    } else {
                        assert(origin[old_origin.len() as int] == i);
                    }
                }
            }
            condition.push(part);
        }
        j += 1;
    }
    let ghost cs = condition@;
    let f = all_of(condition);
    proof {
        assert forall|v: Valuation| #[trigger]
            holds(f, v) <==> no_other_common_winner(rule, e, s, v) by {
            if holds(f, v) {
                assert forall|i: int|
                    0 <= i < e.partitions.len() && !s.contains(
                        #[trigger] e.partitions[i],
                    ) implies !(wins(rule, e.partitions[i], first_part(e), None, v) && wins(
                    rule,
                    e.partitions[i],
                    second_part(e),
                    None,
                    v,
                )) by {
                    let l = choose|l: int| 0 <= l < origin.len() && #[trigger] origin[l] == i;
                    assert(holds(cs[l], v));
                }
            }
            if no_other_common_winner(rule, e, s, v) {
                assert forall|l: int| 0 <= l < cs.len() implies holds(#[trigger] cs[l], v) by {
                    let i = origin[l];
                    assert(!s.contains(e.partitions[i]));
                }
            }
        }
    }
    f
}

impl<R: VotingRule> Axiom<R> for Consistency {
    /// One case for each set of partitions.
    open spec fn cases(e: Electorate) -> nat {
        two_to(e.partitions.len())
    }

    open spec fn ready(e: Electorate, rule: &R) -> bool {
        &&& rule_ready(rule, e)
        &&& rule_ready(rule, first_part(e))
        &&& rule_ready(rule, second_part(e))
    }

    /// Nothing is asked of the empty set.
    open spec fn skipped(e: Electorate, i: int) -> bool {
        chosen_by(e.partitions, i as nat).len() == 0
    }

    /// Where two electorates that are not empty make up the whole, the
    /// partitions of the set win in both, and no other partition wins in
    /// both, the partitions of the set win in the whole, and no other
    /// partition does.
    open spec fn meaning(e: Electorate, rule: &R, i: int, v: Valuation) -> bool {
        let s = chosen_by(e.partitions, i as nat);
        (parts_valid(e, v) && all_win(rule, s, first_part(e), None, v) && all_win(
            rule,
            s,
            second_part(e),
            None,
            v,
        ) && no_other_common_winner(rule, e, s, v)) ==> exactly_win(rule, s, e, None, v)
    }

    fn is_ready(profile: &Profile, rule: &R) -> (b: bool) {
        if !is_rule_ready(rule, profile, None) {
            return false;
        }
        let sub_profile1 = profile.create_new("'");
        let sub_profile2 = profile.create_new("''");
        is_rule_ready(rule, &sub_profile1, None) && is_rule_ready(rule, &sub_profile2, None)
    }

    fn cases_fit(profile: &Profile) -> (b: bool) {
        assert(profile@.partitions.len() == profile.partitions@.len());
        subset_count(profile.partitions.len()).is_some()
    }

    fn num_cases(profile: &Profile) -> (n: usize) {
        match subset_count(profile.partitions.len()) {
            Some(c) => c,
            None => {
                assert(false);
                0
            },
        }
    }

    #[verifier::rlimit(60)]
    fn condition_generator(profile: &Profile, rule: &R, i: usize) -> (f: Option<Formula>) {
        let ghost e = profile@;
        let winning_set = powerset_generator(&profile.partitions, i);
        let ghost s = chosen_by(e.partitions, i as nat);
        if winning_set.len() == 0 {
            return None;
        }
        let sub_profile1 = profile.create_new("'");
        let sub_profile2 = profile.create_new("''");
        let ghost e1 = sub_profile1@;
        let ghost e2 = sub_profile2@;
        assert(e1 == first_part(e) && e2 == second_part(e));
        let sum_condition = sum_condition(profile, &sub_profile1, &sub_profile2);
        let non_negative1 = sub_profile1.vars_nonnegative();
        let non_negative2 = sub_profile2.vars_nonnegative();
        let sum_pos1 = sub_profile1.vars_sum_positive();
        let sum_pos2 = sub_profile2.vars_sum_positive();
        let sub_profiles_preconditions = both(
            both(non_negative1, non_negative2),
            both(both(sum_pos1, sum_pos2), sum_condition),
        );
        proof {
            lemma_chosen_within(e.partitions, i as nat);
            assert forall|k: int| 0 <= k < winning_set@.len() implies rule.scorable(
                (#[trigger] winning_set@[k])@,
                e,
                None,
            ) && rule.scorable(winning_set@[k]@, e1, None) && rule.scorable(
                winning_set@[k]@,
                e2,
                None,
            ) by {
                assert(winning_set@[k]@ == s[k]);
                assert(e.partitions.contains(s[k]));
                let j = choose|j: int| 0 <= j < e.partitions.len() && e.partitions[j] == s[k];
                assert(rule.scorable(e.partitions[j], e, None));
                assert(e1.partitions[j] == s[k]);
                assert(e2.partitions[j] == s[k]);
            }
        }
        let winner_set1 = winner_set(rule, &sub_profile1, &winning_set, None);
        let winner_set2 = winner_set(rule, &sub_profile2, &winning_set, None);
        let exact_intersection = exact_intersection(
            profile,
            &sub_profile1,
            &sub_profile2,
            rule,
            &winning_set,
        );
        let precondition = both(both(winner_set1, winner_set2), exact_intersection);
        let postcondition = exact_winner_set(rule, &winning_set, profile, None);
        Some(implication(both(sub_profiles_preconditions, precondition), postcondition))
    }

    open spec fn type_of() -> AxiomType {
        AxiomType::Forall
    }

    fn get_type() -> (t: AxiomType) {
        AxiomType::Forall
    }

    open spec fn kind() -> AxiomKind {
        AxiomKind::Consistency
    }

    fn short_name() -> &'static str {
        crate::proving::axioms::names::short_name(AxiomKind::Consistency)
    }

    fn full_name() -> &'static str {
        crate::proving::axioms::names::full_name(AxiomKind::Consistency)
    }
}

} // verus!
