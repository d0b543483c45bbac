//! Majority: a partition that more than half of the voters put first,
//! and no other partition with it, wins.
use vstd::prelude::*;
use crate::proving::axioms::names::AxiomKind;
use crate::order::{Keyed, Order};
use crate::proving::axioms::{is_complete, is_rule_ready, rule_ready, Axiom, AxiomType};
use crate::proving::formula::{
    all_of, holds, implication, int_gt, int_le, int_lit, int_quot, int_value, Formula, IntTerm,
    Valuation,
};
use crate::proving::profile::{marked, ranks_all, Electorate, Profile};
use crate::proving::rule::rule_trait::{winner, wins, VotingRule};
use crate::structures::partition::{Blocks, Partition};
use crate::structures::ranking::class_of;

verus! {

/// Majority: a partition that more than half of the voters put first
/// alone wins.
pub struct Majority {}

/// For each ranking, whether it has `p` in its first class.
pub open spec fn first_choice(e: Electorate, p: Blocks) -> Seq<bool> {
    Seq::new(e.rankings.len(), |k: int| class_of(e.rankings[k], p) == 0)
}

/// The votes of the rankings that have `p` in their first class.
pub open spec fn first_votes(e: Electorate, p: Blocks, v: Valuation) -> int {
    e.tally(None, marked(first_choice(e, p)), e.rankings.len(), v)
}

/// Half of all votes, rounded down.
pub open spec fn half(e: Electorate, v: Valuation) -> int {
    e.total(v) / 2
}

/// More than half of the voters put `p` first, and they do so of no
/// other partition.
pub open spec fn sole_majority(e: Electorate, p: Blocks, v: Valuation) -> bool {
    &&& first_votes(e, p, v) > half(e, v)
    &&& forall|o: int|
        0 <= o < e.partitions.len() && e.partitions[o] != p ==> first_votes(
            e,
            #[trigger] e.partitions[o],
            v,
        ) <= half(e, v)
}

/// A term for the votes of the rankings that have `partition` in their
/// first class.
fn first_votes_term(profile: &Profile, partition: &Partition) -> (t: IntTerm)
    requires
        forall|k: int|
            0 <= k < profile@.rankings.len() ==> crate::structures::ranking::ranks(
                #[trigger] profile@.rankings[k],
                partition@,
            ),
    ensures
        forall|v: Valuation| #[trigger] int_value(t, v) == first_votes(profile@, partition@, v),
{
    let ghost e = profile@;
    let mut firsts: Vec<bool> = Vec::new();
    let mut k: usize = 0;
    while k < profile.votes.len()
        invariant
            k <= profile.votes.len(),
            firsts@.len() == k,
            forall|l: int|
                0 <= l < k ==> #[trigger] firsts@[l] == (class_of(e.rankings[l], partition@) == 0),
        decreases profile.votes.len() - k,
    {
        assert(e.rankings[k as int] == profile.votes@[k as int].0@);
        firsts.push(profile.votes[k].0.index(partition) == 0);
        k += 1;
    }
    assert(firsts@ =~= first_choice(e, partition@));
    profile.tally_term(None, &firsts)
}

/// A term for half of all votes.
fn half_term(profile: &Profile) -> (t: IntTerm)
    ensures
        forall|v: Valuation| #[trigger] int_value(t, v) == half(profile@, v),
{
    let sum = profile.total_term();
    let two = int_lit(2);
    let t = int_quot(sum, two);
    proof {
        assert forall|v: Valuation| #[trigger] int_value(t, v) == half(profile@, v) by {
            assert(int_value(sum, v) == profile@.total(v));
            assert(int_value(two, v) == 2);
        }
    }
    t
}

impl<R: VotingRule> Axiom<R> for Majority {
    /// One case for each partition.
    open spec fn cases(e: Electorate) -> nat {
        e.partitions.len()
    }

    open spec fn ready(e: Electorate, rule: &R) -> bool {
        &&& rule_ready(rule, e)
        &&& e.complete()
    }

    open spec fn skipped(e: Electorate, i: int) -> bool {
        false
    }

    /// Where the partition of the case alone is put first by more than
    /// half of the voters, it wins.
    open spec fn meaning(e: Electorate, rule: &R, i: int, v: Valuation) -> bool {
        sole_majority(e, e.partitions[i], v) ==> wins(rule, e.partitions[i], e, None, v)
    }

    fn is_ready(profile: &Profile, rule: &R) -> (b: bool) {
        is_rule_ready(rule, profile, None) && is_complete(profile)
    }

    fn cases_fit(profile: &Profile) -> (b: bool) {
        let n = profile.partitions.len();
        assert(profile@.partitions.len() == n);
        true
    }

    fn num_cases(profile: &Profile) -> (n: usize) {
        profile.partitions.len()
    }

    fn condition_generator(profile: &Profile, rule: &R, i: usize) -> (f: Option<Formula>) {
        let ghost e = profile@;
        let partition = &profile.partitions[i];
        assert(partition@ == e.partitions[i as int]);
        assert forall|k: int| 0 <= k < e.rankings.len() implies crate::structures::ranking::ranks(
            #[trigger] e.rankings[k],
            partition@,
        ) by {
            assert(ranks_all(e.rankings[k], e.partitions));
            assert(crate::structures::ranking::ranks(e.rankings[k], e.partitions[i as int]));
        }
        let mut precondition: Vec<Formula> = Vec::new();
        let is_majority = int_gt(first_votes_term(profile, partition), half_term(profile));
        precondition.push(is_majority);
        let ghost mut origin: Seq<int> = seq![-1int];
        let mut o: usize = 0;
        while o < profile.partitions.len()
            invariant
                o <= profile.partitions.len(),
                origin.len() == precondition@.len(),
                precondition@.len() >= 1,
                forall|v: Valuation| #[trigger]
                    holds(precondition@[0], v) <==> first_votes(e, partition@, v) > half(e, v),
                forall|l: int|
                    1 <= l < origin.len() ==> 0 <= #[trigger] origin[l] < o
                        && e.partitions[origin[l]] != partition@,
                forall|l: int, v: Valuation|
                    1 <= l < precondition@.len() ==> (#[trigger] holds(precondition@[l], v)
                        <==> first_votes(e, e.partitions[origin[l]], v) <= half(e, v)),
                forall|j: int|
                    0 <= j < o && e.partitions[j] != partition@ ==> exists|l: int|
                        1 <= l < origin.len() && #[trigger] origin[l] == j,
            decreases profile.partitions.len() - o,
        {
            let other = &profile.partitions[o];
            assert(other@ == e.partitions[o as int]);
            proof {
                Partition::lemma_order();
            }
            match other.compare(partition) {
                Order::Equal => {},
                _ => {
                    assert forall|k: int|
                        0 <= k < e.rankings.len() implies crate::structures::ranking::ranks(
                        #[trigger] e.rankings[k],
                        other@,
                    ) by {
                        assert(ranks_all(e.rankings[k], e.partitions));
                        assert(crate::structures::ranking::ranks(
                            e.rankings[k],
                            e.partitions[o as int],
                        ));
                    }
                    let condition = int_le(first_votes_term(profile, other), half_term(profile));
                    let ghost old_origin = origin;
                    proof {
                        origin = origin.push(o as int);
                        assert forall|j: int|
                            0 <= j < o + 1 && e.partitions[j] != partition@ implies exists|l: int|
                            1 <= l < origin.len() && #[trigger] origin[l] == j by {
                            if j < o {
                                let l = choose|l: int|
                                    1 <= l < old_origin.len() && #[trigger] old_origin[l] == j;
                                assert(origin[l] == j);
                            } else {
                                assert(origin[old_origin.len() as int] == j);
                            }
                        }
                    }
                    precondition.push(condition);
                },
            }
            o += 1;
        }
        let ghost ps = precondition@;
        let precondition = all_of(precondition);
        proof {
            assert forall|v: Valuation| #[trigger]
                holds(precondition, v) <==> sole_majority(e, partition@, v) by {
                if holds(precondition, v) {
                    assert(holds(ps[0], v));
                    assert forall|j: int|
                        0 <= j < e.partitions.len() && e.partitions[j]
                            != partition@ implies first_votes(e, #[trigger] e.partitions[j], v)
                        <= half(e, v) by {
                        let l = choose|l: int| 1 <= l < origin.len() && #[trigger] origin[l] == j;
                        assert(holds(ps[l], v));
                    }
                }
                if sole_majority(e, partition@, v) {
                    assert forall|l: int| 0 <= l < ps.len() implies holds(#[trigger] ps[l], v) by {
                        if l >= 1 {
                            let j = origin[l];
                            assert(e.partitions[j] != partition@);
                        }
                    }
                }
            }
        }
        let winner = winner(rule, partition, profile, None);
        Some(implication(precondition, winner))
    }

    open spec fn type_of() -> AxiomType {
        AxiomType::Forall
    }

    fn get_type() -> (t: AxiomType) {
        AxiomType::Forall
    }

    open spec fn kind() -> AxiomKind {
        AxiomKind::Majority
    }

    fn short_name() -> &'static str {
        crate::proving::axioms::names::short_name(AxiomKind::Majority)
    }

    fn full_name() -> &'static str {
        crate::proving::axioms::names::full_name(AxiomKind::Majority)
    }
}

} // verus!
