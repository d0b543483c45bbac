//! What every voting rule offers, and the statements about winners that
//! follow from the scores alone.
use vstd::prelude::*;
use crate::order::{models, Keyed, Order};
use crate::proving::formula::{
    all_of, holds, int_eq, int_lit, int_value, negation, real_eq, real_ge, real_gt, real_value,
    Formula, RealTerm, Valuation,
};
use crate::proving::profile::{extras, Electorate, Extra, ExtraVotes, Profile};
use crate::sorted::member;
use crate::structures::partition::{Blocks, Partition};
use crate::structures::ranking::Ranking;

verus! {

/// Every partition of the rule has a score.
pub open spec fn scores_all<R: VotingRule>(rule: &R, profile: Electorate, extra: Option<Extra>) -> bool {
    forall|i: int|
        0 <= i < rule.partitions().len() ==> rule.scorable(
            #[trigger] rule.partitions()[i],
            profile,
            extra,
        )
}

/// No partition scores more than `p`.
pub open spec fn wins<R: VotingRule>(rule: &R, p: Blocks, profile: Electorate, extra: Option<Extra>, v: Valuation) -> bool {
    forall|i: int|
        0 <= i < rule.partitions().len() ==> rule.score_value(p, profile, extra, v)
            >= rule.score_value(#[trigger] rule.partitions()[i], profile, extra, v)
}

/// Every other partition scores less than `p`.
pub open spec fn wins_alone<R: VotingRule>(
    rule: &R,
    p: Blocks,
    profile: Electorate,
    extra: Option<Extra>,
    v: Valuation,
) -> bool {
    forall|i: int|
        0 <= i < rule.partitions().len() && rule.partitions()[i] != p ==> rule.score_value(
            p,
            profile,
            extra,
            v,
        ) > rule.score_value(#[trigger] rule.partitions()[i], profile, extra, v)
}

/// Every partition of `set` wins.
pub open spec fn all_win<R: VotingRule>(
    rule: &R,
    set: Seq<Blocks>,
    profile: Electorate,
    extra: Option<Extra>,
    v: Valuation,
) -> bool {
    forall|i: int| 0 <= i < set.len() ==> wins(rule, #[trigger] set[i], profile, extra, v)
}

/// The partitions of `set` win, and of the rule's partitions no other.
pub open spec fn exactly_win<R: VotingRule>(
    rule: &R,
    set: Seq<Blocks>,
    profile: Electorate,
    extra: Option<Extra>,
    v: Valuation,
) -> bool {
    &&& all_win(rule, set, profile, extra, v)
    &&& forall|i: int|
        0 <= i < rule.partitions().len() && !set.contains(rule.partitions()[i]) ==> !wins(rule, 
            #[trigger] rule.partitions()[i],
            profile,
            extra,
            v,
        )
}


/// A voting rule: it gives every partition a score for the votes of a
/// profile; the partitions with the greatest score win.
pub trait VotingRule: Sized {
    /// The partitions that the rule scores.
    spec fn partitions(&self) -> Seq<Blocks>;

    /// The profiles and partitions for which the rule has a score.
    spec fn scorable(&self, p: Blocks, profile: Electorate, extra: Option<Extra>) -> bool;

    /// The score of `p` in `profile`, with the votes of `extra` added,
    /// where the variables have the values of `v`.
    spec fn score_value(
        &self,
        p: Blocks,
        profile: Electorate,
        extra: Option<Extra>,
        v: Valuation,
    ) -> real;

    /// All partitions that the rule scores.
    fn all_partitions(&self) -> (r: Vec<Partition>)
        ensures
            models(r@) == self.partitions(),
    ;

    /// Whether the rule has a score for `partition` in `profile` with
    /// the votes of `extra_votes` added.
    fn can_score(&self, partition: &Partition, profile: &Profile, extra_votes: Option<&ExtraVotes>) -> (b:
        bool)
        ensures
            b == self.scorable(partition@, profile@, extras(extra_votes)),
    ;

    /// The score of `partition` as a term over the vote counts.
    fn score(&self, partition: &Partition, profile: &Profile, extra_votes: Option<&ExtraVotes>) -> (t:
        RealTerm)
        requires
            self.scorable(partition@, profile@, extras(extra_votes)),
        ensures
            forall|v: Valuation| #[trigger]
                real_value(t, v) == self.score_value(partition@, profile@, extras(extra_votes), v),
    ;
}

/// The statement that `partition` is the only winner: it scores more
/// than every other partition.
pub fn only_winner<R: VotingRule>(rule: &R, partition: &Partition, profile: &Profile, extra_votes: Option<&ExtraVotes>) -> (f:
    Formula)
    requires
        rule.scorable(partition@, profile@, extras(extra_votes)),
        scores_all(rule, profile@, extras(extra_votes)),
    ensures
        forall|v: Valuation| #[trigger]
            holds(f, v) <==> wins_alone(rule, partition@, profile@, extras(extra_votes), v),
{
    let all = rule.all_partitions();
    let mut parts: Vec<Formula> = Vec::new();
    let ghost mut origin: Seq<int> = Seq::empty();
    let mut i: usize = 0;
    while i < all.len()
        invariant
            i <= all.len(),
            models(all@) == rule.partitions(),
            origin.len() == parts@.len(),
            forall|k: int| 0 <= k < origin.len() ==> 0 <= #[trigger] origin[k] < i,
            forall|k: int, v: Valuation|
                0 <= k < parts@.len() ==> (#[trigger] holds(parts@[k], v)
                    <==> rule.score_value(partition@, profile@, extras(extra_votes), v)
                    > rule.score_value(rule.partitions()[origin[k]], profile@, extras(extra_votes), v)),
            forall|j: int|
                0 <= j < i && rule.partitions()[j] != partition@ ==> exists|k: int|
                    0 <= k < origin.len() && #[trigger] origin[k] == j,
            forall|k: int|
                0 <= k < origin.len() ==> rule.partitions()[#[trigger] origin[k]]
                    != partition@,
        decreases all.len() - i,
    {
        proof {
            Partition::lemma_order();
            assert(all@[i as int].model() == rule.partitions()[i as int]);
            assert(all@[i as int]@ == rule.partitions()[i as int]);
        }
        match all[i].compare(partition) {
            Order::Equal => {},
            _ => {
                let score = rule.score(partition, profile, extra_votes);
                let other_score = rule.score(&all[i], profile, extra_votes);
                let part = real_gt(score, other_score);
                let ghost old_origin = origin;
                proof {
                    origin = origin.push(i as int);
                    assert forall|j: int|
                        0 <= j < i + 1 && rule.partitions()[j] != partition@ implies exists|
                        k: int,
                    | 0 <= k < origin.len() && #[trigger] origin[k] == j by {
                        if j < i {
                            let k = choose|k: int|
                                0 <= k < old_origin.len() && #[trigger] old_origin[k] == j;
                            assert(origin[k] == j);
                        } else {
                            assert(origin[old_origin.len() as int] == j);
                        }
                    }
                }
                parts.push(part);
            },
        }
        i += 1;
    }
    let f = all_of(parts);
    proof {
        assert forall|v: Valuation| #[trigger]
            holds(f, v) <==> wins_alone(rule, partition@, profile@, extras(extra_votes), v) by {
            if holds(f, v) {
                assert forall|j: int|
                    0 <= j < rule.partitions().len() && rule.partitions()[j]
                        != partition@ implies rule.score_value(
                    partition@,
                    profile@,
                    extras(extra_votes),
                    v,
                ) > rule.score_value(
                    #[trigger] rule.partitions()[j],
                    profile@,
                    extras(extra_votes),
                    v,
                ) by {
                    let k = choose|k: int| 0 <= k < origin.len() && #[trigger] origin[k] == j;
                    assert(holds(parts@[k], v));
                }
            }
            if wins_alone(rule, partition@, profile@, extras(extra_votes), v) {
                assert forall|k: int| 0 <= k < parts@.len() implies holds(
                    #[trigger] parts@[k],
                    v,
                ) by {
                    let j = origin[k];
                    assert(rule.partitions()[j] != partition@);
                }
            }
        }
    }
    f
}

/// The statement that `partition` is a winner: no partition scores
/// more.
pub fn winner<R: VotingRule>(rule: &R, partition: &Partition, profile: &Profile, extra_votes: Option<&ExtraVotes>) -> (f:
    Formula)
    requires
        rule.scorable(partition@, profile@, extras(extra_votes)),
        scores_all(rule, profile@, extras(extra_votes)),
    ensures
        forall|v: Valuation| #[trigger]
            holds(f, v) <==> wins(rule, partition@, profile@, extras(extra_votes), v),
{
    let all = rule.all_partitions();
    let mut parts: Vec<Formula> = Vec::new();
    let mut i: usize = 0;
    while i < all.len()
        invariant
            i <= all.len(),
            models(all@) == rule.partitions(),
            parts@.len() == i,
            forall|k: int, v: Valuation|
                0 <= k < i ==> (#[trigger] holds(parts@[k], v) <==> rule.score_value(
                    partition@,
                    profile@,
                    extras(extra_votes),
                    v,
                ) >= rule.score_value(rule.partitions()[k], profile@, extras(extra_votes), v)),
        decreases all.len() - i,
    {
        proof {
            assert(all@[i as int].model() == rule.partitions()[i as int]);
            assert(all@[i as int]@ == rule.partitions()[i as int]);
        }
        let score = rule.score(partition, profile, extra_votes);
        let other_score = rule.score(&all[i], profile, extra_votes);
        parts.push(real_ge(score, other_score));
        i += 1;
    }
    let f = all_of(parts);
    proof {
        assert forall|v: Valuation| #[trigger]
            holds(f, v) <==> wins(rule, partition@, profile@, extras(extra_votes), v) by {
            if holds(f, v) {
                assert forall|j: int| 0 <= j < rule.partitions().len() implies rule.score_value(
                    partition@,
                    profile@,
                    extras(extra_votes),
                    v,
                ) >= rule.score_value(
                    #[trigger] rule.partitions()[j],
                    profile@,
                    extras(extra_votes),
                    v,
                ) by {
                    assert(holds(parts@[j], v));
                }
            }
        }
    }
    f
}

/// The statement that `partition` is no winner.
pub fn not_winner<R: VotingRule>(rule: &R, partition: &Partition, profile: &Profile, extra_votes: Option<&ExtraVotes>) -> (f:
    Formula)
    requires
        rule.scorable(partition@, profile@, extras(extra_votes)),
        scores_all(rule, profile@, extras(extra_votes)),
    ensures
        forall|v: Valuation| #[trigger]
            holds(f, v) <==> !wins(rule, partition@, profile@, extras(extra_votes), v),
{
    let winner_condition = winner(rule, partition, profile, extra_votes);
    negation(winner_condition)
}

/// The statement that every partition of `winning_set` is a winner;
/// others may win too.
pub fn winner_set<R: VotingRule>(rule: &R, profile: &Profile, winning_set: &Vec<Partition>, extra_votes: Option<&ExtraVotes>) -> (f:
    Formula)
    requires
        scores_all(rule, profile@, extras(extra_votes)),
        forall|i: int|
            0 <= i < winning_set@.len() ==> rule.scorable(
                (#[trigger] winning_set@[i])@,
                profile@,
                extras(extra_votes),
            ),
    ensures
        forall|v: Valuation| #[trigger]
            holds(f, v) <==> all_win(rule, models(winning_set@), profile@, extras(extra_votes), v),
{
    let mut parts: Vec<Formula> = Vec::new();
    let ghost set = models(winning_set@);
    let mut i: usize = 0;
    while i < winning_set.len()
        invariant
            i <= winning_set.len(),
            parts@.len() == i,
            set == models(winning_set@),
            forall|k: int, v: Valuation|
                0 <= k < i ==> (#[trigger] holds(parts@[k], v) <==> wins(rule, 
                    set[k],
                    profile@,
                    extras(extra_votes),
                    v,
                )),
        decreases winning_set.len() - i,
    {
        assert(winning_set@[i as int]@ == set[i as int]);
        parts.push(winner(rule, &winning_set[i], profile, extra_votes));
        i += 1;
    }
    let f = all_of(parts);
    proof {
        assert forall|v: Valuation| #[trigger]
            holds(f, v) <==> all_win(rule, set, profile@, extras(extra_votes), v) by {
            if holds(f, v) {
                assert forall|j: int| 0 <= j < set.len() implies wins(rule, 
                    #[trigger] set[j],
                    profile@,
                    extras(extra_votes),
                    v,
                ) by {
                    assert(holds(parts@[j], v));
                }
            }
        }
    }
    f
}

/// The statement that the partitions of `winning_set` are the
/// winners, and no other partition is.
pub fn exact_winner_set<R: VotingRule>(rule: &R, winning_set: &Vec<Partition>, profile: &Profile, extra_votes: Option<&ExtraVotes>) -> (f:
    Formula)
    requires
        scores_all(rule, profile@, extras(extra_votes)),
        forall|i: int|
            0 <= i < winning_set@.len() ==> rule.scorable(
                (#[trigger] winning_set@[i])@,
                profile@,
                extras(extra_votes),
            ),
    ensures
        forall|v: Valuation| #[trigger]
            holds(f, v) <==> exactly_win(rule, models(winning_set@), profile@, extras(extra_votes), v),
{
    let ghost set = models(winning_set@);
    let mut parts: Vec<Formula> = Vec::new();
    parts.push(winner_set(rule, profile, winning_set, extra_votes));
    let all = rule.all_partitions();
    let ghost mut origin: Seq<int> = seq![-1int];
    let mut i: usize = 0;
    while i < all.len()
        invariant
            i <= all.len(),
            models(all@) == rule.partitions(),
            set == models(winning_set@),
            origin.len() == parts@.len(),
            parts@.len() >= 1,
            forall|v: Valuation| #[trigger]
                holds(parts@[0], v) <==> all_win(rule, set, profile@, extras(extra_votes), v),
            forall|k: int| 1 <= k < origin.len() ==> 0 <= #[trigger] origin[k] < i,
            forall|k: int, v: Valuation|
                1 <= k < parts@.len() ==> (#[trigger] holds(parts@[k], v) <==> !wins(rule, 
                    rule.partitions()[origin[k]],
                    profile@,
                    extras(extra_votes),
                    v,
                )),
            forall|j: int|
                0 <= j < i && !set.contains(rule.partitions()[j]) ==> exists|k: int|
                    1 <= k < origin.len() && #[trigger] origin[k] == j,
            forall|k: int|
                1 <= k < origin.len() ==> !set.contains(
                    rule.partitions()[#[trigger] origin[k]],
                ),
        decreases all.len() - i,
    {
        proof {
            assert(all@[i as int].model() == rule.partitions()[i as int]);
            assert(all@[i as int]@ == rule.partitions()[i as int]);
        }
        if !member(winning_set, &all[i]) {
            let part = not_winner(rule, &all[i], profile, extra_votes);
            let ghost old_origin = origin;
            proof {
                origin = origin.push(i as int);
                assert forall|j: int|
                    0 <= j < i + 1 && !set.contains(rule.partitions()[j]) implies exists|k: int|
                    1 <= k < origin.len() && #[trigger] origin[k] == j by {
                    if j < i {
                        let k = choose|k: int|
                            1 <= k < old_origin.len() && #[trigger] old_origin[k] == j;
                        assert(origin[k] == j);
                    } else {
                        assert(origin[old_origin.len() as int] == j);
                    }
                }
            }
            parts.push(part);
        }
        i += 1;
    }
    let f = all_of(parts);
    proof {
        assert forall|v: Valuation| #[trigger]
            holds(f, v) <==> exactly_win(rule, set, profile@, extras(extra_votes), v) by {
            if holds(f, v) {
                assert(holds(parts@[0], v));
                assert forall|j: int|
                    0 <= j < rule.partitions().len() && !set.contains(
                        rule.partitions()[j],
                    ) implies !wins(rule, 
                    #[trigger] rule.partitions()[j],
                    profile@,
                    extras(extra_votes),
                    v,
                ) by {
                    let k = choose|k: int| 1 <= k < origin.len() && #[trigger] origin[k] == j;
                    assert(holds(parts@[k], v));
                }
            }
            if exactly_win(rule, set, profile@, extras(extra_votes), v) {
                assert forall|k: int| 0 <= k < parts@.len() implies holds(
                    #[trigger] parts@[k],
                    v,
                ) by {
                    if k >= 1 {
                        let j = origin[k];
                        assert(!set.contains(rule.partitions()[j]));
                    }
                }
            }
        }
    }
    f
}

/// The statement that the two partitions have the same score.
pub fn tied<R: VotingRule>(
    rule: &R,
    partition_a: &Partition,
    partition_b: &Partition,
    profile: &Profile,
    extra_votes: Option<&ExtraVotes>,
) -> (f: Formula)
    requires
        rule.scorable(partition_a@, profile@, extras(extra_votes)),
        rule.scorable(partition_b@, profile@, extras(extra_votes)),
    ensures
        forall|v: Valuation| #[trigger]
            holds(f, v) <==> rule.score_value(partition_a@, profile@, extras(extra_votes), v)
                == rule.score_value(partition_b@, profile@, extras(extra_votes), v),
{
    let score_a = rule.score(partition_a, profile, extra_votes);
    let score_b = rule.score(partition_b, profile, extra_votes);
    real_eq(score_a, score_b)
}

/// The statement that `ranking` has no votes, those of `extra_votes`
/// counted in.
pub fn zero_votes<R: VotingRule>(rule: &R, ranking: &Ranking, profile: &Profile, extra_votes: Option<&ExtraVotes>) -> (f:
    Formula)
    requires
        profile@.lists(ranking@),
    ensures
        forall|v: Valuation| #[trigger]
            holds(f, v) <==> profile@.amount(extras(extra_votes), profile@.vote_index(ranking@), v) == 0,
{
    let i = match profile.find_vote(ranking) {
        Some(i) => i,
        None => {
            assert(false);
            0
        },
    };
    let total_votes = profile.amount_term(extra_votes, i);
    let zero = int_lit(0);
    let f = int_eq(total_votes, zero);
    proof {
        assert forall|v: Valuation| #[trigger]
            holds(f, v) <==> profile@.amount(extras(extra_votes), profile@.vote_index(ranking@), v)
                == 0 by {
            assert(int_value(total_votes, v) == profile@.amount(extras(extra_votes), i as int, v));
            assert(int_value(zero, v) == 0);
        }
    }
    f
}

/// Whether the rule has a score for each of its own partitions, with
/// the votes of `extra_votes` added.
pub fn can_score_all<R: VotingRule>(rule: &R, profile: &Profile, extra_votes: Option<&ExtraVotes>) -> (b:
    bool)
    ensures
        b == scores_all(rule, profile@, extras(extra_votes)),
{
    let all = rule.all_partitions();
    let mut i: usize = 0;
    while i < all.len()
        invariant
            i <= all.len(),
            models(all@) == rule.partitions(),
            forall|j: int|
                0 <= j < i ==> rule.scorable(
                    #[trigger] rule.partitions()[j],
                    profile@,
                    extras(extra_votes),
                ),
        decreases all.len() - i,
    {
        assert(all@[i as int]@ == rule.partitions()[i as int]);
        if !rule.can_score(&all[i], profile, extra_votes) {
            return false;
        }
        i += 1;
    }
    true
}

} // verus!
