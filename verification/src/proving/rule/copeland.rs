//! The Copeland rule: a partition gets one point for every partition
//! that it beats in a pairwise vote.
use vstd::prelude::*;
use crate::proving::rule::names::RuleKind;
use crate::order::{models, Keyed};
use crate::proving::formula::{
    int_diff, int_if_greater, int_lit, int_sum, int_total, int_value, lemma_int_sum_push,
    real_of_int, real_value, IntTerm, RealTerm, Valuation,
};
use crate::proving::profile::{
    extras, marked, ranks_all, ranks_every, Electorate, Extra, ExtraVotes, Profile,
};
use crate::proving::rule::rule_trait::VotingRule;
use crate::structures::partition::{partition_seq, Blocks, Partition};
use crate::structures::Structure;
use crate::structures::ranking::{class_of, ranks};

verus! {

/// The Copeland rule: a partition gets a point for every partition
/// that fewer voters prefer to it than it to the other.
pub struct Copeland {
    pub partitions: Vec<Partition>,
    pub alternatives: usize,
    pub num_candidates: usize,
}

/// Weight 1 for the rankings of `profile` that put `p` in an earlier
/// class than `q`, 0 for the others.
pub open spec fn prefers(profile: Electorate, p: Blocks, q: Blocks) -> spec_fn(int) -> int {
    |i: int|
        if class_of(profile.rankings[i], p) < class_of(profile.rankings[i], q) {
            1int
        } else {
            0int
        }
}

/// The votes that prefer `p` to `q` strictly, minus those that prefer `q`
/// to `p` strictly.
#[verifier::opaque]
pub open spec fn margin(
    profile: Electorate,
    extra: Option<Extra>,
    p: Blocks,
    q: Blocks,
    v: Valuation,
) -> int {
    profile.tally(extra, prefers(profile, p, q), profile.rankings.len(), v) - profile.tally(
        extra,
        prefers(profile, q, p),
        profile.rankings.len(),
        v,
    )
}

/// The number of partitions among the first `n` of `profile` against
/// which `p` has a positive margin.
pub open spec fn pairwise_wins(
    profile: Electorate,
    extra: Option<Extra>,
    p: Blocks,
    n: nat,
    v: Valuation,
) -> int
    decreases n,
{
    if n == 0 || n > profile.partitions.len() {
        0
    } else {
        pairwise_wins(profile, extra, p, (n - 1) as nat, v) + if margin(
            profile,
            extra,
            p,
            profile.partitions[n - 1],
            v,
        ) > 0 {
            1int
        } else {
            0int
        }
    }
}

/// For each ranking of `profile`, whether it puts `p` in an earlier
/// class than `q`.
fn preference_marks(profile: &Profile, p: &Partition, q: &Partition) -> (r: Vec<bool>)
    requires
        forall|i: int|
            0 <= i < profile@.rankings.len() ==> ranks(#[trigger] profile@.rankings[i], p@)
                && ranks(profile@.rankings[i], q@),
    ensures
        r@.len() == profile@.rankings.len(),
        forall|j: int|
            0 <= j < r@.len() ==> #[trigger] r@[j] == (class_of(profile@.rankings[j], p@)
                < class_of(profile@.rankings[j], q@)),
{
    let ghost e = profile@;
    let mut r: Vec<bool> = Vec::new();
    let mut i: usize = 0;
    while i < profile.votes.len()
        invariant
            i <= profile.votes.len(),
            r@.len() == i,
            forall|j: int|
                0 <= j < i ==> #[trigger] r@[j] == (class_of(e.rankings[j], p@) < class_of(
                    e.rankings[j],
                    q@,
                )),
        decreases profile.votes.len() - i,
    {
        let ranking = &profile.votes[i].0;
        assert(e.rankings[i as int] == ranking@);
        assert(ranks(e.rankings[i as int], p@) && ranks(e.rankings[i as int], q@));
        let a = ranking.index(p);
        let b = ranking.index(q);
        r.push(a < b);
        i += 1;
    }
    r
}

/// One point where `partition` has a positive margin against the
/// partition with index `k` of `profile`, none where it has not.
fn pairwise_point(profile: &Profile, extra_votes: Option<&ExtraVotes>, partition: &Partition, k: usize) -> (point:
    IntTerm)
    requires
        k < profile@.partitions.len(),
        forall|i: int|
            0 <= i < profile@.rankings.len() ==> ranks(#[trigger] profile@.rankings[i], partition@)
                && ranks(profile@.rankings[i], profile@.partitions[k as int]),
    ensures
        forall|v: Valuation| #[trigger]
            int_value(point, v) == if margin(
                profile@,
                extras(extra_votes),
                partition@,
                profile@.partitions[k as int],
                v,
            ) > 0 {
                1int
            } else {
                0int
            },
{
    let ghost e = profile@;
    let ghost x = extras(extra_votes);
    let n = profile.votes.len();
    let other = &profile.partitions[k];
    assert(other@ == e.partitions[k as int]);
    let ghost pro_w = prefers(e, partition@, other@);
    let ghost con_w = prefers(e, other@, partition@);
    let pro = preference_marks(profile, partition, other);
    let con = preference_marks(profile, other, partition);
    let ghost pro_m = marked(pro@);
    let ghost con_m = marked(con@);
    proof {
        assert forall|j: int| 0 <= j < n implies #[trigger] pro_m(j) == pro_w(j) by {
            assert(pro@[j] == (class_of(e.rankings[j], partition@) < class_of(
                e.rankings[j],
                other@,
            )));
        }
        assert forall|j: int| 0 <= j < n implies #[trigger] con_m(j) == con_w(j) by {
            assert(con@[j] == (class_of(e.rankings[j], other@) < class_of(
                e.rankings[j],
                partition@,
            )));
        }
    }
    let pro_sum = profile.tally_term(extra_votes, &pro);
    let con_sum = profile.tally_term(extra_votes, &con);
    let score = int_diff(pro_sum, con_sum);
    let zero = int_lit(0);
    let one = int_lit(1);
    let none = int_lit(0);
    let point = int_if_greater(score, zero, one, none);
    proof {
        assert forall|v: Valuation| #[trigger]
            int_value(point, v) == if margin(e, x, partition@, e.partitions[k as int], v) > 0 {
                1int
            } else {
                0int
            } by {
            reveal(margin);
            e.lemma_tally_ext(x, pro_m, pro_w, n as nat, v);
            e.lemma_tally_ext(x, con_m, con_w, n as nat, v);
            assert(int_value(pro_sum, v) == e.tally(x, pro_m, n as nat, v));
            assert(int_value(con_sum, v) == e.tally(x, con_m, n as nat, v));
            assert(int_value(score, v) == margin(e, x, partition@, other@, v));
            assert(int_value(zero, v) == 0);
            assert(int_value(one, v) == 1);
            assert(int_value(none, v) == 0);
        }
    }
    point
}

impl VotingRule for Copeland {
    open spec fn partitions(&self) -> Seq<Blocks> {
        models(self.partitions@)
    }

    open spec fn scorable(&self, p: Blocks, profile: Electorate, extra: Option<Extra>) -> bool {
        forall|i: int|
            0 <= i < profile.rankings.len() ==> ranks(#[trigger] profile.rankings[i], p)
                && ranks_all(profile.rankings[i], profile.partitions)
    }

    open spec fn score_value(
        &self,
        p: Blocks,
        profile: Electorate,
        extra: Option<Extra>,
        v: Valuation,
    ) -> real {
        pairwise_wins(profile, extra, p, profile.partitions.len(), v) as real
    }

    fn can_score(&self, partition: &Partition, profile: &Profile, extra_votes: Option<&ExtraVotes>) -> (b:
        bool) {
        let ghost e = profile@;
        let mut i: usize = 0;
        while i < profile.votes.len()
            invariant
                i <= profile.votes.len(),
                forall|k: int|
                    0 <= k < i ==> ranks(#[trigger] e.rankings[k], partition@) && ranks_all(
                        e.rankings[k],
                        e.partitions,
                    ),
            decreases profile.votes.len() - i,
        {
            let ranking = &profile.votes[i].0;
            assert(e.rankings[i as int] == ranking@);
            if ranking.position(partition).is_none() {
                return false;
            }
            if !ranks_every(ranking, &profile.partitions) {
                assert(e.partitions == models(profile.partitions@));
                return false;
            }
            assert(e.partitions == models(profile.partitions@));
            i += 1;
        }
        true
    }

    fn all_partitions(&self) -> (r: Vec<Partition>) {
        self.partitions.copy()
    }

    fn score(&self, partition: &Partition, profile: &Profile, extra_votes: Option<&ExtraVotes>) -> (t:
        RealTerm) {
        let ghost e = profile@;
        let ghost x = extras(extra_votes);
        let mut scores: Vec<IntTerm> = Vec::new();
        let mut k: usize = 0;
        while k < profile.partitions.len()
            invariant
                k <= profile.partitions.len(),
                scores@.len() == k,
                forall|v: Valuation|
                    #[trigger] int_sum(scores@, k as nat, v) == pairwise_wins(
                        e,
                        x,
                        partition@,
                        k as nat,
                        v,
                    ),
            decreases profile.partitions.len() - k,
        {
            assert forall|i: int| 0 <= i < e.rankings.len() implies ranks(
                #[trigger] e.rankings[i],
                partition@,
            ) && ranks(e.rankings[i], e.partitions[k as int]) by {
                assert(ranks_all(e.rankings[i], e.partitions));
                assert(ranks(e.rankings[i], e.partitions[k as int]));
            }
            let point = pairwise_point(profile, extra_votes, partition, k);
            proof {
                assert forall|v: Valuation|
                    #[trigger] int_sum(scores@.push(point), (k + 1) as nat, v) == pairwise_wins(
                        e,
                        x,
                        partition@,
                        (k + 1) as nat,
                        v,
                    ) by {
                    lemma_int_sum_push(scores@, point, v);
                    assert(int_sum(scores@, k as nat, v) == pairwise_wins(
                        e,
                        x,
                        partition@,
                        k as nat,
                        v,
                    ));
                    assert(int_value(point, v) == if margin(
                        e,
                        x,
                        partition@,
                        e.partitions[k as int],
                        v,
                    ) > 0 {
                        1int
                    } else {
                        0int
                    });
                }
            }
            scores.push(point);
            k += 1;
        }
        let ghost ss = scores@;
        let total = int_total(scores);
        let t = real_of_int(total);
        proof {
            assert forall|v: Valuation| #[trigger]
                real_value(t, v) == self.score_value(partition@, e, x, v) by {
                assert(int_sum(ss, k as nat, v) == pairwise_wins(e, x, partition@, k as nat, v));
                assert(int_value(total, v) == int_sum(ss, ss.len(), v));
            }
        }
        t
    }
}

impl Copeland {
    /// The rule for an election with `m` candidates.
    pub fn new(m: usize) -> (r: Self)
        requires
            m >= 1,
        ensures
            r.partitions() == partition_seq(m),
            r.alternatives == partition_seq(m).len(),
            r.num_candidates == m,
    {
        let partitions = Partition::all(m);
        let alternatives = partitions.len();
        let num_candidates = m;
        Copeland { partitions, alternatives, num_candidates }
    }

    /// The name of the rule.
    pub fn name() -> (s: &'static str)
        ensures
            s@ == crate::proving::rule::names::short_text(RuleKind::Copeland),
    {
        crate::proving::rule::names::short_name(RuleKind::Copeland)
    }
}

} // verus!
