//! The Borda rule: a partition gets, from each vote, one point for every
//! partition that the vote does not put before or beside it.
use vstd::prelude::*;
use crate::proving::rule::names::RuleKind;
use crate::order::{models, Keyed};
use crate::proving::formula::{
    int_lit, int_prod, int_sum, int_total, int_value, lemma_int_sum_push, real_of_int,
    real_value, IntTerm, RealTerm, Valuation,
};
use crate::proving::profile::{extras, Count, Electorate, Extra, ExtraVotes, Profile};
use crate::proving::rule::rule_trait::VotingRule;
use crate::structures::partition::{partition_seq, Blocks, Partition};
use crate::structures::Structure;
use crate::structures::ranking::{class_of, lemma_class_of, ranks, Ranking, Tiers};

verus! {

/// The Borda rule: a vote gives a partition a point for every partition
/// that it ranks lower.
pub struct Borda {
    pub partitions: Vec<Partition>,
    pub alternatives: usize,
    pub num_candidates: usize,
}

/// The number of partitions in the first `c` classes of `r`.
pub open spec fn before(r: Tiers, c: int) -> int
    decreases c,
{
    if c <= 0 {
        0
    } else {
        before(r, c - 1) + r[c - 1].len()
    }
}

/// The points that one vote for `r` gives to `p`, where there are
/// `alternatives` partitions: one for each partition that is not in the
/// class of `p` or in a class before it.
pub open spec fn borda_weight(alternatives: int, r: Tiers, p: Blocks) -> int {
    alternatives - 1 - before(r, class_of(r, p))
}

/// The points that a vote for each ranking of `profile` gives to `p`.
pub open spec fn borda_weights(alternatives: int, profile: Electorate, p: Blocks) -> spec_fn(
    int,
) -> int {
    |i: int| borda_weight(alternatives, profile.rankings[i], p)
}

/// The classes before a later class hold at least as many partitions.
pub proof fn lemma_before_grows(r: Tiers, a: int, b: int)
    requires
        0 <= a <= b,
    ensures
        0 <= before(r, a) <= before(r, b),
    decreases b,
{
    if a < b {
        lemma_before_grows(r, a, b - 1);
    } else if a > 0 {
        lemma_before_grows(r, a - 1, a - 1);
        lemma_before_grows(r, 0, a - 1);
    }
}

/// In a ranking without ties, `c` partitions stand before class `c`.
pub proof fn lemma_before_untied(r: Tiers, c: int)
    requires
        0 <= c <= r.len(),
        forall|j: int| 0 <= j < r.len() ==> (#[trigger] r[j]).len() == 1,
    ensures
        before(r, c) == c,
    decreases c,
{
    if c > 0 {
        lemma_before_untied(r, c - 1);
    }
}

/// With one vote of weight `k` for a ranking without ties, the partition
/// at position `i` has the Borda score `k` times the number of
/// partitions behind it.
pub proof fn lemma_borda_single_vote(rule: &Borda, profile: Electorate, k: int, i: int, v: Valuation)
    requires
        profile.rankings.len() == 1,
        profile.counts.len() == 1,
        profile.counts[0] == Count::Fixed(k),
        forall|j: int|
            0 <= j < profile.rankings[0].len() ==> (#[trigger] profile.rankings[0][j]).len() == 1,
        forall|a: int, b: int|
            0 <= a < b < profile.rankings[0].len() ==> profile.rankings[0][a][0]
                != profile.rankings[0][b][0],
        rule.alternatives == profile.rankings[0].len(),
        0 <= i < profile.rankings[0].len(),
    ensures
        rule.score_value(profile.rankings[0][i][0], profile, None, v) == (k * (
            rule.alternatives - 1 - i)) as real,
{
    let r = profile.rankings[0];
    let p = r[i][0];
    assert(r[i].contains(p));
    assert forall|j: int| 0 <= j < i implies !(#[trigger] r[j]).contains(p) by {
        if r[j].contains(p) {
            let l = choose|l: int| 0 <= l < r[j].len() && r[j][l] == p;
            assert(l == 0);
            assert(r[j][0] != r[i][0]);
        }
    }
    lemma_class_of(r, p, i);
    lemma_before_untied(r, i);
    let w = borda_weights(rule.alternatives as int, profile, p);
    assert(w(0) == rule.alternatives - 1 - i);
    assert(profile.tally(None, w, 0, v) == 0);
    profile.lemma_amount_plain(0, v);
    assert(profile.amount(None, 0, v) == k);
    assert(profile.tally(None, w, 1, v) == 0 + k * (rule.alternatives - 1 - i));
}

impl VotingRule for Borda {
    open spec fn partitions(&self) -> Seq<Blocks> {
        models(self.partitions@)
    }

    open spec fn scorable(&self, p: Blocks, profile: Electorate, extra: Option<Extra>) -> bool {
        &&& self.alternatives <= i64::MAX
        &&& forall|i: int|
            0 <= i < profile.rankings.len() ==> ranks(#[trigger] profile.rankings[i], p) && before(
                profile.rankings[i],
                class_of(profile.rankings[i], p),
            ) < self.alternatives
    }

    open spec fn score_value(
        &self,
        p: Blocks,
        profile: Electorate,
        extra: Option<Extra>,
        v: Valuation,
    ) -> real {
        profile.tally(
            extra,
            borda_weights(self.alternatives as int, profile, p),
            profile.rankings.len(),
            v,
        ) as real
    }

    fn can_score(&self, partition: &Partition, profile: &Profile, extra_votes: Option<&ExtraVotes>) -> (b:
        bool) {
        if self.alternatives as u128 > 0x7fff_ffff_ffff_ffffu128 {
            return false;
        }
        let ghost e = profile@;
        let mut i: usize = 0;
        while i < profile.votes.len()
            invariant
                i <= profile.votes.len(),
                forall|j: int|
                    0 <= j < i ==> ranks(#[trigger] e.rankings[j], partition@) && before(
                        e.rankings[j],
                        class_of(e.rankings[j], partition@),
                    ) < self.alternatives,
            decreases profile.votes.len() - i,
        {
            let ranking = &profile.votes[i].0;
            assert(e.rankings[i as int] == ranking@);
            match ranking.position(partition) {
                None => {
                    return false;
                },
                Some(c) => {
                    if !fewer_before(ranking, c, self.alternatives) {
                        return false;
                    }
                },
            }
            i += 1;
        }
        true
    }

    fn all_partitions(&self) -> (r: Vec<Partition>) {
        self.partitions.copy()
    }

    #[verifier::rlimit(60)]
    fn score(&self, partition: &Partition, profile: &Profile, extra_votes: Option<&ExtraVotes>) -> (t:
        RealTerm) {
        let ghost e = profile@;
        let ghost x = extras(extra_votes);
        let ghost w = borda_weights(self.alternatives as int, e, partition@);
        let mut parts: Vec<IntTerm> = Vec::new();
        let mut i: usize = 0;
        while i < profile.votes.len()
            invariant
                i <= profile.votes.len(),
                parts@.len() == i,
                forall|v: Valuation|
                    #[trigger] int_sum(parts@, i as nat, v) == e.tally(x, w, i as nat, v),
            decreases profile.votes.len() - i,
        {
            let ranking = &profile.votes[i].0;
            assert(e.rankings[i as int] == ranking@);
            assert(ranks(e.rankings[i as int], partition@));
            let class_index = ranking.index(partition);
            let num_alternatives_before = count_before(ranking, class_index, self.alternatives);
            let score = self.alternatives - 1 - num_alternatives_before;
            let weight = int_lit(score as i64);
            let amount = profile.amount_term(extra_votes, i);
            let part = int_prod(amount, weight);
            proof {
                assert forall|v: Valuation|
                    #[trigger] int_sum(parts@.push(part), (i + 1) as nat, v) == e.tally(
                        x,
                        w,
                        (i + 1) as nat,
                        v,
                    ) by {
                    lemma_int_sum_push(parts@, part, v);
                    assert(int_sum(parts@, i as nat, v) == e.tally(x, w, i as nat, v));
                    assert(int_value(amount, v) == e.amount(x, i as int, v));
                    assert(int_value(weight, v) == score);
                    assert(w(i as int) == score);
                    assert(e.rankings.len() == profile.votes@.len());
                    assert(e.tally(x, w, (i + 1) as nat, v) == e.tally(x, w, i as nat, v)
                        + e.amount(x, i as int, v) * w(i as int));
                }
            }
            parts.push(part);
            i += 1;
        }
        let ghost ps = parts@;
        let total_score = int_total(parts);
        let t = real_of_int(total_score);
        proof {
            assert forall|v: Valuation| #[trigger]
                real_value(t, v) == self.score_value(partition@, e, x, v) by {
                assert(int_sum(ps, i as nat, v) == e.tally(x, w, i as nat, v));
                assert(int_value(total_score, v) == int_sum(ps, ps.len(), v));
            }
        }
        t
    }
}

/// Whether fewer than `bound` partitions stand in the first `c` classes
/// of `ranking`.
fn fewer_before(ranking: &Ranking, c: usize, bound: usize) -> (b: bool)
    requires
        c <= ranking@.len(),
    ensures
        b == (before(ranking@, c as int) < bound),
{
    let mut n: usize = 0;
    let mut j: usize = 0;
    while j < c
        invariant
            j <= c,
            n == before(ranking@, j as int),
            n < bound || j == 0,
        decreases c - j,
    {
        proof {
            lemma_before_grows(ranking@, j + 1, c as int);
            assert(ranking@[j as int].len() == ranking.ranking@[j as int]@.len());
        }
        let size = ranking.ranking[j].len();
        if n >= bound || size >= bound - n {
            return false;
        }
        n = n + size;
        j += 1;
    }
    n < bound
}

/// The number of partitions in the first `c` classes of `ranking`.
fn count_before(ranking: &Ranking, c: usize, bound: usize) -> (n: usize)
    requires
        c <= ranking@.len(),
        before(ranking@, c as int) < bound,
    ensures
        n == before(ranking@, c as int),
{
    let mut n: usize = 0;
    let mut j: usize = 0;
    while j < c
        invariant
            j <= c,
            n == before(ranking@, j as int),
        decreases c - j,
    {
        proof {
            lemma_before_grows(ranking@, j + 1, c as int);
            assert(ranking@[j as int].len() == ranking.ranking@[j as int]@.len());
        }
        n = n + ranking.ranking[j].len();
        j += 1;
    }
    n
}

impl Borda {
    /// The rule for an election with `m` candidates.
    pub fn new(m: usize) -> (r: Self)
        requires
            m >= 1,
        ensures
            r.partitions() == partition_seq(m),
            r.alternatives == partition_seq(m).len(),
            r.num_candidates == m,
    {
        let partitions = Partition::all(m);
        let alternatives = partitions.len();
        let num_candidates = m;
        Borda { partitions, alternatives, num_candidates }
    }

    /// The name of the rule.
    pub fn name() -> (s: &'static str)
        ensures
            s@ == crate::proving::rule::names::short_text(RuleKind::Borda),
    {
        crate::proving::rule::names::short_name(RuleKind::Borda)
    }
}

} // verus!
