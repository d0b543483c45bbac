//! Pairwise scores: the voter gives every pair of candidates a score,
//! and a partition has the scores of the pairs that share one of its
//! coalitions together.
use vstd::prelude::*;
use crate::ballots::names::BallotKind;
use vstd::string::*;
use crate::ballots::ballot_trait::Ballot;
use crate::ballots::utils::{
    agrees, hold_all, lookup, name_table, order_constraints, ranked_by, ranking_from_scores,
    score_entries, score_list, score_of, texts,
};
use crate::order::{increasing, models, Keyed};
use crate::proving::formula::{Formula, Valuation};
use crate::sorted::{lemma_sorted_unique, sorted};
use crate::structures::candidate::{candidate_seq, Candidate, Name};
use crate::structures::coalition::{pairs_within, Coalition};
use crate::structures::partition::{paired, partition_seq, Blocks, Partition};
use crate::structures::ranking::{ranks, Ranking, Tiers};
use crate::structures::Structure;
use crate::utils::unordered_pair::UnorderedPair;

verus! {

/// The scores that a voter gives: pairs of candidates with their
/// scores. A pair that is not listed has the score 0.
pub type PairScores = Vec<(UnorderedPair<Candidate>, i32)>;

/// A ballot that gives every pair of candidates a score: a partition
/// is ranked by the sum of the scores of the pairs that it holds
/// together.
pub struct Ps {
    pub ballot: PairScores,
    pub ranking: Ranking,
}

/// A pair of candidates as plain values.
pub type Pair = (Name, Name);

/// The order of pairs.
pub open spec fn pair_order() -> spec_fn(Pair, Pair) -> bool {
    UnorderedPair::<Candidate>::less()
}

/// The pairs of candidates that share a coalition of `p`, in order.
pub open spec fn pairs_of(p: Blocks) -> Seq<Pair> {
    choose|s: Seq<Pair>|
        increasing(pair_order(), s) && forall|x: Pair|
            s.contains(x) <==> exists|k: int| 0 <= k < p.len() && pairs_within(#[trigger] p[k], x)
}

/// The scores of the first `n` pairs of `pairs` together.
pub open spec fn pair_scores(ballot: Seq<(Pair, int)>, pairs: Seq<Pair>, n: nat) -> int
    decreases n,
{
    if n == 0 || n > pairs.len() {
        0
    } else {
        pair_scores(ballot, pairs, (n - 1) as nat) + score_of(ballot, pairs[n - 1], ballot.len())
    }
}

/// Every partition of `m` candidates with its score.
pub open spec fn ps_entries(m: usize, ballot: Seq<(Pair, int)>) -> Seq<(Blocks, int)> {
    Seq::new(
        partition_seq(m).len(),
        |j: int|
            (
                partition_seq(m)[j],
                pair_scores(ballot, pairs_of(partition_seq(m)[j]), pairs_of(partition_seq(m)[j]).len()),
            ),
    )
}

/// The pairs of two of the `m` candidates, in order.
pub open spec fn candidate_pairs(m: usize) -> Seq<Pair> {
    choose|s: Seq<Pair>|
        increasing(pair_order(), s) && forall|x: Pair|
            s.contains(x) <==> pairs_within(candidate_seq(m), x)
}

/// The name of the variable for the score of a pair: the two names in
/// round brackets.
pub open spec fn pair_text(x: Pair) -> Seq<char> {
    seq!['('] + x.0 + seq![',', ' '] + x.1 + seq![')']
}

/// The names of the variables of those among the first `n` pairs of
/// `pairs` that share a coalition of `p`.
pub open spec fn shared_texts(pairs: Seq<Pair>, p: Blocks, n: nat) -> Seq<Seq<char>>
    decreases n,
{
    if n == 0 || n > pairs.len() {
        Seq::empty()
    } else if paired(p, pairs[n - 1].0, pairs[n - 1].1) {
        shared_texts(pairs, p, (n - 1) as nat).push(pair_text(pairs[n - 1]))
    } else {
        shared_texts(pairs, p, (n - 1) as nat)
    }
}

/// For every partition of `m` candidates the names of the variables
/// that make up its score.
pub open spec fn ps_names(m: usize) -> Seq<Seq<Seq<char>>> {
    Seq::new(
        partition_seq(m).len(),
        |j: int| shared_texts(candidate_pairs(m), partition_seq(m)[j], candidate_pairs(m).len()),
    )
}

/// The name of the variable for the score of `pair`.
pub fn pair_name(pair: &UnorderedPair<Candidate>) -> (s: String)
    ensures
        s@ == pair_text(pair.model()),
{
    proof {
        reveal_strlit("(");
        reveal_strlit(", ");
        reveal_strlit(")");
    }
    let s = String::from_str("(").concat(pair.0.name.as_str()).concat(", ").concat(
        pair.1.name.as_str(),
    ).concat(")");
    assert(s@ =~= pair_text(pair.model()));
    s
}

impl Ps {
    /// The ballot of the voter who gives the scores of `ballot`: it
    /// keeps the scores and ranks the partitions by them.
    pub fn new(ballot: &PairScores, m: usize) -> (b: Ps)
        requires
            m >= 1,
        ensures
            exists|levels: Seq<int>|
                ranked_by(b.induced(), ps_entries(m, score_list(ballot@)), levels, true),
            score_list(b.ballot@) == score_list(ballot@),
    {
        let partitions = Partition::all(m);
        let ghost ps = models(partitions@);
        let ghost bl = score_list(ballot@);
        let mut scores: Vec<(Partition, i128)> = Vec::new();
        let mut j: usize = 0;
        while j < partitions.len()
            invariant
                j <= partitions.len(),
                ps == models(partitions@),
                ps == partition_seq(m),
                forall|i: int| 0 <= i < partitions@.len() ==> (#[trigger] partitions@[i]).wf(),
                bl == score_list(ballot@),
                scores@.len() == j,
                forall|k: int|
                    0 <= k < j ==> (#[trigger] score_entries(scores@)[k]) == (
                        ps[k],
                        pair_scores(bl, pairs_of(ps[k]), pairs_of(ps[k]).len()),
                    ),
            decreases partitions.len() - j,
        {
            let partition = &partitions[j];
            assert(partition@ == ps[j as int]);
            assert(partition.wf());
            let pairs = partition.all_pairs();
            let ghost pm = models(pairs@);
            proof {
                UnorderedPair::<Candidate>::lemma_order();
                let want = pairs_of(partition@);
                assert(increasing(pair_order(), pm) && forall|x: Pair|
                    pm.contains(x) <==> exists|k: int|
                        0 <= k < partition@.len() && pairs_within(#[trigger] partition@[k], x));
                lemma_sorted_unique(pair_order(), pm, want);
            }
            let mut sum: i128 = 0;
            let mut k: usize = 0;
            while k < pairs.len()
                invariant
                    k <= pairs.len(),
                    pm == models(pairs@),
                    bl == score_list(ballot@),
                    sum == pair_scores(bl, pm, k as nat),
                    -(k * 0x8000_0000) <= sum <= k * 0x8000_0000,
                decreases pairs.len() - k,
            {
                assert(pairs@[k as int].model() == pm[k as int]);
                let score = lookup(ballot, &pairs[k]);
                assert((k + 1) * 0x8000_0000 == k * 0x8000_0000 + 0x8000_0000) by (nonlinear_arith);
                assert(k * 0x8000_0000 <= 0xffff_ffff_ffff_ffff * 0x8000_0000) by (nonlinear_arith)
                    requires
                        k <= 0xffff_ffff_ffff_ffff,
                ;
                sum = sum + score as i128;
                k += 1;
            }
            let ghost before = score_entries(scores@);
            scores.push((partition.copy(), sum));
            proof {
                assert(score_entries(scores@)[j as int] == (ps[j as int], sum as int));
                assert forall|k: int| 0 <= k < j + 1 implies (#[trigger] score_entries(scores@)[k])
                    == (ps[k], pair_scores(bl, pairs_of(ps[k]), pairs_of(ps[k]).len())) by {
                    if k < j {
                        assert(score_entries(scores@)[k] == before[k]);
                    }
                }
            }
            j += 1;
        }
        assert(score_entries(scores@) =~= ps_entries(m, bl));
        let ghost entries = score_entries(scores@);
        let ranking = ranking_from_scores(scores, true);
        let ghost levels = choose|levels: Seq<int>| ranked_by(ranking@, entries, levels, true);
        let mut copy: PairScores = Vec::new();
        let mut i: usize = 0;
        while i < ballot.len()
            invariant
                i <= ballot.len(),
                score_list(copy@) == score_list(ballot@).take(i as int),
            decreases ballot.len() - i,
        {
            copy.push((ballot[i].0.copy(), ballot[i].1));
            assert(score_list(copy@) =~= score_list(ballot@).take(i + 1));
            i += 1;
        }
        assert(score_list(ballot@).take(i as int) =~= score_list(ballot@));
        let b = Ps { ballot: copy, ranking };
        assert(ranked_by(b.induced(), ps_entries(m, bl), levels, true));
        b
    }

    /// The statements that say that scores of the pairs order the
    /// partitions exactly as `ranking` does: one for every two
    /// partitions. The scores are real variables, one for each pair of
    /// candidates. The ranking is one that a ballot of this format can
    /// express if the statements can hold together.
    pub fn possible_ranking(m: usize, ranking: &Ranking) -> (r: Vec<Formula>)
        requires
            m >= 1,
            forall|j: int|
                0 <= j < partition_seq(m).len() ==> ranks(ranking@, #[trigger] partition_seq(m)[j]),
        ensures
            forall|v: Valuation| #[trigger]
                hold_all(r@, v) <==> agrees(ranking@, partition_seq(m), ps_names(m), v),
    {
        let partitions = Partition::all(m);
        let candidates = Candidate::all(m);
        let everyone = Coalition { members: candidates };
        assert(everyone@ == candidate_seq(m));
        let pairs = everyone.all_pairs();
        let ghost ps = models(partitions@);
        let ghost pm = models(pairs@);
        proof {
            UnorderedPair::<Candidate>::lemma_order();
            lemma_sorted_unique(pair_order(), pm, candidate_pairs(m));
        }
        let mut names: Vec<Vec<String>> = Vec::new();
        let mut j: usize = 0;
        while j < partitions.len()
            invariant
                j <= partitions.len(),
                ps == models(partitions@),
                ps == partition_seq(m),
                pm == models(pairs@),
                pm == candidate_pairs(m),
                names@.len() == j,
                forall|k: int|
                    0 <= k < j ==> texts((#[trigger] names@[k])@) == shared_texts(
                        pm,
                        ps[k],
                        pm.len(),
                    ),
            decreases partitions.len() - j,
        {
            let partition = &partitions[j];
            assert(partition@ == ps[j as int]);
            let mut vars: Vec<String> = Vec::new();
            let mut k: usize = 0;
            while k < pairs.len()
                invariant
                    k <= pairs.len(),
                    j < partitions.len(),
                    partition == &partitions[j as int],
                    partition@ == ps[j as int],
                    pm == models(pairs@),
                    texts(vars@) == shared_texts(pm, partition@, k as nat),
                decreases pairs.len() - k,
            {
                assert(pairs@[k as int].model() == pm[k as int]);
                let ghost before = texts(vars@);
                let pair = (&pairs[k].0, &pairs[k].1);
                if partition.contains_pair(&pair) {
                    vars.push(pair_name(&pairs[k]));
                    assert(texts(vars@) =~= before.push(pair_text(pm[k as int])));
                }
                k += 1;
            }
            names.push(vars);
            j += 1;
        }
        assert(name_table(names@) =~= ps_names(m));
        assert forall|j: int| 0 <= j < partitions@.len() implies ranks(
            ranking@,
            (#[trigger] partitions@[j])@,
        ) by {
            assert(partitions@[j]@ == partition_seq(m)[j]);
        }
        order_constraints(ranking, &partitions, &names)
    }
}

impl Ballot for Ps {
    open spec fn induced(&self) -> Tiers {
        self.ranking@
    }

    open spec fn kind() -> BallotKind {
        BallotKind::Ps
    }

    fn get_name() -> String {
        String::from_str(crate::ballots::names::short_name(BallotKind::Ps))
    }

    fn get_full_name() -> String {
        String::from_str(crate::ballots::names::full_name(BallotKind::Ps))
    }

    fn get_ranking(&self) -> (r: Ranking) {
        self.ranking.copy()
    }
}

} // verus!
