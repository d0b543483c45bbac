//! Coalition scores: the voter gives every coalition a score, and a
//! partition has the scores of its coalitions together.
use vstd::prelude::*;
use crate::ballots::names::BallotKind;
use vstd::string::*;
use crate::ballots::ballot_trait::Ballot;
use crate::ballots::utils::{
    agrees, hold_all, lookup, name_table, order_constraints, ranked_by, ranking_from_scores,
    score_entries, score_list, score_of, texts,
};
use crate::order::{increasing, models, Keyed, Order};
use crate::proving::formula::{Formula, Valuation};
use crate::sorted::{lemma_sorted_unique, sorted};
use crate::structures::coalition::{coalition_seq, Coalition, Group};
use crate::structures::partition::{partition_seq, Blocks, Partition};
use crate::structures::ranking::{ranks, Ranking, Tiers};
use crate::structures::utils::to_string::coalition_text;
use crate::structures::Structure;

verus! {

/// The scores that a voter gives: coalitions with their scores. A
/// coalition that is not listed has the score 0.
pub type Scores = Vec<(Coalition, i32)>;

/// A ballot that gives every coalition a score: a partition is ranked
/// by the sum of the scores of its coalitions.
pub struct Cs {
    pub ballot: Scores,
    pub ranking: Ranking,
}

/// The scores of the first `n` coalitions of `p` together.
pub open spec fn coalition_scores(ballot: Seq<(Group, int)>, p: Blocks, n: nat) -> int
    decreases n,
{
    if n == 0 || n > p.len() {
        0
    } else {
        coalition_scores(ballot, p, (n - 1) as nat) + score_of(ballot, p[n - 1], ballot.len())
    }
}

/// Every partition of `m` candidates with its score.
pub open spec fn cs_entries(m: usize, ballot: Seq<(Group, int)>) -> Seq<(Blocks, int)> {
    Seq::new(
        partition_seq(m).len(),
        |j: int| (partition_seq(m)[j], coalition_scores(ballot, partition_seq(m)[j], partition_seq(m)[j].len())),
    )
}

/// The texts of those among the first `n` coalitions of `cs` that the
/// partition `p` has: the names of the variables that make up its score.
pub open spec fn held_texts(cs: Seq<Group>, p: Blocks, n: nat) -> Seq<Seq<char>>
    decreases n,
{
    if n == 0 || n > cs.len() {
        Seq::empty()
    } else if p.contains(cs[n - 1]) {
        held_texts(cs, p, (n - 1) as nat).push(coalition_text(cs[n - 1]))
    } else {
        held_texts(cs, p, (n - 1) as nat)
    }
}

/// For every partition of `m` candidates the names of the variables
/// that make up its score.
pub open spec fn cs_names(m: usize) -> Seq<Seq<Seq<char>>> {
    Seq::new(
        partition_seq(m).len(),
        |j: int| held_texts(coalition_seq(m), partition_seq(m)[j], coalition_seq(m).len()),
    )
}

impl Cs {
    /// The ballot of the voter who gives the scores of `ballot`: it
    /// keeps the scores and ranks the partitions by them.
    pub fn new(ballot: &Scores, m: usize) -> (b: Cs)
        requires
            m >= 1,
        ensures
            exists|levels: Seq<int>|
                ranked_by(b.induced(), cs_entries(m, score_list(ballot@)), levels, true),
            score_list(b.ballot@) == score_list(ballot@),
    {
        let partitions = Partition::all(m);
        let ghost ps = models(partitions@);
        let ghost bl = score_list(ballot@);
        let mut scores: Vec<(Partition, i128)> = Vec::new();
        let mut j: usize = 0;
        while j < partitions.len()
            invariant
                j <= partitions.len(),
                ps == models(partitions@),
                ps == partition_seq(m),
                bl == score_list(ballot@),
                scores@.len() == j,
                forall|k: int|
                    0 <= k < j ==> (#[trigger] score_entries(scores@)[k]) == (
                        ps[k],
                        coalition_scores(bl, ps[k], ps[k].len()),
                    ),
            decreases partitions.len() - j,
        {
            let partition = &partitions[j];
            assert(partition@ == ps[j as int]);
            let mut sum: i128 = 0;
            let mut k: usize = 0;
            while k < partition.coalitions.len()
                invariant
                    k <= partition.coalitions.len(),
                    j < partitions.len(),
                    partition == &partitions[j as int],
                    partition@ == ps[j as int],
                    bl == score_list(ballot@),
                    sum == coalition_scores(bl, partition@, k as nat),
                    -(k * 0x8000_0000) <= sum <= k * 0x8000_0000,
                decreases partition.coalitions.len() - k,
            {
                assert(partition.coalitions@[k as int]@ == partition@[k as int]);
                let score = lookup(ballot, &partition.coalitions[k]);
                assert((k + 1) * 0x8000_0000 == k * 0x8000_0000 + 0x8000_0000) by (nonlinear_arith);
                assert(k * 0x8000_0000 <= 0xffff_ffff_ffff_ffff * 0x8000_0000) by (nonlinear_arith)
                    requires
                        k <= 0xffff_ffff_ffff_ffff,
                ;
                sum = sum + score as i128;
                k += 1;
            }
            let ghost before = score_entries(scores@);
            scores.push((partition.copy(), sum));
            proof {
                assert(partition@.len() == partition.coalitions@.len());
                assert(score_entries(scores@)[j as int] == (ps[j as int], sum as int));
                assert forall|k: int| 0 <= k < j + 1 implies (#[trigger] score_entries(scores@)[k])
                    == (ps[k], coalition_scores(bl, ps[k], ps[k].len())) by {
                    if k < j {
                        assert(score_entries(scores@)[k] == before[k]);
                    }
                }
            }
            j += 1;
        }
        assert(score_entries(scores@) =~= cs_entries(m, bl));
        let ghost entries = score_entries(scores@);
        let ranking = ranking_from_scores(scores, true);
        let ghost levels = choose|levels: Seq<int>| ranked_by(ranking@, entries, levels, true);
        let mut copy: Scores = Vec::new();
        let mut i: usize = 0;
        while i < ballot.len()
            invariant
                i <= ballot.len(),
                score_list(copy@) == score_list(ballot@).take(i as int),
            decreases ballot.len() - i,
        {
            copy.push((ballot[i].0.copy(), ballot[i].1));
            assert(score_list(copy@) =~= score_list(ballot@).take(i + 1));
            i += 1;
        }
        assert(score_list(ballot@).take(i as int) =~= score_list(ballot@));
        let b = Cs { ballot: copy, ranking };
        assert(ranked_by(b.induced(), cs_entries(m, bl), levels, true));
        b
    }

    /// The statements that say that scores of the coalitions order the
    /// partitions exactly as `ranking` does: one for every two
    /// partitions. The scores are real variables, one for each
    /// coalition, named by the text of the coalition. The ranking is one
    /// that a ballot of this format can express if the statements can
    /// hold together.
    pub fn possible_ranking(m: usize, ranking: &Ranking) -> (r: Vec<Formula>)
        requires
            m >= 1,
            forall|j: int|
                0 <= j < partition_seq(m).len() ==> ranks(ranking@, #[trigger] partition_seq(m)[j]),
        ensures
            forall|v: Valuation| #[trigger]
                hold_all(r@, v) <==> agrees(ranking@, partition_seq(m), cs_names(m), v),
    {
        let partitions = Partition::all(m);
        let coalitions = Coalition::all(m);
        let ghost ps = models(partitions@);
        let ghost cs = models(coalitions@);
        let mut names: Vec<Vec<String>> = Vec::new();
        let mut j: usize = 0;
        while j < partitions.len()
            invariant
                j <= partitions.len(),
                ps == models(partitions@),
                ps == partition_seq(m),
                cs == models(coalitions@),
                cs == coalition_seq(m),
                names@.len() == j,
                forall|k: int|
                    0 <= k < j ==> texts((#[trigger] names@[k])@) == held_texts(cs, ps[k], cs.len()),
            decreases partitions.len() - j,
        {
            let partition = &partitions[j];
            assert(partition@ == ps[j as int]);
            let mut vars: Vec<String> = Vec::new();
            let mut k: usize = 0;
            while k < coalitions.len()
                invariant
                    k <= coalitions.len(),
                    j < partitions.len(),
                    partition == &partitions[j as int],
                    partition@ == ps[j as int],
                    cs == models(coalitions@),
                    texts(vars@) == held_texts(cs, partition@, k as nat),
                decreases coalitions.len() - k,
            {
                assert(coalitions@[k as int]@ == cs[k as int]);
                let ghost before = texts(vars@);
                if partition.contains(&coalitions[k]) {
                    vars.push(coalitions[k].to_string());
                    assert(texts(vars@) =~= before.push(coalition_text(cs[k as int])));
                }
                k += 1;
            }
            names.push(vars);
            j += 1;
        }
        assert(name_table(names@) =~= cs_names(m));
        assert forall|j: int| 0 <= j < partitions@.len() implies ranks(
            ranking@,
            (#[trigger] partitions@[j])@,
        ) by {
            assert(partitions@[j]@ == partition_seq(m)[j]);
        }
        order_constraints(ranking, &partitions, &names)
    }
}

impl Ballot for Cs {
    open spec fn induced(&self) -> Tiers {
        self.ranking@
    }

    open spec fn kind() -> BallotKind {
        BallotKind::Cs
    }

    fn get_name() -> String {
        String::from_str(crate::ballots::names::short_name(BallotKind::Cs))
    }

    fn get_full_name() -> String {
        String::from_str(crate::ballots::names::full_name(BallotKind::Cs))
    }

    fn get_ranking(&self) -> (r: Ranking) {
        self.ranking.copy()
    }
}

} // verus!
