//! Partition approval: the voter names the partitions that are
//! acceptable and prefers them to the others.
use vstd::prelude::*;
use crate::ballots::names::BallotKind;
use vstd::string::*;
use crate::ballots::ballot_trait::Ballot;
use crate::ballots::utils::{rank_marked, two_classes};
use crate::order::{models, Keyed};
use crate::sorted::{insert, member, sorted};
use crate::structures::partition::{partition_seq, Blocks, Partition};
use crate::structures::ranking::{Ranking, Tiers};
use crate::structures::Structure;
use crate::utils::structures::{powerset, subset_of};

verus! {

/// A ballot that approves of some partitions: they come first, all
/// others second.
pub struct Pa {
    pub approved: Vec<Partition>,
    pub ranking: Ranking,
}

/// For each partition of `m` candidates, whether it is one of `a`.
pub open spec fn approving(m: usize, a: Seq<Blocks>) -> Seq<bool> {
    Seq::new(partition_seq(m).len(), |j: int| a.contains(partition_seq(m)[j]))
}

/// The ranking of the voter who approves the partitions of `a`: the
/// partitions of `a`, then the others.
pub open spec fn pa_ranking(m: usize, a: Seq<Blocks>) -> Tiers {
    two_classes(partition_seq(m), approving(m, a))
}

impl Pa {
    /// The ballot of the voter who approves the partitions of `approved`.
    pub fn new(approved: Vec<Partition>, m: usize) -> (b: Pa)
        requires
            m >= 1,
        ensures
            b.induced() == pa_ranking(m, models(approved@)),
            b.approved == approved,
    {
        let partition = Partition::all(m);
        let mut marks: Vec<bool> = Vec::new();
        let mut j: usize = 0;
        while j < partition.len()
            invariant
                j <= partition.len(),
                marks@.len() == j,
                models(partition@) == partition_seq(m),
                forall|l: int|
                    0 <= l < j ==> #[trigger] marks@[l] == models(approved@).contains(
                        partition_seq(m)[l],
                    ),
            decreases partition.len() - j,
        {
            assert(partition@[j as int].model() == partition_seq(m)[j as int]);
            marks.push(member(&approved, &partition[j]));
            j += 1;
        }
        assert(marks@ =~= approving(m, models(approved@)));
        let ranking = rank_marked(&partition, &marks);
        Pa { approved, ranking }
    }

    /// The rankings of all voters who approve a set of partitions that
    /// is not empty.
    pub fn generate_all_rankings(m: usize) -> (r: Vec<Ranking>)
        requires
            m >= 1,
        ensures
            sorted(r@),
            forall|x: Tiers|
                models(r@).contains(x) <==> exists|a: Seq<Blocks>|
                    a.len() > 0 && subset_of(Partition::less(), a, partition_seq(m)) && x
                        == #[trigger] pa_ranking(m, a),
    {
        let partitions = Partition::all(m);
        let possible_approvals = powerset(&partitions);
        let ghost subsets = models(possible_approvals@);
        let mut r: Vec<Ranking> = Vec::new();
        let mut i: usize = 0;
        while i < possible_approvals.len()
            invariant
                i <= possible_approvals.len(),
                subsets == models(possible_approvals@),
                sorted(r@),
                forall|x: Tiers|
                    models(r@).contains(x) <==> exists|k: int|
                        0 <= k < i && subsets[k].len() > 0 && x == pa_ranking(
                            m,
                            #[trigger] subsets[k],
                        ),
            decreases possible_approvals.len() - i,
        {
            let ghost prev = models(r@);
            assert(possible_approvals@[i as int].model() == subsets[i as int]);
            if possible_approvals[i].len() > 0 {
                let ballot = Pa::new(possible_approvals[i].copy(), m);
                insert(&mut r, ballot.ranking);
            }
            proof {
                assert forall|x: Tiers|
                    models(r@).contains(x) <==> exists|k: int|
                        0 <= k < i + 1 && subsets[k].len() > 0 && x == pa_ranking(
                            m,
                            #[trigger] subsets[k],
                        ) by {
                    if models(r@).contains(x) {
                        if prev.contains(x) {
                            let k = choose|k: int|
                                0 <= k < i && subsets[k].len() > 0 && x == pa_ranking(
                                    m,
                                    #[trigger] subsets[k],
                                );
                            assert(0 <= k < i + 1);
                        } else {
                            assert(x == pa_ranking(m, subsets[i as int]));
                        }
                    }
                    if exists|k: int|
                        0 <= k < i + 1 && subsets[k].len() > 0 && x == pa_ranking(
                            m,
                            #[trigger] subsets[k],
                        ) {
                        let k = choose|k: int|
                            0 <= k < i + 1 && subsets[k].len() > 0 && x == pa_ranking(
                                m,
                                #[trigger] subsets[k],
                            );
                        if k < i {
                            assert(prev.contains(x));
                        }
                    }
                }
            }
            i += 1;
        }
        proof {
            assert forall|x: Tiers|
                models(r@).contains(x) <==> exists|a: Seq<Blocks>|
                    a.len() > 0 && subset_of(Partition::less(), a, partition_seq(m)) && x
                        == #[trigger] pa_ranking(m, a) by {
                if models(r@).contains(x) {
                    let k = choose|k: int|
                        0 <= k < i && subsets[k].len() > 0 && x == pa_ranking(
                            m,
                            #[trigger] subsets[k],
                        );
                    let a = subsets[k];
                    assert(subsets.contains(a));
                    assert(a.len() > 0 && subset_of(Partition::less(), a, partition_seq(m)) && x
                        == pa_ranking(m, a));
                }
                if exists|a: Seq<Blocks>|
                    a.len() > 0 && subset_of(Partition::less(), a, partition_seq(m)) && x
                        == #[trigger] pa_ranking(m, a) {
                    let a = choose|a: Seq<Blocks>|
                        a.len() > 0 && subset_of(Partition::less(), a, partition_seq(m)) && x
                            == #[trigger] pa_ranking(m, a);
                    assert(subsets.contains(a));
                    let k = choose|k: int| 0 <= k < subsets.len() && subsets[k] == a;
                    assert(0 <= k < i && subsets[k].len() > 0 && x == pa_ranking(m, subsets[k]));
                }
            }
        }
        r
    }
}

impl Ballot for Pa {
    open spec fn induced(&self) -> Tiers {
        self.ranking@
    }

    open spec fn kind() -> BallotKind {
        BallotKind::Pa
    }

    fn get_name() -> String {
        String::from_str(crate::ballots::names::short_name(BallotKind::Pa))
    }

    fn get_full_name() -> String {
        String::from_str(crate::ballots::names::full_name(BallotKind::Pa))
    }

    fn get_ranking(&self) -> (r: Ranking) {
        self.ranking.copy()
    }
}

} // verus!
