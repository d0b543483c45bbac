//! Favorite coalition, strict: the voter names a coalition and prefers
//! the partitions that have it.
use vstd::prelude::*;
use crate::ballots::names::BallotKind;
use vstd::string::*;
use crate::ballots::ballot_trait::Ballot;
use crate::ballots::utils::{rank_marked, two_classes};
use crate::order::{models, Keyed};
use crate::sorted::{insert, sorted};
use crate::structures::coalition::{Coalition, Group};
use crate::structures::partition::{partition_seq, Blocks, Partition};
use crate::structures::ranking::{Ranking, Tiers};
use crate::structures::Structure;

verus! {

/// A ballot that names a favorite coalition: the partitions that hold
/// exactly this coalition come first, all others second.
pub struct Fcs {
    pub coalition: Coalition,
    pub ranking: Ranking,
}

/// For each partition of `m` candidates, whether it has the coalition
/// `c`.
pub open spec fn having(m: usize, c: Group) -> Seq<bool> {
    Seq::new(partition_seq(m).len(), |j: int| partition_seq(m)[j].contains(c))
}

/// The ranking of the voter whose favorite coalition is `c`: the
/// partitions that have `c`, then the others.
pub open spec fn fcs_ranking(m: usize, c: Group) -> Tiers {
    two_classes(partition_seq(m), having(m, c))
}

impl Fcs {
    /// The ballot of the voter whose favorite coalition is `coalition`.
    pub fn new(coalition: &Coalition, m: usize) -> (b: Fcs)
        requires
            m >= 1,
        ensures
            b.induced() == fcs_ranking(m, coalition@),
            b.coalition@ == coalition@,
    {
        let partition = Partition::all(m);
        let mut marks: Vec<bool> = Vec::new();
        let mut j: usize = 0;
        while j < partition.len()
            invariant
                j <= partition.len(),
                marks@.len() == j,
                models(partition@) == partition_seq(m),
                forall|l: int|
                    0 <= l < j ==> #[trigger] marks@[l] == partition_seq(m)[l].contains(coalition@),
            decreases partition.len() - j,
        {
            assert(partition@[j as int]@ == partition_seq(m)[j as int]);
            marks.push(partition[j].contains(coalition));
            j += 1;
        }
        assert(marks@ =~= having(m, coalition@));
        let ranking = rank_marked(&partition, &marks);
        Fcs { coalition: coalition.copy(), ranking }
    }

    /// The rankings of all voters with a favorite coalition.
    pub fn generate_all_rankings(m: usize) -> (r: Vec<Ranking>)
        requires
            m >= 1,
        ensures
            sorted(r@),
            forall|x: Tiers|
                models(r@).contains(x) <==> exists|c: Group|
                    Coalition::universe(m).contains(c) && x == #[trigger] fcs_ranking(m, c),
    {
        let coalition = Coalition::all(m);
        let mut r: Vec<Ranking> = Vec::new();
        let mut i: usize = 0;
        while i < coalition.len()
            invariant
                i <= coalition.len(),
                sorted(r@),
                forall|x: Tiers|
                    models(r@).contains(x) <==> exists|k: int|
                        0 <= k < i && x == fcs_ranking(m, #[trigger] models(coalition@)[k]),
            decreases coalition.len() - i,
        {
            let ghost prev = models(r@);
            let ballot = Fcs::new(&coalition[i], m);
            assert(coalition@[i as int]@ == models(coalition@)[i as int]);
            insert(&mut r, ballot.ranking);
            proof {
                assert forall|x: Tiers|
                    models(r@).contains(x) <==> exists|k: int|
                        0 <= k < i + 1 && x == fcs_ranking(m, #[trigger] models(coalition@)[k]) by {
                    if models(r@).contains(x) {
                        if prev.contains(x) {
                            let k = choose|k: int|
                                0 <= k < i && x == fcs_ranking(m, #[trigger] models(coalition@)[k]);
                            assert(0 <= k < i + 1);
                        } else {
                            assert(x == fcs_ranking(m, models(coalition@)[i as int]));
                        }
                    }
                    if exists|k: int|
                        0 <= k < i + 1 && x == fcs_ranking(m, #[trigger] models(coalition@)[k]) {
                        let k = choose|k: int|
                            0 <= k < i + 1 && x == fcs_ranking(
                                m,
                                #[trigger] models(coalition@)[k],
                            );
                        if k < i {
                            assert(prev.contains(x));
                        }
                    }
                }
            }
            i += 1;
        }
        proof {
            assert forall|x: Tiers|
                models(r@).contains(x) <==> exists|c: Group|
                    Coalition::universe(m).contains(c) && x == #[trigger] fcs_ranking(m, c) by {
                if models(r@).contains(x) {
                    let k = choose|k: int|
                        0 <= k < i && x == fcs_ranking(m, #[trigger] models(coalition@)[k]);
                    let c = models(coalition@)[k];
                    assert(models(coalition@).contains(c));
                    assert(Coalition::universe(m).contains(c) && x == fcs_ranking(m, c));
                }
                if exists|c: Group|
                    Coalition::universe(m).contains(c) && x == #[trigger] fcs_ranking(m, c) {
                    let c = choose|c: Group|
                        Coalition::universe(m).contains(c) && x == #[trigger] fcs_ranking(m, c);
                    assert(models(coalition@).contains(c));
                    let k = choose|k: int|
                        0 <= k < models(coalition@).len() && models(coalition@)[k] == c;
                    assert(0 <= k < i && x == fcs_ranking(m, models(coalition@)[k]));
                }
            }
        }
        r
    }
}

impl Ballot for Fcs {
    open spec fn induced(&self) -> Tiers {
        self.ranking@
    }

    open spec fn kind() -> BallotKind {
        BallotKind::Fcs
    }

    fn get_name() -> String {
        String::from_str(crate::ballots::names::short_name(BallotKind::Fcs))
    }

    fn get_full_name() -> String {
        String::from_str(crate::ballots::names::full_name(BallotKind::Fcs))
    }

    fn get_ranking(&self) -> (r: Ranking) {
        self.ranking.copy()
    }
}

} // verus!
