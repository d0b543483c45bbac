//! Favorite coalition, weak: the voter names a coalition and prefers
//! the partitions in which its members are together.
use vstd::prelude::*;
use crate::ballots::names::BallotKind;
use vstd::string::*;
use crate::ballots::ballot_trait::Ballot;
use crate::ballots::utils::{rank_marked, two_classes};
use crate::order::{models, Keyed};
use crate::sorted::{insert, sorted};
use crate::structures::coalition::{Coalition, Group};
use crate::structures::partition::{holds_together, partition_seq, Blocks, Partition};
use crate::structures::ranking::{Ranking, Tiers};
use crate::structures::Structure;

verus! {

/// A ballot that names a favorite coalition: the partitions in which
/// the coalition stays together come first, all others second.
pub struct Fcw {
    pub coalition: Coalition,
    pub ranking: Ranking,
}

/// For each partition of `m` candidates, whether one of its coalitions holds every member of
/// `c`.
pub open spec fn holding(m: usize, c: Group) -> Seq<bool> {
    Seq::new(partition_seq(m).len(), |j: int| holds_together(partition_seq(m)[j], c))
}

/// The ranking of the voter whose favorite coalition is `c`: the
/// partitions that keep the members of `c` together, then the others.
pub open spec fn fcw_ranking(m: usize, c: Group) -> Tiers {
    two_classes(partition_seq(m), holding(m, c))
}

impl Fcw {
    /// The ballot of the voter whose favorite coalition is `coalition`.
    pub fn new(coalition: &Coalition, m: usize) -> (b: Fcw)
        requires
            m >= 1,
        ensures
            b.induced() == fcw_ranking(m, coalition@),
            b.coalition@ == coalition@,
    {
        let partition = Partition::all(m);
        let mut marks: Vec<bool> = Vec::new();
        let mut j: usize = 0;
        while j < partition.len()
            invariant
                j <= partition.len(),
                marks@.len() == j,
                models(partition@) == partition_seq(m),
                forall|l: int|
                    0 <= l < j ==> #[trigger] marks@[l] == holds_together(partition_seq(m)[l], coalition@),
            decreases partition.len() - j,
        {
            assert(partition@[j as int]@ == partition_seq(m)[j as int]);
            marks.push(partition[j].contains_weak(coalition));
            j += 1;
        }
        assert(marks@ =~= holding(m, coalition@));
        let ranking = rank_marked(&partition, &marks);
        Fcw { coalition: coalition.copy(), ranking }
    }

    /// The rankings of all voters with a favorite coalition.
    pub fn generate_all_rankings(m: usize) -> (r: Vec<Ranking>)
        requires
            m >= 1,
        ensures
            sorted(r@),
            forall|x: Tiers|
                models(r@).contains(x) <==> exists|c: Group|
                    Coalition::universe(m).contains(c) && x == #[trigger] fcw_ranking(m, c),
    {
        let coalition = Coalition::all(m);
        let mut r: Vec<Ranking> = Vec::new();
        let mut i: usize = 0;
        while i < coalition.len()
            invariant
                i <= coalition.len(),
                sorted(r@),
                forall|x: Tiers|
                    models(r@).contains(x) <==> exists|k: int|
                        0 <= k < i && x == fcw_ranking(m, #[trigger] models(coalition@)[k]),
            decreases coalition.len() - i,
        {
            let ghost prev = models(r@);
            let ballot = Fcw::new(&coalition[i], m);
            assert(coalition@[i as int]@ == models(coalition@)[i as int]);
            insert(&mut r, ballot.ranking);
            proof {
                assert forall|x: Tiers|
                    models(r@).contains(x) <==> exists|k: int|
                        0 <= k < i + 1 && x == fcw_ranking(m, #[trigger] models(coalition@)[k]) by {
                    if models(r@).contains(x) {
                        if prev.contains(x) {
                            let k = choose|k: int|
                                0 <= k < i && x == fcw_ranking(m, #[trigger] models(coalition@)[k]);
                            assert(0 <= k < i + 1);
                        } else {
                            assert(x == fcw_ranking(m, models(coalition@)[i as int]));
                        }
                    }
                    if exists|k: int|
                        0 <= k < i + 1 && x == fcw_ranking(m, #[trigger] models(coalition@)[k]) {
                        let k = choose|k: int|
                            0 <= k < i + 1 && x == fcw_ranking(
                                m,
                                #[trigger] models(coalition@)[k],
                            );
                        if k < i {
                            assert(prev.contains(x));
                        }
                    }
                }
            }
            i += 1;
        }
        proof {
            assert forall|x: Tiers|
                models(r@).contains(x) <==> exists|c: Group|
                    Coalition::universe(m).contains(c) && x == #[trigger] fcw_ranking(m, c) by {
                if models(r@).contains(x) {
                    let k = choose|k: int|
                        0 <= k < i && x == fcw_ranking(m, #[trigger] models(coalition@)[k]);
                    let c = models(coalition@)[k];
                    assert(models(coalition@).contains(c));
                    assert(Coalition::universe(m).contains(c) && x == fcw_ranking(m, c));
                }
                if exists|c: Group|
                    Coalition::universe(m).contains(c) && x == #[trigger] fcw_ranking(m, c) {
                    let c = choose|c: Group|
                        Coalition::universe(m).contains(c) && x == #[trigger] fcw_ranking(m, c);
                    assert(models(coalition@).contains(c));
                    let k = choose|k: int|
                        0 <= k < models(coalition@).len() && models(coalition@)[k] == c;
                    assert(0 <= k < i && x == fcw_ranking(m, models(coalition@)[k]));
                }
            }
        }
        r
    }
}

impl Ballot for Fcw {
    open spec fn induced(&self) -> Tiers {
        self.ranking@
    }

    open spec fn kind() -> BallotKind {
        BallotKind::Fcw
    }

    fn get_name() -> String {
        String::from_str(crate::ballots::names::short_name(BallotKind::Fcw))
    }

    fn get_full_name() -> String {
        String::from_str(crate::ballots::names::full_name(BallotKind::Fcw))
    }

    fn get_ranking(&self) -> (r: Ranking) {
        self.ranking.copy()
    }
}

} // verus!
