//! Favorite partition: the voter names a partition and prefers the
//! partitions that are fewer moves away from it.
use vstd::prelude::*;
use crate::ballots::names::BallotKind;
use vstd::string::*;
use crate::ballots::ballot_trait::Ballot;
use crate::ballots::utils::{ranked_by, ranking_from_scores, score_entries};
use crate::order::{increasing, models, strict_total, Keyed};
use crate::sorted::{insert, position, sorted};
use crate::structures::partition::{partition_seq, reachable_in_one, Blocks, Partition};
use crate::structures::ranking::{Ranking, Tiers};
use crate::structures::Structure;

verus! {

/// A ballot that names a favorite partition: the partitions are ranked
/// by the number of moves that lead to them from the favorite.
pub struct Fp {
    pub favorite: Partition,
    pub ranking: Ranking,
}

/// The number of partitions that have no distance yet.
pub open spec fn pending(dist: Seq<Option<usize>>) -> nat
    decreases dist.len(),
{
    if dist.len() == 0 {
        0
    } else {
        pending(dist.drop_last()) + if dist.last() is None {
            1nat
        } else {
            0nat
        }
    }
}

/// Every neighbor of the partition with index `i` has a distance, and
/// one that is at most one more than that of the partition.
pub open spec fn closed_at(ps: Seq<Blocks>, dist: Seq<Option<usize>>, i: int) -> bool {
    forall|j: int|
        0 <= j < ps.len() && reachable_in_one(ps[i], #[trigger] ps[j]) ==> dist[j] is Some
            && dist[j].unwrap() <= dist[i].unwrap() + 1
}

/// Some neighbor of the partition with index `j` is one step nearer.
pub open spec fn has_pred(ps: Seq<Blocks>, dist: Seq<Option<usize>>, j: int) -> bool {
    exists|i: int|
        0 <= i < ps.len() && #[trigger] dist[i] == Some((dist[j].unwrap() - 1) as usize)
            && reachable_in_one(ps[i], ps[j])
}

/// `dist` gives each partition of `ps` that can be reached from the one
/// with index `s` the least number of moves that leads to it: the start
/// alone has the distance 0, every other distance is one more than that
/// of a neighbor, and neighbors differ in distance by at most one.
pub open spec fn distances(ps: Seq<Blocks>, dist: Seq<Option<usize>>, s: int) -> bool {
    &&& dist.len() == ps.len()
    &&& 0 <= s < ps.len()
    &&& forall|j: int| 0 <= j < ps.len() ==> (#[trigger] dist[j] == Some(0usize) <==> j == s)
    &&& forall|j: int|
        0 <= j < ps.len() && (#[trigger] dist[j]) is Some && dist[j].unwrap() > 0 ==> has_pred(
            ps,
            dist,
            j,
        )
    &&& forall|i: int| 0 <= i < ps.len() && (#[trigger] dist[i]) is Some ==> closed_at(ps, dist, i)
}

/// The partitions that have a distance, each with its distance.
pub open spec fn reached(ps: Seq<Blocks>, dist: Seq<Option<usize>>) -> Seq<(Blocks, int)>
    decreases ps.len(),
{
    if ps.len() == 0 || dist.len() != ps.len() {
        Seq::empty()
    } else if dist.last() is Some {
        reached(ps.drop_last(), dist.drop_last()).push((ps.last(), dist.last().unwrap() as int))
    } else {
        reached(ps.drop_last(), dist.drop_last())
    }
}

proof fn lemma_pending_set(dist: Seq<Option<usize>>, j: int, v: usize)
    requires
        0 <= j < dist.len(),
        dist[j] is None,
    ensures
        pending(dist.update(j, Some(v))) + 1 == pending(dist),
    decreases dist.len(),
{
    let d2 = dist.update(j, Some(v));
    if j == dist.len() - 1 {
        assert(d2.drop_last() =~= dist.drop_last());
    } else {
        assert(d2.drop_last() =~= dist.drop_last().update(j, Some(v)));
        lemma_pending_set(dist.drop_last(), j, v);
    }
}

/// In an increasing sequence each element stands at one index only.
proof fn lemma_index_unique(ps: Seq<Blocks>, a: int, b: int)
    requires
        increasing(Partition::less(), ps),
        0 <= a < ps.len(),
        0 <= b < ps.len(),
        ps[a] == ps[b],
    ensures
        a == b,
{
    Partition::lemma_order();
    if a < b {
        assert((Partition::less())(ps[a], ps[b]));
    }
    if b < a {
        assert((Partition::less())(ps[b], ps[a]));
    }
}

/// Gives the distance `d + 1` to the neighbors of the partition with
/// index `i` that have none.
fn visit(all: &Vec<Partition>, dist: &mut Vec<Option<usize>>, i: usize, d: usize) -> (any: bool)
    requires
        sorted(all@),
        old(dist)@.len() == all@.len(),
        i < all@.len(),
        old(dist)@[i as int] == Some(d),
        d < usize::MAX,
    ensures
        final(dist)@.len() == all@.len(),
        forall|j: int|
            0 <= j < all@.len() && (#[trigger] old(dist)@[j]) is Some ==> final(dist)@[j] == old(
                dist,
            )@[j],
        forall|j: int|
            0 <= j < all@.len() && (#[trigger] final(dist)@[j]) != old(dist)@[j] ==> final(dist)@[j]
                == Some((d + 1) as usize) && reachable_in_one(models(all@)[i as int], models(all@)[j]),
        forall|j: int|
            0 <= j < all@.len() && reachable_in_one(
                models(all@)[i as int],
                #[trigger] models(all@)[j],
            ) ==> final(dist)@[j] is Some,
        pending(final(dist)@) <= pending(old(dist)@),
        any ==> pending(final(dist)@) < pending(old(dist)@),
        !any ==> final(dist)@ == old(dist)@,
{
    let ghost ps = models(all@);
    let neighbors = all[i].distance_one();
    let ghost ns = models(neighbors@);
    assert(all@[i as int]@ == ps[i as int]);
    let mut any = false;
    let mut k: usize = 0;
    while k < neighbors.len()
        invariant
            k <= neighbors.len(),
            ps == models(all@),
            ns == models(neighbors@),
            sorted(all@),
            dist@.len() == all@.len(),
            forall|q: Blocks|
                ns.contains(q) <==> reachable_in_one(ps[i as int], q) && q != ps[i as int],
            forall|j: int|
                0 <= j < all@.len() && (#[trigger] old(dist)@[j]) is Some ==> dist@[j] == old(
                    dist,
                )@[j],
            forall|j: int|
                0 <= j < all@.len() && (#[trigger] dist@[j]) != old(dist)@[j] ==> dist@[j] == Some(
                    (d + 1) as usize,
                ) && reachable_in_one(ps[i as int], ps[j]),
            forall|l: int, j: int|
                0 <= l < k && 0 <= j < all@.len() && #[trigger] ns[l] == #[trigger] ps[j]
                    ==> dist@[j] is Some,
            pending(dist@) <= pending(old(dist)@),
            any ==> pending(dist@) < pending(old(dist)@),
            !any ==> dist@ == old(dist)@,
        decreases neighbors.len() - k,
    {
        let ghost before = dist@;
        match position(all, &neighbors[k]) {
            Some(j) => {
                assert(ps[j as int] == ns[k as int]);
                assert(ns.contains(ns[k as int]));
                if dist[j].is_none() {
                    proof {
                        lemma_pending_set(dist@, j as int, (d + 1) as usize);
                    }
                    dist.set(j, Some(d + 1));
                    any = true;
                }
                proof {
                    assert forall|l: int, t: int|
                        0 <= l < k + 1 && 0 <= t < all@.len() && #[trigger] ns[l]
                            == #[trigger] ps[t] implies dist@[t] is Some by {
                        if l == k {
                            lemma_index_unique(ps, t, j as int);
                        } else {
                            assert(before[t] is Some);
                        }
                    }
                }
            },
            None => {
                proof {
                    assert forall|l: int, t: int|
                        0 <= l < k + 1 && 0 <= t < all@.len() && #[trigger] ns[l]
                            == #[trigger] ps[t] implies dist@[t] is Some by {
                        if l == k {
                            assert(ps.contains(ps[t]));
                        }
                    }
                }
            },
        }
        k += 1;
    }
    proof {
        assert forall|j: int|
            0 <= j < all@.len() && reachable_in_one(
                ps[i as int],
                #[trigger] ps[j],
            ) implies dist@[j] is Some by {
            if ps[j] == ps[i as int] {
                // the partition itself has its distance already
                lemma_index_unique(ps, j, i as int);
                assert(old(dist)@[i as int] is Some);
            } else {
                assert(ns.contains(ps[j]));
                let l = choose|l: int| 0 <= l < ns.len() && ns[l] == ps[j];
                assert(ns[l] == ps[j]);
            }
        }
    }
    any
}

/// Every neighbor of the partition with index `i` has a distance.
pub open spec fn neighbors_reached(ps: Seq<Blocks>, dist: Seq<Option<usize>>, i: int) -> bool {
    forall|j: int|
        0 <= j < ps.len() && reachable_in_one(ps[i], #[trigger] ps[j]) ==> dist[j] is Some
}

/// Some partition with the distance `d` has the partition with index `j`
/// as a neighbor.
pub open spec fn reached_from(ps: Seq<Blocks>, dist: Seq<Option<usize>>, d: usize, j: int) -> bool {
    exists|i: int| 0 <= i < ps.len() && #[trigger] dist[i] == Some(d) && reachable_in_one(ps[i], ps[j])
}

/// One round of the search: gives the distance `d + 1` to the neighbors
/// without a distance of every partition with the distance `d`.
fn round(all: &Vec<Partition>, dist: &mut Vec<Option<usize>>, d: usize) -> (any: bool)
    requires
        sorted(all@),
        old(dist)@.len() == all@.len(),
        d < usize::MAX,
    ensures
        final(dist)@.len() == all@.len(),
        forall|j: int|
            0 <= j < all@.len() && (#[trigger] old(dist)@[j]) is Some ==> final(dist)@[j] == old(
                dist,
            )@[j],
        forall|j: int|
            0 <= j < all@.len() && (#[trigger] final(dist)@[j]) != old(dist)@[j] ==> final(dist)@[j]
                == Some((d + 1) as usize) && reached_from(models(all@), old(dist)@, d, j),
        forall|i: int|
            0 <= i < all@.len() && #[trigger] old(dist)@[i] == Some(d) ==> neighbors_reached(
                models(all@),
                final(dist)@,
                i,
            ),
        pending(final(dist)@) <= pending(old(dist)@),
        any ==> pending(final(dist)@) < pending(old(dist)@),
        !any ==> final(dist)@ == old(dist)@,
{
    let ghost ps = models(all@);
    let ghost start = dist@;
    let mut any = false;
    let mut i: usize = 0;
    while i < all.len()
        invariant
            i <= all.len(),
            ps == models(all@),
            start == old(dist)@,
            sorted(all@),
            d < usize::MAX,
            dist@.len() == all@.len(),
            forall|j: int|
                0 <= j < all@.len() && (#[trigger] start[j]) is Some ==> dist@[j] == start[j],
            forall|j: int|
                0 <= j < all@.len() && (#[trigger] dist@[j]) != start[j] ==> dist@[j] == Some(
                    (d + 1) as usize,
                ) && reached_from(ps, start, d, j),
            forall|l: int|
                0 <= l < i && #[trigger] start[l] == Some(d) ==> neighbors_reached(ps, dist@, l),
            pending(dist@) <= pending(start),
            any ==> pending(dist@) < pending(start),
            !any ==> dist@ == start,
        decreases all.len() - i,
    {
        let here = match dist[i] {
            Some(k) => k == d,
            None => false,
        };
        if here {
            let ghost before = dist@;
            assert(start[i as int] is Some) by {
                if start[i as int] is None {
                    assert(dist@[i as int] != start[i as int]);
                }
            }
            let changed = visit(all, dist, i, d);
            any = any || changed;
            proof {
                assert forall|j: int|
                    0 <= j < all@.len() && (#[trigger] dist@[j]) != start[j] implies dist@[j]
                    == Some((d + 1) as usize) && reached_from(ps, start, d, j) by {
                    if before[j] == start[j] {
                        assert(dist@[j] != before[j]);
                        assert(start[i as int] == Some(d));
                        assert(reachable_in_one(ps[i as int], ps[j]));
                    }
                }
                assert forall|l: int|
                    0 <= l < i + 1 && #[trigger] start[l] == Some(d) implies neighbors_reached(
                    ps,
                    dist@,
                    l,
                ) by {
                    if l < i {
                        assert(neighbors_reached(ps, before, l));
                        assert forall|j: int|
                            0 <= j < ps.len() && reachable_in_one(
                                ps[l],
                                #[trigger] ps[j],
                            ) implies dist@[j] is Some by {
                            assert(before[j] is Some);
                        }
                    }
                }
                assert forall|j: int|
                    0 <= j < all@.len() && (#[trigger] start[j]) is Some implies dist@[j]
                    == start[j] by {
                    assert(before[j] == start[j]);
                    assert(before[j] is Some);
                }
            }
        } else {
            proof {
                assert(start[i as int] != Some(d)) by {
                    if start[i as int] == Some(d) {
                        assert(start[i as int] is Some);
                        assert(dist@[i as int] == start[i as int]);
                    }
                }
            }
        }
        i += 1;
    }
    any
}

/// The least number of moves from the partition `start` to each
/// partition of `all` that can be reached from it.
pub fn bfs(start: &Partition, all: &Vec<Partition>) -> (r: (Vec<Option<usize>>, usize))
    requires
        sorted(all@),
        models(all@).contains(start@),
    ensures
        distances(models(all@), r.0@, r.1 as int),
        models(all@)[r.1 as int] == start@,
{
    let ghost ps = models(all@);
    let s = match position(all, start) {
        Some(s) => s,
        None => {
            assert(false);
            0
        },
    };
    assert(ps[s as int] == start@);
    let mut dist: Vec<Option<usize>> = Vec::new();
    let mut i: usize = 0;
    while i < all.len()
        invariant
            i <= all.len(),
            dist@.len() == i,
            forall|j: int| 0 <= j < i ==> (#[trigger] dist@[j]) is None,
            pending(dist@) == i,
        decreases all.len() - i,
    {
        let ghost before = dist@;
        dist.push(None);
        assert(dist@.drop_last() =~= before);
        i += 1;
    }
    proof {
        lemma_pending_set(dist@, s as int, 0);
    }
    dist.set(s, Some(0));
    let mut d: usize = 0;
    let mut active = true;
    while active
        invariant
            ps == models(all@),
            sorted(all@),
            dist@.len() == all@.len(),
            s < all@.len(),
            d + pending(dist@) + 1 <= all@.len(),
            forall|j: int| 0 <= j < ps.len() ==> (#[trigger] dist@[j] == Some(0usize) <==> j == s),
            forall|j: int|
                0 <= j < ps.len() && (#[trigger] dist@[j]) is Some && dist@[j].unwrap() > 0
                    ==> has_pred(ps, dist@, j),
            forall|j: int|
                0 <= j < ps.len() && (#[trigger] dist@[j]) is Some ==> dist@[j].unwrap() <= d,
            forall|i: int|
                0 <= i < ps.len() && (#[trigger] dist@[i]) is Some && (active ==> dist@[i].unwrap()
                    < d) ==> closed_at(ps, dist@, i),
        decreases pending(dist@), if active { 1int } else { 0int },
    {
        let ghost before = dist@;
        let any = round(all, &mut dist, d);
        proof {
            assert forall|j: int| 0 <= j < ps.len() implies (#[trigger] dist@[j] == Some(0usize)
                <==> j == s) by {
                if dist@[j] != before[j] {
                    assert(dist@[j] == Some((d + 1) as usize));
                }
            }
            assert forall|j: int|
                0 <= j < ps.len() && (#[trigger] dist@[j]) is Some && dist@[j].unwrap()
                    > 0 implies has_pred(ps, dist@, j) by {
                if dist@[j] != before[j] {
                    assert(reached_from(ps, before, d, j));
                    let i = choose|i: int|
                        0 <= i < ps.len() && #[trigger] before[i] == Some(d) && reachable_in_one(
                            ps[i],
                            ps[j],
                        );
                    assert(before[i] is Some);
                    assert(dist@[i] == Some(d));
                } else {
                    assert(has_pred(ps, before, j));
                    let i = choose|i: int|
                        0 <= i < ps.len() && #[trigger] before[i] == Some(
                            (before[j].unwrap() - 1) as usize,
                        ) && reachable_in_one(ps[i], ps[j]);
                    assert(before[i] is Some);
                    assert(dist@[i] == before[i]);
                }
            }
            assert forall|j: int| 0 <= j < ps.len() && (#[trigger] dist@[j]) is Some implies dist@[j].unwrap()
                <= d + 1 by {
                if dist@[j] == before[j] {
                    assert(before[j] is Some);
                }
            }
            assert forall|i: int|
                0 <= i < ps.len() && (#[trigger] dist@[i]) is Some && dist@[i].unwrap()
                    <= d && (any || dist@ == before) implies closed_at(ps, dist@, i) by {
                // the partition had its distance before the round
                if dist@[i] != before[i] {
                    assert(dist@[i] == Some((d + 1) as usize));
                }
                assert(before[i] is Some);
                if before[i].unwrap() < d {
                    assert(closed_at(ps, before, i));
                    assert forall|j: int|
                        0 <= j < ps.len() && reachable_in_one(
                            ps[i],
                            #[trigger] ps[j],
                        ) implies dist@[j] is Some && dist@[j].unwrap() <= dist@[i].unwrap()
                        + 1 by {
                        assert(before[j] is Some);
                    }
                } else {
                    assert(before[i] == Some(d));
                    assert(neighbors_reached(ps, dist@, i));
                    assert forall|j: int|
                        0 <= j < ps.len() && reachable_in_one(
                            ps[i],
                            #[trigger] ps[j],
                        ) implies dist@[j] is Some && dist@[j].unwrap() <= dist@[i].unwrap()
                        + 1 by {
                        assert(dist@[j] is Some);
                        assert(dist@[j].unwrap() <= d + 1);
                    }
                }
            }
        }
        if any {
            d = d + 1;
        } else {
            active = false;
        }
    }
    (dist, s)
}

/// `r` is the ranking of the voter whose favorite partition is `fav`:
/// the partitions that can be reached from `fav` stand in classes of
/// equal distance, the nearest first.
pub open spec fn fp_ranking(m: usize, fav: Blocks, r: Tiers) -> bool {
    exists|dist: Seq<Option<usize>>, s: int, levels: Seq<int>|
        #![trigger distances(partition_seq(m), dist, s), ranked_by(r, reached(partition_seq(m), dist), levels, false)]
        distances(partition_seq(m), dist, s) && partition_seq(m)[s] == fav && ranked_by(
            r,
            reached(partition_seq(m), dist),
            levels,
            false,
        )
}

/// One of the rankings of `rs` is that of the voter whose favorite
/// partition is `fav`.
pub open spec fn voted_by(m: usize, fav: Blocks, rs: Seq<Tiers>) -> bool {
    exists|k: int| 0 <= k < rs.len() && fp_ranking(m, fav, #[trigger] rs[k])
}

/// `x` is the ranking of a voter with some favorite partition.
pub open spec fn votable(m: usize, x: Tiers) -> bool {
    exists|j: int| 0 <= j < partition_seq(m).len() && fp_ranking(m, #[trigger] partition_seq(m)[j], x)
}

impl Fp {
    /// The ballot of the voter whose favorite partition is `favorite`.
    pub fn new(favorite: Partition, m: usize) -> (b: Fp)
        requires
            m >= 1,
            Partition::universe(m).contains(favorite@),
        ensures
            fp_ranking(m, favorite@, b.induced()),
            b.favorite == favorite,
    {
        let all = Partition::all(m);
        let ghost ps = models(all@);
        let (dist, s) = bfs(&favorite, &all);
        let mut scores: Vec<(Partition, i128)> = Vec::new();
        let mut i: usize = 0;
        while i < all.len()
            invariant
                i <= all.len(),
                ps == models(all@),
                dist@.len() == all@.len(),
                score_entries(scores@) == reached(ps.take(i as int), dist@.take(i as int)),
            decreases all.len() - i,
        {
            proof {
                assert(ps.take(i + 1).drop_last() =~= ps.take(i as int));
                assert(dist@.take(i + 1).drop_last() =~= dist@.take(i as int));
                assert(ps.take(i + 1).last() == ps[i as int]);
                assert(dist@.take(i + 1).last() == dist@[i as int]);
            }
            let ghost before = score_entries(scores@);
            match dist[i] {
                Some(k) => {
                    scores.push((all[i].copy(), k as i128));
                    assert(score_entries(scores@) =~= before.push((ps[i as int], k as int)));
                },
                None => {},
            }
            i += 1;
        }
        proof {
            assert(ps.take(i as int) =~= ps);
            assert(dist@.take(i as int) =~= dist@);
        }
        let ghost entries = score_entries(scores@);
        let ranking = ranking_from_scores(scores, false);
        proof {
            let levels = choose|levels: Seq<int>| ranked_by(ranking@, entries, levels, false);
            assert(ranked_by(ranking@, reached(partition_seq(m), dist@), levels, false));
            assert(distances(partition_seq(m), dist@, s as int));
        }
        Fp { favorite, ranking }
    }

    /// The rankings of all voters with a favorite partition: for each
    /// partition the ranking of the voter who names it.
    pub fn generate_all_rankings(m: usize) -> (r: Vec<Ranking>)
        requires
            m >= 1,
        ensures
            sorted(r@),
            forall|x: Tiers| models(r@).contains(x) ==> votable(m, x),
            forall|j: int|
                0 <= j < partition_seq(m).len() ==> voted_by(
                    m,
                    #[trigger] partition_seq(m)[j],
                    models(r@),
                ),
    {
        let partitions = Partition::all(m);
        let ghost ps = models(partitions@);
        let mut r: Vec<Ranking> = Vec::new();
        let mut i: usize = 0;
        while i < partitions.len()
            invariant
                i <= partitions.len(),
                ps == models(partitions@),
                ps == partition_seq(m),
                forall|x: Blocks| ps.contains(x) <==> Partition::universe(m).contains(x),
                sorted(r@),
                forall|x: Tiers| models(r@).contains(x) ==> votable(m, x),
                forall|j: int| 0 <= j < i ==> voted_by(m, #[trigger] ps[j], models(r@)),
            decreases partitions.len() - i,
        {
            let ghost prev = models(r@);
            assert(ps.contains(ps[i as int]));
            assert(partitions@[i as int]@ == ps[i as int]);
            let ballot = Fp::new(partitions[i].copy(), m);
            let ghost bm = ballot.ranking.model();
            assert(fp_ranking(m, ps[i as int], bm));
            insert(&mut r, ballot.ranking);
            proof {
                assert forall|x: Tiers| models(r@).contains(x) implies votable(m, x) by {
                    if !prev.contains(x) {
                        assert(x == bm);
                        assert(fp_ranking(m, ps[i as int], x));
                    }
                }
                assert(models(r@).contains(bm));
                assert forall|j: int| 0 <= j < i + 1 implies voted_by(
                    m,
                    #[trigger] ps[j],
                    models(r@),
                ) by {
                    if j < i {
                        assert(voted_by(m, ps[j], prev));
                        let k0 = choose|k: int|
                            0 <= k < prev.len() && fp_ranking(m, ps[j], #[trigger] prev[k]);
                        assert(prev.contains(prev[k0]));
                        assert(models(r@).contains(prev[k0]));
                        let k = choose|k: int|
                            0 <= k < models(r@).len() && models(r@)[k] == prev[k0];
                        assert(fp_ranking(m, ps[j], models(r@)[k]));
                    } else {
                        let k = choose|k: int| 0 <= k < models(r@).len() && models(r@)[k] == bm;
                        assert(fp_ranking(m, ps[j], models(r@)[k]));
                    }
                }
            }
            i += 1;
        }
        r
    }
}

impl Ballot for Fp {
    open spec fn induced(&self) -> Tiers {
        self.ranking@
    }

    open spec fn kind() -> BallotKind {
        BallotKind::Fp
    }

    fn get_name() -> String {
        String::from_str(crate::ballots::names::short_name(BallotKind::Fp))
    }

    fn get_full_name() -> String {
        String::from_str(crate::ballots::names::full_name(BallotKind::Fp))
    }

    fn get_ranking(&self) -> (r: Ranking) {
        self.ranking.copy()
    }
}

} // verus!
