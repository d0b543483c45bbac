//! Partitions: the outcomes of an election, each a set of coalitions.
use vstd::prelude::*;
use crate::order::{increasing, models, Keyed, Order};
use crate::sorted::{
    from_items, insert, lemma_ordered, lemma_sorted_unique, member, ordered, sorted,
};
use crate::structures::candidate::{
    alphanumeric, candidate_seq, label, lemma_candidate_seq, lemma_label_letters, Candidate, Name,
};
use crate::structures::Structure;
use crate::utils::bell_number;
use crate::utils::counting::{
    apart, class_sizes, division_list, lemma_class_within, lemma_division_count,
    lemma_division_list, lemma_division_size, members,
};
use crate::utils::structures::{in_some_class, is_partition_of, lemma_partition_sorted, partition};
use crate::structures::coalition::{covers, pairs_within, Coalition, Group};
use crate::utils::unordered_pair::UnorderedPair;

verus! {

/// A partition as the increasing sequence of its coalitions.
pub type Blocks = Seq<Group>;

/// A set of coalitions, kept as their increasing vector.
#[derive(Clone, Debug, PartialEq, Eq, PartialOrd, Ord, Hash)]
pub struct Partition {
    pub coalitions: Vec<Coalition>,
}

impl View for Partition {
    type V = Blocks;

    open spec fn view(&self) -> Blocks {
        models(self.coalitions@)
    }
}

impl Keyed for Partition {
    type Model = Blocks;

    open spec fn model(&self) -> Blocks {
        models(self.coalitions@)
    }

    open spec fn less() -> spec_fn(Blocks, Blocks) -> bool {
        <Vec<Coalition> as Keyed>::less()
    }

    proof fn lemma_order() {
        <Vec<Coalition> as Keyed>::lemma_order();
        assert(Self::less() == <Vec<Coalition> as Keyed>::less());
    }

    fn compare(&self, other: &Self) -> (o: Order) {
        assert(Self::less() == <Vec<Coalition> as Keyed>::less());
        assert(self.model() == self.coalitions.model());
        self.coalitions.compare(&other.coalitions)
    }

    fn copy(&self) -> (r: Self) {
        Partition { coalitions: self.coalitions.copy() }
    }
}

/// Some coalition of `p` holds every member of `g`.
pub open spec fn holds_together(p: Blocks, g: Group) -> bool {
    exists|k: int| 0 <= k < p.len() && covers(#[trigger] p[k], g)
}

/// Some coalition of `p` holds both `a` and `b`.
pub open spec fn paired(p: Blocks, a: Name, b: Name) -> bool {
    exists|k: int| 0 <= k < p.len() && (#[trigger] p[k]).contains(a) && p[k].contains(b)
}

/// The coalition `b` holds a member of `g` and a candidate outside `g`.
pub open spec fn straddles(b: Group, g: Group) -> bool {
    &&& exists|i: int| 0 <= i < b.len() && g.contains(#[trigger] b[i])
    &&& exists|i: int| 0 <= i < b.len() && !g.contains(#[trigger] b[i])
}

/// No coalition of `p` holds a member of `g` together with a candidate
/// outside `g`: the partition keeps `g` apart from the rest.
pub open spec fn split_by(p: Blocks, g: Group) -> bool {
    forall|k: int| 0 <= k < p.len() ==> !straddles(#[trigger] p[k], g)
}

/// The candidates of the coalitions of `p`, each once, in order.
pub open spec fn candidates_of(p: Blocks) -> Seq<Name> {
    ordered(Candidate::less(), members(p))
}

/// It can be asked whether `p` keeps `g` apart: `p` has no coalition,
/// or `g` has a member and fewer members than `p` has candidates, so
/// that `g` is neither empty nor the coalition of all candidates.
pub open spec fn splittable(p: Blocks, g: Group) -> bool {
    p.len() == 0 || 0 < g.len() < candidates_of(p).len()
}

/// Whether `x` is a candidate of some coalition of `p`.
pub open spec fn mentions(p: Blocks, x: Name) -> bool {
    exists|k: int| 0 <= k < p.len() && (#[trigger] p[k]).contains(x)
}

/// `g` without `x`.
pub open spec fn drop_name(g: Group, x: Name) -> Group
    decreases g.len(),
{
    if g.len() == 0 {
        g
    } else if g.last() == x {
        drop_name(g.drop_last(), x)
    } else {
        drop_name(g.drop_last(), x).push(g.last())
    }
}

/// The coalitions of `p` once `x` has left: each without `x`, and those
/// that had no other member gone.
pub open spec fn without(p: Blocks, x: Name) -> Blocks
    decreases p.len(),
{
    if p.len() == 0 {
        p
    } else if drop_name(p.last(), x).len() == 0 {
        without(p.drop_last(), x)
    } else {
        without(p.drop_last(), x).push(drop_name(p.last(), x))
    }
}

/// `a` and `b` have the same elements.
pub open spec fn same_elements<M>(a: Seq<M>, b: Seq<M>) -> bool {
    forall|m: M| a.contains(m) <==> b.contains(m)
}

/// `g` is the coalition `b` with `x` as one more member.
pub open spec fn joined(b: Group, x: Name, g: Group) -> bool {
    same_elements(g, b.push(x)) && increasing(Candidate::less(), g)
}

/// `q` is what `p` becomes when `x` leaves its coalition and then stands
/// alone (`target` is `None`) or joins the coalition with index `target`
/// among those that are left.
pub open spec fn is_move(p: Blocks, x: Name, target: Option<int>, q: Blocks) -> bool {
    let rest = without(p, x);
    match target {
        None => same_elements(q, rest.push(seq![x])),
        Some(i) => 0 <= i < rest.len() && exists|g: Group| #[trigger]
            joined(rest[i], x, g) && same_elements(q, rest.update(i, g)),
    }
}

/// The witness of a move into a coalition.
pub proof fn lemma_is_move_some(p: Blocks, x: Name, i: int, g: Group, q: Blocks)
    requires
        0 <= i < without(p, x).len(),
        joined(without(p, x)[i], x, g),
        same_elements(q, without(p, x).update(i, g)),
    ensures
        is_move(p, x, Some(i), q),
{
}

/// `q` is the partition that `p` becomes by some move of `x`.
pub open spec fn one_move(p: Blocks, x: Name, q: Blocks) -> bool {
    increasing(Coalition::less(), q) && exists|target: Option<int>| is_move(p, x, target, q)
}

/// `q` comes from `p` by a move of one candidate of `p`: it is one move
/// away from `p`, or `p` itself with a candidate put back where it was.
pub open spec fn reachable_in_one(p: Blocks, q: Blocks) -> bool {
    exists|x: Name| mentions(p, x) && #[trigger] one_move(p, x, q)
}

/// Two increasing sequences with the elements of a third are equal.
pub proof fn lemma_same_sorted<M>(less: spec_fn(M, M) -> bool, a: Seq<M>, b: Seq<M>, t: Seq<M>)
    requires
        crate::order::strict_total(less),
        increasing(less, a),
        increasing(less, b),
        same_elements(a, t),
        same_elements(b, t),
    ensures
        a == b,
{
    lemma_sorted_unique(less, a, b);
}

impl Partition {
    /// The coalitions are in increasing order, each once, and so are the
    /// members of each.
    pub open spec fn wf(&self) -> bool {
        &&& sorted(self.coalitions@)
        &&& forall|k: int| 0 <= k < self.coalitions@.len() ==> (#[trigger] self.coalitions@[k]).wf()
    }

    /// The partition with the given coalitions.
    pub fn from_coalitions(coalitions: Vec<Coalition>) -> (p: Partition)
        ensures
            sorted(p.coalitions@),
            same_elements(p@, models(coalitions@)),
    {
        Partition { coalitions: from_items(coalitions) }
    }

    /// Whether `coalition` is one of the coalitions.
    pub fn contains(&self, coalition: &Coalition) -> (r: bool)
        ensures
            r == self@.contains(coalition@),
    {
        member(&self.coalitions, coalition)
    }

    /// Whether some coalition holds every member of `coalition`.
    pub fn contains_weak(&self, coalition: &Coalition) -> (r: bool)
        ensures
            r == holds_together(self@, coalition@),
    {
        let mut k: usize = 0;
        while k < self.coalitions.len()
            invariant
                k <= self.coalitions.len(),
                forall|j: int| 0 <= j < k ==> !covers(#[trigger] self@[j], coalition@),
            decreases self.coalitions.len() - k,
        {
            if self.coalitions[k].contains_weak(coalition) {
                assert(covers(self@[k as int], coalition@));
                return true;
            }
            k += 1;
        }
        false
    }

    /// Whether some coalition holds both candidates of `pair`.
    pub fn contains_pair(&self, pair: &(&Candidate, &Candidate)) -> (r: bool)
        ensures
            r == paired(self@, pair.0@, pair.1@),
    {
        let mut k: usize = 0;
        while k < self.coalitions.len()
            invariant
                k <= self.coalitions.len(),
                forall|j: int|
                    0 <= j < k ==> !((#[trigger] self@[j]).contains(pair.0@) && self@[j].contains(
                        pair.1@,
                    )),
            decreases self.coalitions.len() - k,
        {
            if self.coalitions[k].contains_pair(pair) {
                assert(self@[k as int].contains(pair.0@) && self@[k as int].contains(pair.1@));
                return true;
            }
            k += 1;
        }
        false
    }

    /// All pairs of two different candidates that share a coalition.
    pub fn all_pairs(&self) -> (r: Vec<UnorderedPair<Candidate>>)
        requires
            self.wf(),
        ensures
            sorted(r@),
            forall|p: (Name, Name)|
                models(r@).contains(p) <==> exists|k: int|
                    0 <= k < self@.len() && pairs_within(#[trigger] self@[k], p),
    {
        let mut r: Vec<UnorderedPair<Candidate>> = Vec::new();
        let mut k: usize = 0;
        while k < self.coalitions.len()
            invariant
                k <= self.coalitions.len(),
                self.wf(),
                sorted(r@),
                forall|p: (Name, Name)|
                    models(r@).contains(p) <==> exists|j: int|
                        0 <= j < k && pairs_within(#[trigger] self@[j], p),
            decreases self.coalitions.len() - k,
        {
            assert(self.coalitions@[k as int].wf());
            let pairs = self.coalitions[k].all_pairs();
            assert(self.coalitions@[k as int]@ == self@[k as int]);
            let mut i: usize = 0;
            while i < pairs.len()
                invariant
                    i <= pairs.len(),
                    k < self.coalitions.len(),
                    sorted(r@),
                    forall|p: (Name, Name)|
                        models(pairs@).contains(p) <==> pairs_within(self@[k as int], p),
                    forall|p: (Name, Name)|
                        models(r@).contains(p) <==> ((exists|j: int|
                            0 <= j < k && pairs_within(#[trigger] self@[j], p)) || exists|l: int|
                            0 <= l < i && #[trigger] models(pairs@)[l] == p),
                decreases pairs.len() - i,
            {
                let ghost prev = models(r@);
                insert(&mut r, pairs[i].copy());
                proof {
                    assert forall|p: (Name, Name)|
                        models(r@).contains(p) <==> ((exists|j: int|
                            0 <= j < k && pairs_within(#[trigger] self@[j], p)) || exists|l: int|
                            0 <= l < i + 1 && #[trigger] models(pairs@)[l] == p) by {
                        if models(r@).contains(p) && !prev.contains(p) {
                            assert(models(pairs@)[i as int] == p);
                        }
                        if prev.contains(p) && !(exists|j: int|
                            0 <= j < k && pairs_within(#[trigger] self@[j], p)) {
                            let l = choose|l: int| 0 <= l < i && #[trigger] models(pairs@)[l] == p;
                            assert(0 <= l < i + 1 && models(pairs@)[l] == p);
                        }
                        if exists|l: int| 0 <= l < i + 1 && #[trigger] models(pairs@)[l] == p {
                            let l = choose|l: int|
                                0 <= l < i + 1 && #[trigger] models(pairs@)[l] == p;
                            if l < i {
                                assert(prev.contains(p));
                            }
                        }
                    }
                }
                i += 1;
            }
            proof {
                assert forall|p: (Name, Name)|
                    models(r@).contains(p) <==> exists|j: int|
                        0 <= j < k + 1 && pairs_within(#[trigger] self@[j], p) by {
                    if models(r@).contains(p) {
                        if exists|j: int| 0 <= j < k && pairs_within(#[trigger] self@[j], p) {
                            let j = choose|j: int|
                                0 <= j < k && pairs_within(#[trigger] self@[j], p);
                            assert(0 <= j < k + 1 && pairs_within(self@[j], p));
                        } else {
                            let l = choose|l: int|
                                0 <= l < i && #[trigger] models(pairs@)[l] == p;
                            assert(models(pairs@).contains(p));
                            assert(pairs_within(self@[k as int], p));
                        }
                    }
                    if exists|j: int| 0 <= j < k + 1 && pairs_within(#[trigger] self@[j], p) {
                        let j = choose|j: int|
                            0 <= j < k + 1 && pairs_within(#[trigger] self@[j], p);
                        if j == k {
                            assert(models(pairs@).contains(p));
                            let l = choose|l: int|
                                0 <= l < models(pairs@).len() && models(pairs@)[l] == p;
                            assert(0 <= l < i && models(pairs@)[l] == p);
                        }
                    }
                }
            }
            k += 1;
        }
        r
    }

    /// The coalitions once `x` has left.
    fn remove_candidate(&self, x: &Candidate) -> (rest: Vec<Coalition>)
        ensures
            models(rest@) == without(self@, x@),
    {
        let mut rest: Vec<Coalition> = Vec::new();
        let mut k: usize = 0;
        while k < self.coalitions.len()
            invariant
                k <= self.coalitions.len(),
                models(rest@) == without(self@.take(k as int), x@),
            decreases self.coalitions.len() - k,
        {
            let block = &self.coalitions[k];
            let mut members: Vec<Candidate> = Vec::new();
            let mut i: usize = 0;
            while i < block.members.len()
                invariant
                    i <= block.members.len(),
                    k < self.coalitions.len(),
                    block == &self.coalitions[k as int],
                    models(members@) == drop_name(block@.take(i as int), x@),
                decreases block.members.len() - i,
            {
                proof {
                    assert(block@.take(i + 1).drop_last() =~= block@.take(i as int));
                    assert(block@.take(i + 1).last() == block@[i as int]);
                    Candidate::lemma_order();
                }
                let ghost before = models(members@);
                match block.members[i].compare(x) {
                    Order::Equal => {},
                    _ => {
                        members.push(block.members[i].copy());
                        assert(models(members@) =~= before.push(block@[i as int]));
                    },
                }
                i += 1;
            }
            proof {
                assert(block@.take(i as int) =~= block@);
                assert(self@.take(k + 1).drop_last() =~= self@.take(k as int));
                assert(self@.take(k + 1).last() == self@[k as int]);
                assert(self@[k as int] == block@);
            }
            let ghost before = models(rest@);
            if members.len() > 0 {
                let ghost mm = models(members@);
                rest.push(Coalition { members });
                assert(models(rest@) =~= before.push(mm));
            }
            k += 1;
        }
        proof {
            assert(self@.take(k as int) =~= self@);
        }
        rest
    }

    /// Adds to `r` every partition that comes about by a move of `x`.
    fn add_moves(&self, x: &Candidate, r: &mut Vec<Partition>)
        requires
            sorted(old(r)@),
        ensures
            sorted(final(r)@),
            forall|q: Blocks| #[trigger]
                models(final(r)@).contains(q) <==> (models(old(r)@).contains(q) || one_move(
                    self@,
                    x@,
                    q,
                )),
    {
        let ghost p = self@;
        let ghost xm = x@;
        let ghost start = models(r@);
        let rest = self.remove_candidate(x);
        let ghost rm = models(rest@);
        proof {
            Coalition::lemma_order();
            Candidate::lemma_order();
        }
        // the candidate stands alone
        let mut alone_members: Vec<Candidate> = Vec::new();
        alone_members.push(x.copy());
        let alone = Coalition { members: alone_members };
        assert(alone.model() =~= seq![xm]);
        let mut with_singleton = rest.copy();
        with_singleton.push(alone);
        assert(models(with_singleton@) =~= rm.push(seq![xm]));
        let q0 = Partition::from_coalitions(with_singleton);
        let ghost q0m = q0.model();
        insert(r, q0);
        proof {
            assert(is_move(p, xm, None, q0m));
            assert forall|q: Blocks| #[trigger]
                models(r@).contains(q) <==> (start.contains(q) || (increasing(
                    Coalition::less(),
                    q,
                ) && is_move(p, xm, None, q))) by {
                if increasing(Coalition::less(), q) && is_move(p, xm, None, q) {
                    lemma_same_sorted(Coalition::less(), q, q0m, rm.push(seq![xm]));
                }
            }
        }
        let mut i: usize = 0;
        while i < rest.len()
            invariant
                i <= rest.len(),
                p == self@,
                xm == x@,
                rm == models(rest@),
                rm == without(p, xm),
                sorted(r@),
                crate::order::strict_total(Coalition::less()),
                crate::order::strict_total(Candidate::less()),
                forall|q: Blocks| #[trigger]
                    models(r@).contains(q) <==> (start.contains(q) || (increasing(
                        Coalition::less(),
                        q,
                    ) && (is_move(p, xm, None, q) || exists|j: int|
                        0 <= j < i && #[trigger] is_move(p, xm, Some(j), q)))),
            decreases rest.len() - i,
        {
            let ghost prev = models(r@);
            let mut members = rest[i].members.copy();
            members.push(x.copy());
            assert(models(members@) =~= rm[i as int].push(xm));
            let grown = Coalition::from_members(members);
            let ghost g0 = grown.model();
            assert(grown@ == g0);
            assert(same_elements(g0, rm[i as int].push(xm)));
            assert(increasing(Candidate::less(), g0));
            let mut blocks = rest.copy();
            blocks.set(i, grown);
            assert(models(blocks@) =~= rm.update(i as int, g0));
            let q1 = Partition::from_coalitions(blocks);
            let ghost q1m = q1.model();
            insert(r, q1);
            proof {
                assert(same_elements(g0, rm[i as int].push(xm)));
                assert(same_elements(q1m, rm.update(i as int, g0)));
                let w = without(p, xm);
                assert(w == rm);
                assert(0 <= i < w.len());
                assert(joined(w[i as int], xm, g0) && same_elements(
                    q1m,
                    w.update(i as int, g0),
                ));
                lemma_is_move_some(p, xm, i as int, g0, q1m);
                assert forall|q: Blocks| #[trigger]
                    models(r@).contains(q) <==> (start.contains(q) || (increasing(
                        Coalition::less(),
                        q,
                    ) && (is_move(p, xm, None, q) || exists|j: int|
                        0 <= j < i + 1 && #[trigger] is_move(p, xm, Some(j), q)))) by {
                    if models(r@).contains(q) {
                        if prev.contains(q) {
                            if !start.contains(q) && !is_move(p, xm, None, q) {
                                let j = choose|j: int|
                                    0 <= j < i && #[trigger] is_move(p, xm, Some(j), q);
                                assert(0 <= j < i + 1 && is_move(p, xm, Some(j), q));
                            }
                        } else {
                            assert(q == q1m);
                        }
                    }
                    if increasing(Coalition::less(), q) && exists|j: int|
                        0 <= j < i + 1 && #[trigger] is_move(p, xm, Some(j), q) {
                        let j = choose|j: int|
                            0 <= j < i + 1 && #[trigger] is_move(p, xm, Some(j), q);
                        if j < i {
                            assert(prev.contains(q));
                        } else {
                            let g = choose|g: Group| #[trigger]
                                joined(rm[i as int], xm, g) && same_elements(
                                    q,
                                    rm.update(i as int, g),
                                );
                            lemma_same_sorted(Candidate::less(), g, g0, rm[i as int].push(xm));
                            lemma_same_sorted(
                                Coalition::less(),
                                q,
                                q1m,
                                rm.update(i as int, g0),
                            );
                        }
                    }
                }
            }
            i += 1;
        }
        proof {
            assert forall|q: Blocks| #[trigger]
                models(r@).contains(q) <==> (start.contains(q) || one_move(p, xm, q)) by {
                if one_move(p, xm, q) {
                    let target = choose|target: Option<int>| is_move(p, xm, target, q);
                    match target {
                        None => {},
                        Some(j) => {
                            assert(0 <= j < i && is_move(p, xm, Some(j), q));
                        },
                    }
                }
                if models(r@).contains(q) && !start.contains(q) {
                    if !is_move(p, xm, None, q) {
                        let j = choose|j: int| 0 <= j < i && #[trigger] is_move(p, xm, Some(j), q);
                        assert(is_move(p, xm, Some(j), q));
                    }
                }
            }
        }
    }

    /// All other partitions that are one move of one candidate away:
    /// the candidate leaves its coalition and stands alone or joins one
    /// of the coalitions that are left. The partition itself, to which a
    /// candidate comes back that goes where it was, is not among them.
    pub fn distance_one(&self) -> (r: Vec<Partition>)
        ensures
            sorted(r@),
            forall|q: Blocks|
                #![trigger models(r@).contains(q)]
                #![trigger reachable_in_one(self@, q)]
                models(r@).contains(q) <==> reachable_in_one(self@, q) && q != self@,
    {
        let found = self.moves();
        let ghost fm = models(found@);
        let mut r: Vec<Partition> = Vec::new();
        let mut i: usize = 0;
        proof {
            Partition::lemma_order();
        }
        while i < found.len()
            invariant
                i <= found.len(),
                fm == models(found@),
                sorted(r@),
                crate::order::strict_total(Partition::less()),
                forall|q: Blocks|
                    models(r@).contains(q) <==> fm.take(i as int).contains(q) && q != self@,
            decreases found.len() - i,
        {
            let ghost prev = models(r@);
            let ghost q0 = fm[i as int];
            assert(q0 == found@[i as int].model());
            let same = match found[i].compare(self) {
                Order::Equal => true,
                _ => false,
            };
            assert(same == (q0 == self@));
            if !same {
                insert(&mut r, found[i].copy());
            }
            proof {
                let before = fm.take(i as int);
                let now = fm.take(i + 1);
                assert(now =~= before.push(q0));
                assert forall|q: Blocks|
                    models(r@).contains(q) <==> now.contains(q) && q != self@ by {
                    if now.contains(q) {
                        let t = choose|t: int| 0 <= t < now.len() && now[t] == q;
                        if t < i {
                            assert(before[t] == q);
                        }
                    }
                    if before.contains(q) {
                        let t = choose|t: int| 0 <= t < before.len() && before[t] == q;
                        assert(now[t] == q);
                    }
                    if q == q0 {
                        assert(now[i as int] == q);
                    }
                }
            }
            i += 1;
        }
        proof {
            assert(fm.take(i as int) =~= fm);
        }
        r
    }

    /// All partitions that come from a move of one candidate: the
    /// candidate leaves its coalition and stands alone or joins one of
    /// the coalitions that are left. The partition itself is among them,
    /// where a candidate goes back to where it was.
    fn moves(&self) -> (r: Vec<Partition>)
        ensures
            sorted(r@),
            forall|q: Blocks| models(r@).contains(q) <==> reachable_in_one(self@, q),
    {
        let ghost p = self@;
        let mut r: Vec<Partition> = Vec::new();
        let mut k: usize = 0;
        while k < self.coalitions.len()
            invariant
                k <= self.coalitions.len(),
                p == self@,
                sorted(r@),
                forall|q: Blocks| #[trigger]
                    models(r@).contains(q) <==> exists|a: int, b: int|
                        0 <= a < k && 0 <= b < p[a].len() && #[trigger] one_move(p, p[a][b], q),
            decreases self.coalitions.len() - k,
        {
            let block = &self.coalitions[k];
            assert(block@ == p[k as int]);
            let mut i: usize = 0;
            while i < block.members.len()
                invariant
                    i <= block.members.len(),
                    k < self.coalitions.len(),
                    block == &self.coalitions[k as int],
                    block@ == p[k as int],
                    p == self@,
                    sorted(r@),
                    forall|q: Blocks| #[trigger]
                        models(r@).contains(q) <==> exists|a: int, b: int|
                            0 <= a <= k && 0 <= b < p[a].len() && (a < k || b < i)
                                && #[trigger] one_move(p, p[a][b], q),
                decreases block.members.len() - i,
            {
                let ghost prev = models(r@);
                let candidate = &block.members[i];
                assert(candidate@ == p[k as int][i as int]);
                self.add_moves(candidate, &mut r);
                proof {
                    assert forall|q: Blocks| #[trigger]
                        models(r@).contains(q) <==> exists|a: int, b: int|
                            0 <= a <= k && 0 <= b < p[a].len() && (a < k || b < i + 1)
                                && #[trigger] one_move(p, p[a][b], q) by {
                        if models(r@).contains(q) {
                            if prev.contains(q) {
                                let (a, b) = choose|a: int, b: int|
                                    0 <= a <= k && 0 <= b < p[a].len() && (a < k || b < i)
                                        && #[trigger] one_move(p, p[a][b], q);
                                assert(0 <= a <= k && 0 <= b < p[a].len() && (a < k || b < i + 1)
                                    && one_move(p, p[a][b], q));
                            } else {
                                assert(one_move(p, p[k as int][i as int], q));
                            }
                        }
                        if exists|a: int, b: int|
                            0 <= a <= k && 0 <= b < p[a].len() && (a < k || b < i + 1)
                                && #[trigger] one_move(p, p[a][b], q) {
                            let (a, b) = choose|a: int, b: int|
                                0 <= a <= k && 0 <= b < p[a].len() && (a < k || b < i + 1)
                                    && #[trigger] one_move(p, p[a][b], q);
                            if a < k || b < i {
                                assert(prev.contains(q));
                            }
                        }
                    }
                }
                i += 1;
            }
            proof {
                assert forall|q: Blocks| #[trigger]
                    models(r@).contains(q) <==> exists|a: int, b: int|
                        0 <= a < k + 1 && 0 <= b < p[a].len() && #[trigger] one_move(
                            p,
                            p[a][b],
                            q,
                        ) by {
                    if models(r@).contains(q) {
                        let (a, b) = choose|a: int, b: int|
                            0 <= a <= k && 0 <= b < p[a].len() && (a < k || b < i)
                                && #[trigger] one_move(p, p[a][b], q);
                        assert(0 <= a < k + 1 && 0 <= b < p[a].len() && one_move(p, p[a][b], q));
                    }
                    if exists|a: int, b: int|
                        0 <= a < k + 1 && 0 <= b < p[a].len() && #[trigger] one_move(
                            p,
                            p[a][b],
                            q,
                        ) {
                        let (a, b) = choose|a: int, b: int|
                            0 <= a < k + 1 && 0 <= b < p[a].len() && #[trigger] one_move(
                                p,
                                p[a][b],
                                q,
                            );
                        assert(0 <= a <= k && 0 <= b < p[a].len() && (a < k || b < i) && one_move(
                            p,
                            p[a][b],
                            q,
                        ));
                    }
                }
            }
            k += 1;
        }
        proof {
            assert forall|q: Blocks| models(r@).contains(q) <==> reachable_in_one(p, q) by {
                if models(r@).contains(q) {
                    let (a, b) = choose|a: int, b: int|
                        0 <= a < k && 0 <= b < p[a].len() && #[trigger] one_move(p, p[a][b], q);
                    assert(p[a].contains(p[a][b]));
                    assert(mentions(p, p[a][b]));
                }
                if reachable_in_one(p, q) {
                    let x = choose|x: Name| mentions(p, x) && #[trigger] one_move(p, x, q);
                    let a = choose|a: int| 0 <= a < p.len() && (#[trigger] p[a]).contains(x);
                    let b = choose|b: int| 0 <= b < p[a].len() && p[a][b] == x;
                    assert(0 <= a < k && 0 <= b < p[a].len() && one_move(p, p[a][b], q));
                }
            }
        }
        r
    }

    /// Whether the coalition with index `k` holds a member of `coalition`
    /// and a candidate outside it.
    fn block_straddles(&self, k: usize, coalition: &Coalition) -> (r: bool)
        requires
            k < self.coalitions.len(),
        ensures
            r == straddles(self@[k as int], coalition@),
    {
        let block = &self.coalitions[k];
        let ghost b = self@[k as int];
        let mut inside = false;
        let mut outside = false;
        let mut i: usize = 0;
        while i < block.members.len()
            invariant
                i <= block.members.len(),
                b == block@,
                inside == exists|j: int| 0 <= j < i && coalition@.contains(#[trigger] b[j]),
                outside == exists|j: int| 0 <= j < i && !coalition@.contains(#[trigger] b[j]),
            decreases block.members.len() - i,
        {
            if coalition.contains(&block.members[i]) {
                assert(coalition@.contains(b[i as int]));
                inside = true;
            } else {
                assert(!coalition@.contains(b[i as int]));
                outside = true;
            }
            i += 1;
        }
        inside && outside
    }

    /// The candidates of the partition, each once, in order.
    pub fn candidates(&self) -> (r: Vec<Candidate>)
        ensures
            models(r@) == candidates_of(self@),
    {
        let ghost p = self@;
        let mut flat: Vec<Candidate> = Vec::new();
        let mut k: usize = 0;
        while k < self.coalitions.len()
            invariant
                k <= self.coalitions.len(),
                p == self@,
                models(flat@) == members(p.take(k as int)),
            decreases self.coalitions.len() - k,
        {
            let block = &self.coalitions[k];
            assert(block@ == p[k as int]);
            let ghost start = models(flat@);
            let mut i: usize = 0;
            while i < block.members.len()
                invariant
                    i <= block.members.len(),
                    block@ == p[k as int],
                    models(flat@) == start + block@.take(i as int),
                decreases block.members.len() - i,
            {
                let ghost before = models(flat@);
                flat.push(block.members[i].copy());
                proof {
                    assert(models(flat@) =~= before.push(block@[i as int]));
                    assert(block@.take(i + 1) =~= block@.take(i as int).push(block@[i as int]));
                    assert(models(flat@) =~= start + block@.take(i + 1));
                }
                i += 1;
            }
            proof {
                assert(block@.take(i as int) =~= block@);
                assert(p.take(k + 1).drop_last() =~= p.take(k as int));
                assert(p.take(k + 1).last() == p[k as int]);
            }
            k += 1;
        }
        let ghost all = models(flat@);
        let r = from_items(flat);
        proof {
            assert(p.take(k as int) =~= p);
            Candidate::lemma_order();
            lemma_ordered(Candidate::less(), all);
            lemma_sorted_unique(Candidate::less(), models(r@), candidates_of(p));
        }
        r
    }

    /// Whether it can be asked if the partition keeps `coalition` apart.
    pub fn can_split(&self, coalition: &Coalition) -> (b: bool)
        ensures
            b == splittable(self@, coalition@),
    {
        if self.coalitions.len() == 0 {
            return true;
        }
        if coalition.members.len() == 0 {
            return false;
        }
        let candidates = self.candidates();
        assert(candidates@.len() == candidates_of(self@).len());
        coalition.members.len() < candidates.len()
    }

    /// Whether the partition keeps `coalition` apart from the other
    /// candidates: no coalition of the partition holds a member of
    /// `coalition` together with a candidate outside it. The question
    /// is not asked of the coalition without members and of one that
    /// has as many members as the partition has candidates.
    pub fn is_split(&self, coalition: &Coalition) -> (r: bool)
        requires
            splittable(self@, coalition@),
        ensures
            r == split_by(self@, coalition@),
    {
        let mut k: usize = 0;
        while k < self.coalitions.len()
            invariant
                k <= self.coalitions.len(),
                forall|j: int| 0 <= j < k ==> !straddles(#[trigger] self@[j], coalition@),
            decreases self.coalitions.len() - k,
        {
            if self.block_straddles(k, coalition) {
                return false;
            }
            k += 1;
        }
        true
    }
}

/// The number of members of all coalitions of `q` together.
pub open spec fn member_count(q: Blocks) -> nat {
    class_sizes(q)
}

/// The partitions of `m` candidates, in order.
pub open spec fn partition_seq(m: usize) -> Seq<Blocks> {
    choose|s: Seq<Blocks>|
        increasing(Partition::less(), s) && forall|x: Blocks|
            s.contains(x) <==> Partition::universe(m).contains(x)
}

/// The partitions of `m` candidates are in increasing order, they are
/// the divisions of the candidates into coalitions, and there are as
/// many as the Bell number of `m` says.
pub proof fn lemma_partition_seq(m: usize)
    ensures
        increasing(Partition::less(), partition_seq(m)),
        forall|x: Blocks| partition_seq(m).contains(x) <==> Partition::universe(m).contains(x),
        partition_seq(m).len() == bell_number(m as nat),
{
    let less = Partition::less();
    let c = candidate_seq(m);
    Partition::lemma_order();
    Candidate::lemma_order();
    lemma_candidate_seq(m);
    let l = division_list(c, m as nat);
    lemma_division_list(Candidate::less(), c, m as nat);
    assert(c.take(m as int) =~= c);
    let t = ordered(less, l);
    lemma_ordered(less, l);
    assert forall|x: Blocks| t.contains(x) <==> Partition::universe(m).contains(x) by {
        assert(t.contains(x) <==> l.contains(x));
        assert(l.contains(x) <==> is_partition_of(Candidate::less(), x, c));
    }
    let s = partition_seq(m);
    assert(increasing(less, s) && forall|x: Blocks|
        s.contains(x) <==> Partition::universe(m).contains(x));
    assert forall|i: int, j: int| 0 <= i < s.len() && 0 <= j < s.len() && i != j implies s[i]
        != s[j] by {
        if i < j {
            assert(less(s[i], s[j]));
        } else {
            assert(less(s[j], s[i]));
        }
    }
    assert forall|q: Blocks| #[trigger] s.contains(q) <==> is_partition_of(
        Candidate::less(),
        q,
        c,
    ) by {
        assert(s.contains(q) <==> Partition::universe(m).contains(q));
    }
    lemma_division_count(Candidate::less(), c, s);
}

/// Every division of the `m` candidates into coalitions is a legal
/// partition.
pub proof fn lemma_partition_legal(p: Partition, m: usize)
    requires
        m >= 1,
        Partition::universe(m).contains(p@),
    ensures
        p.legal(m),
{
    let less = Candidate::less();
    let q = p@;
    let c = candidate_seq(m);
    Candidate::lemma_order();
    lemma_candidate_seq(m);
    assert(apart(less, q));
    lemma_division_size(less, q, c);
    assert(in_some_class(q, c[0]));
    assert forall|k: int| 0 <= k < p.coalitions@.len() implies (#[trigger] p.coalitions@[k]).legal(
        m,
    ) by {
        let g = p.coalitions@[k];
        assert(q[k] == g@);
        assert(g.members@.len() == q[k].len());
        lemma_class_within(q, k);
        assert forall|i: int| 0 <= i < g.members@.len() implies (#[trigger] g.members@[i]).legal(
            m,
        ) by {
            let n = g.members@[i]@;
            assert(q[k][i] == n);
            assert(c.contains(q[k][i]));
            assert(Candidate::universe(m).contains(n));
            let t = choose|t: nat| t < m && n == label(t);
            lemma_label_letters(t);
            assert forall|a: int| 0 <= a < n.len() implies alphanumeric(n[a]) by {
                assert('a' <= label(t)[a] <= 'z');
            }
        }
    }
}

impl Structure for Partition {
    /// There is no partition of no candidates.
    open spec fn listable(m: usize) -> bool {
        m >= 1
    }

    /// The divisions of the candidates into coalitions.
    open spec fn universe(m: usize) -> Set<Blocks> {
        Set::new(|q: Blocks| is_partition_of(Candidate::less(), q, candidate_seq(m)))
    }

    /// The partition has a coalition, and at most `m`; every coalition is
    /// legal; and the coalitions have `m` members together.
    open spec fn legal(&self, m: usize) -> bool {
        &&& self.coalitions@.len() > 0
        &&& self.coalitions@.len() <= m
        &&& forall|i: int|
            0 <= i < self.coalitions@.len() ==> (#[trigger] self.coalitions@[i]).legal(m)
        &&& member_count(self@) == m
    }

    fn all(m: usize) -> (r: Vec<Self>)
        ensures
            forall|i: int| 0 <= i < r@.len() ==> (#[trigger] r@[i]).wf(),
            forall|x: Blocks| models(r@).contains(x) <==> Self::universe(m).contains(x),
            models(r@) == partition_seq(m),
            r@.len() == bell_number(m as nat),
            forall|i: int| 0 <= i < r@.len() ==> (#[trigger] r@[i]).legal(m),
    {
        let candidates = Candidate::all(m);
        let divisions = partition(&candidates);
        let mut r: Vec<Partition> = Vec::new();
        let mut i: usize = 0;
        while i < divisions.len()
            invariant
                i <= divisions.len(),
                r@.len() == i,
                forall|k: int| 0 <= k < i ==> (#[trigger] r@[k]).model() == divisions@[k].model(),
                forall|k: int| 0 <= k < i ==> (#[trigger] r@[k]).wf(),
            decreases divisions.len() - i,
        {
            let division = &divisions[i];
            let ghost dm = division.model();
            assert(models(divisions@)[i as int] == dm);
            assert(models(divisions@).contains(dm));
            assert(is_partition_of(Candidate::less(), dm, models(candidates@)));
            let mut coalitions: Vec<Coalition> = Vec::new();
            let mut k: usize = 0;
            while k < division.len()
                invariant
                    k <= division.len(),
                    coalitions@.len() == k,
                    forall|j: int|
                        0 <= j < k ==> (#[trigger] coalitions@[j]).model() == division@[j].model(),
                decreases division.len() - k,
            {
                coalitions.push(Coalition { members: division[k].copy() });
                k += 1;
            }
            let p = Partition { coalitions };
            proof {
                assert(p.model() =~= dm);
                lemma_partition_sorted(Candidate::less(), dm, models(candidates@));
                assert forall|j: int| 0 <= j < p.coalitions@.len() implies (
                #[trigger] p.coalitions@[j]).wf() by {
                    assert(p.coalitions@[j].model() == dm[j]);
                    assert(increasing(Candidate::less(), dm[j]));
                }
            }
            r.push(p);
            i += 1;
        }
        proof {
            assert(models(r@) =~= models(divisions@));
            assert forall|x: Blocks| models(r@).contains(x) <==> Self::universe(m).contains(x) by {
                if models(r@).contains(x) {
                    let t = choose|t: int| 0 <= t < models(r@).len() && models(r@)[t] == x;
                    assert(divisions@[t].model() == x);
                }
            }
            Partition::lemma_order();
            lemma_sorted_unique(Partition::less(), models(r@), partition_seq(m));
            assert forall|i: int| 0 <= i < r@.len() implies (#[trigger] r@[i]).legal(m) by {
                assert(models(r@).contains(models(r@)[i]));
                lemma_partition_legal(r@[i], m);
            }
        }
        r
    }

    fn is_legal(&self, m: usize) -> (b: bool) {
        if self.coalitions.len() == 0 || self.coalitions.len() > m {
            return false;
        }
        let mut sum: usize = 0;
        let mut i: usize = 0;
        while i < self.coalitions.len()
            invariant
                i <= self.coalitions.len(),
                sum == member_count(self@.take(i as int)),
                sum <= m,
                forall|j: int| 0 <= j < i ==> (#[trigger] self.coalitions@[j]).legal(m),
            decreases self.coalitions.len() - i,
        {
            if !self.coalitions[i].is_legal(m) {
                return false;
            }
            proof {
                assert(self@.take(i + 1).drop_last() =~= self@.take(i as int));
                assert(self@.take(i + 1).last() == self@[i as int]);
                assert(self@[i as int].len() == self.coalitions@[i as int].members@.len());
                lemma_member_count_grows(self@, i + 1);
            }
            let size = self.coalitions[i].members.len();
            if size > m - sum {
                return false;
            }
            sum = sum + size;
            i += 1;
        }
        proof {
            assert(self@.take(i as int) =~= self@);
        }
        sum == m
    }
}

/// The members of the first `n` coalitions are at most those of all.
pub proof fn lemma_member_count_grows(q: Blocks, n: int)
    requires
        0 <= n <= q.len(),
    ensures
        member_count(q.take(n)) <= member_count(q),
    decreases q.len() - n,
{
    if n < q.len() {
        assert(q.take(n + 1).drop_last() =~= q.take(n));
        lemma_member_count_grows(q, n + 1);
    } else {
        assert(q.take(n) =~= q);
    }
}

} // verus!
