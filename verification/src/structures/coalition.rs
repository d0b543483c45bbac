//! Coalitions: sets of candidates.
use vstd::prelude::*;
use crate::order::{increasing, models, Keyed, Order};
use crate::sorted::{from_items, insert, lemma_sorted_unique, member, sorted};
use crate::structures::candidate::{candidate_seq, Candidate, Name};
use crate::structures::Structure;
use crate::utils::structures::{powerset, subset_of};
use crate::utils::unordered_pair::UnorderedPair;

verus! {

/// A coalition as the increasing sequence of its members' names.
pub type Group = Seq<Name>;

/// A set of candidates, kept as the increasing vector of its members.
#[derive(Clone, Debug, PartialEq, Eq, PartialOrd, Ord, Hash)]
pub struct Coalition {
    pub members: Vec<Candidate>,
}

impl View for Coalition {
    type V = Group;

    open spec fn view(&self) -> Group {
        models(self.members@)
    }
}

impl Keyed for Coalition {
    type Model = Group;

    open spec fn model(&self) -> Group {
        models(self.members@)
    }

    open spec fn less() -> spec_fn(Group, Group) -> bool {
        <Vec<Candidate> as Keyed>::less()
    }

    proof fn lemma_order() {
        <Vec<Candidate> as Keyed>::lemma_order();
        assert(Self::less() == <Vec<Candidate> as Keyed>::less());
    }

    fn compare(&self, other: &Self) -> (o: Order) {
        assert(Self::less() == <Vec<Candidate> as Keyed>::less());
        assert(self.model() == self.members.model());
        self.members.compare(&other.members)
    }

    fn copy(&self) -> (r: Self) {
        Coalition { members: self.members.copy() }
    }
}

/// Every element of `inner` is one of `outer`.
pub open spec fn covers<M>(outer: Seq<M>, inner: Seq<M>) -> bool {
    forall|i: int| 0 <= i < inner.len() ==> outer.contains(inner[i])
}

/// The pairs of two different elements of the increasing sequence `g`, the
/// smaller element first.
pub open spec fn pairs_within<M>(g: Seq<M>, p: (M, M)) -> bool {
    exists|i: int, j: int| 0 <= i < j < g.len() && p == (g[i], g[j])
}

impl Coalition {
    /// The members are in increasing order, each once.
    pub open spec fn wf(&self) -> bool {
        sorted(self.members@)
    }

    /// The coalition of the given candidates.
    pub fn from_members(members: Vec<Candidate>) -> (c: Coalition)
        ensures
            c.wf(),
            forall|n: Name| c@.contains(n) <==> models(members@).contains(n),
    {
        Coalition { members: from_items(members) }
    }

    /// Whether every member of `other` is a member of `self`.
    pub fn contains_weak(&self, other: &Coalition) -> (r: bool)
        ensures
            r == covers(self@, other@),
    {
        let mut i: usize = 0;
        while i < other.members.len()
            invariant
                i <= other.members.len(),
                forall|j: int| 0 <= j < i ==> self@.contains(other@[j]),
            decreases other.members.len() - i,
        {
            if !member(&self.members, &other.members[i]) {
                assert(!self@.contains(other@[i as int]));
                return false;
            }
            i += 1;
        }
        true
    }

    /// Whether `other` is a member.
    pub fn contains(&self, other: &Candidate) -> (r: bool)
        ensures
            r == self@.contains(other@),
    {
        member(&self.members, other)
    }

    /// Whether both candidates of `pair` are members.
    pub fn contains_pair(&self, pair: &(&Candidate, &Candidate)) -> (r: bool)
        ensures
            r == (self@.contains(pair.0@) && self@.contains(pair.1@)),
    {
        member(&self.members, pair.0) && member(&self.members, pair.1)
    }

    /// All pairs of two different members.
    pub fn all_pairs(&self) -> (r: Vec<UnorderedPair<Candidate>>)
        requires
            self.wf(),
        ensures
            sorted(r@),
            forall|p: (Name, Name)| models(r@).contains(p) <==> pairs_within(self@, p),
    {
        let mut r: Vec<UnorderedPair<Candidate>> = Vec::new();
        let n = self.members.len();
        let ghost g = self@;
        let mut i: usize = 0;
        while i < n
            invariant
                n == self.members.len(),
                g == self@,
                i <= n,
                sorted(r@),
                forall|p: (Name, Name)|
                    models(r@).contains(p) <==> exists|a: int, b: int|
                        0 <= a < b < n && a < i && p == (g[a], g[b]),
            decreases n - i,
        {
            let mut j: usize = i + 1;
            while j < n
                invariant
                    n == self.members.len(),
                    g == self@,
                    i < n,
                    i < j <= n,
                    sorted(r@),
                    forall|p: (Name, Name)|
                        models(r@).contains(p) <==> exists|a: int, b: int|
                            0 <= a < b < n && (a < i || (a == i && b < j)) && p == (g[a], g[b]),
                decreases n - j,
            {
                let ghost prev = models(r@);
                let pair = UnorderedPair(self.members[i].copy(), self.members[j].copy());
                assert(pair.model() == (g[i as int], g[j as int]));
                insert(&mut r, pair);
                proof {
                    assert forall|p: (Name, Name)|
                        models(r@).contains(p) <==> exists|a: int, b: int|
                            0 <= a < b < n && (a < i || (a == i && b < j + 1)) && p == (
                                g[a],
                                g[b],
                            ) by {
                        if models(r@).contains(p) {
                            if prev.contains(p) {
                                let (a, b) = choose|a: int, b: int|
                                    0 <= a < b < n && (a < i || (a == i && b < j)) && p == (
                                        g[a],
                                        g[b],
                                    );
                                assert(0 <= a < b < n && (a < i || (a == i && b < j + 1)) && p == (
                                    g[a],
                                    g[b],
                                ));
                            } else {
                                assert(0 <= i < j < n && (i < i || (i == i && j < j + 1)) && p == (
                                    g[i as int],
                                    g[j as int],
                                ));
                            }
                        }
                        if exists|a: int, b: int|
                            0 <= a < b < n && (a < i || (a == i && b < j + 1)) && p == (g[a], g[b]) {
                            let (a, b) = choose|a: int, b: int|
                                0 <= a < b < n && (a < i || (a == i && b < j + 1)) && p == (
                                    g[a],
                                    g[b],
                                );
                            if a == i && b == j {
                            } else {
                                assert(0 <= a < b < n && (a < i || (a == i && b < j)) && p == (
                                    g[a],
                                    g[b],
                                ));
                                assert(prev.contains(p));
                            }
                        }
                    }
                }
                j += 1;
            }
            proof {
                assert forall|p: (Name, Name)|
                    models(r@).contains(p) <==> exists|a: int, b: int|
                        0 <= a < b < n && a < i + 1 && p == (g[a], g[b]) by {
                    if models(r@).contains(p) {
                        let (a, b) = choose|a: int, b: int|
                            0 <= a < b < n && (a < i || (a == i && b < j)) && p == (g[a], g[b]);
                        assert(0 <= a < b < n && a < i + 1 && p == (g[a], g[b]));
                    }
                    if exists|a: int, b: int| 0 <= a < b < n && a < i + 1 && p == (g[a], g[b]) {
                        let (a, b) = choose|a: int, b: int|
                            0 <= a < b < n && a < i + 1 && p == (g[a], g[b]);
                        assert(0 <= a < b < n && (a < i || (a == i && b < j)) && p == (g[a], g[b]));
                    }
                }
            }
            i += 1;
        }
        proof {
            assert forall|p: (Name, Name)| models(r@).contains(p) <==> pairs_within(self@, p) by {
                if models(r@).contains(p) {
                    let (a, b) = choose|a: int, b: int|
                        0 <= a < b < n && a < i && p == (g[a], g[b]);
                    assert(0 <= a < b < g.len() && p == (g[a], g[b]));
                }
                if pairs_within(self@, p) {
                    let (a, b) = choose|a: int, b: int| 0 <= a < b < g.len() && p == (g[a], g[b]);
                    assert(0 <= a < b < n && a < i && p == (g[a], g[b]));
                }
            }
        }
        r
    }
}

/// The coalitions of `m` candidates, in order.
pub open spec fn coalition_seq(m: usize) -> Seq<Group> {
    choose|s: Seq<Group>|
        increasing(Coalition::less(), s) && forall|x: Group|
            s.contains(x) <==> Coalition::universe(m).contains(x)
}

impl Structure for Coalition {
    open spec fn listable(m: usize) -> bool {
        true
    }

    /// The sets of candidates that are not empty.
    open spec fn universe(m: usize) -> Set<Group> {
        Set::new(|g: Group| g.len() > 0 && subset_of(Candidate::less(), g, candidate_seq(m)))
    }

    /// The coalition has a member, has at most `m` members, and every
    /// member is a legal candidate.
    open spec fn legal(&self, m: usize) -> bool {
        &&& self.members@.len() > 0
        &&& self.members@.len() <= m
        &&& forall|i: int| 0 <= i < self.members@.len() ==> (#[trigger] self.members@[i]).legal(m)
    }

    fn all(m: usize) -> (r: Vec<Self>)
        ensures
            forall|x: Group| models(r@).contains(x) <==> Self::universe(m).contains(x),
            forall|i: int| 0 <= i < r@.len() ==> (#[trigger] r@[i]).wf(),
            models(r@) == coalition_seq(m),
    {
        let all_candidates = Candidate::all(m);
        let subsets = powerset(&all_candidates);
        let mut r: Vec<Coalition> = Vec::new();
        let mut i: usize = 0;
        while i < subsets.len()
            invariant
                i <= subsets.len(),
                sorted(r@),
                forall|k: int| 0 <= k < r@.len() ==> (#[trigger] r@[k]).wf(),
                forall|x: Group|
                    models(r@).contains(x) <==> (x.len() > 0 && exists|j: int|
                        0 <= j < i && #[trigger] models(subsets@)[j] == x),
            decreases subsets.len() - i,
        {
            if subsets[i].len() > 0 {
                let ghost prev = models(r@);
                let ghost old_r = r@;
                let coalition = Coalition { members: subsets[i].copy() };
                let ghost cm = coalition.model();
                proof {
                    assert(cm == models(subsets@)[i as int]);
                    assert(models(subsets@).contains(cm));
                    assert(subset_of(Candidate::less(), cm, models(all_candidates@)));
                    assert(coalition.wf());
                }
                insert(&mut r, coalition);
                proof {
                    assert forall|k: int| 0 <= k < r@.len() implies (#[trigger] r@[k]).wf() by {
                        let x = models(r@)[k];
                        assert(models(r@).contains(x));
                        if prev.contains(x) {
                            let t = choose|t: int| 0 <= t < prev.len() && prev[t] == x;
                            assert(old_r[t].wf());
                            assert(models(old_r[t].members@) == x);
                        }
                        assert(increasing(Candidate::less(), x));
                        assert(models(r@[k].members@) == x);
                    }
                    assert forall|x: Group|
                        models(r@).contains(x) <==> (x.len() > 0 && exists|j: int|
                            0 <= j < i + 1 && #[trigger] models(subsets@)[j] == x) by {
                        if models(r@).contains(x) {
                            if prev.contains(x) {
                                let j = choose|j: int|
                                    0 <= j < i && #[trigger] models(subsets@)[j] == x;
                                assert(0 <= j < i + 1 && models(subsets@)[j] == x);
                            } else {
                                assert(models(subsets@)[i as int] == x);
                            }
                        }
                        if x.len() > 0 && exists|j: int|
                            0 <= j < i + 1 && #[trigger] models(subsets@)[j] == x {
                            let j = choose|j: int|
                                0 <= j < i + 1 && #[trigger] models(subsets@)[j] == x;
                            if j < i {
                                assert(prev.contains(x));
                            }
                        }
                    }
                }
            } else {
                proof {
                    assert forall|x: Group|
                        models(r@).contains(x) <==> (x.len() > 0 && exists|j: int|
                            0 <= j < i + 1 && #[trigger] models(subsets@)[j] == x) by {
                        if x.len() > 0 && exists|j: int|
                            0 <= j < i + 1 && #[trigger] models(subsets@)[j] == x {
                            let j = choose|j: int|
                                0 <= j < i + 1 && #[trigger] models(subsets@)[j] == x;
                            assert(j < i);
                        }
                        if models(r@).contains(x) {
                            let j = choose|j: int|
                                0 <= j < i && #[trigger] models(subsets@)[j] == x;
                            assert(0 <= j < i + 1 && models(subsets@)[j] == x);
                        }
                    }
                }
            }
            i += 1;
        }
        proof {
            assert forall|x: Group| models(r@).contains(x) <==> Self::universe(m).contains(x) by {
                if models(r@).contains(x) {
                    let j = choose|j: int| 0 <= j < i && #[trigger] models(subsets@)[j] == x;
                    assert(models(subsets@).contains(x));
                }
                if Self::universe(m).contains(x) {
                    assert(models(subsets@).contains(x));
                    let j = choose|j: int| 0 <= j < models(subsets@).len() && models(subsets@)[j] == x;
                    assert(0 <= j < i && models(subsets@)[j] == x);
                }
            }
            Coalition::lemma_order();
            lemma_sorted_unique(Coalition::less(), models(r@), coalition_seq(m));
        }
        r
    }

    fn is_legal(&self, m: usize) -> (b: bool) {
        if self.members.len() == 0 || self.members.len() > m {
            return false;
        }
        let mut i: usize = 0;
        while i < self.members.len()
            invariant
                i <= self.members.len(),
                forall|j: int| 0 <= j < i ==> (#[trigger] self.members@[j]).legal(m),
            decreases self.members.len() - i,
        {
            if !self.members[i].is_legal(m) {
                return false;
            }
            i += 1;
        }
        true
    }
}

} // verus!
