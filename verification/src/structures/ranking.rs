//! Rankings: weak orders of the partitions, best class first.
use vstd::prelude::*;
use crate::order::{increasing, models, Keyed, Order};
use crate::sorted::{insert, member, position, sorted};
use crate::structures::Structure;
use crate::utils::counting::{apart, class_sizes, lemma_division_size};
use crate::utils::permutations::{
    arranged, heads_differ, in_order, index_permutations, is_permutation, lemma_in_order,
    lemma_permutation_onto, placed_at, places,
};
use crate::utils::structures::{divide_into_classes, in_some_class, is_partition_of};
use crate::utils::{bell_number, bell_wide, lemma_bell_positive};
use crate::structures::candidate::{Candidate, Name};
use crate::structures::coalition::{Coalition, Group};
use crate::structures::partition::{
    lemma_partition_legal, lemma_partition_seq, paired, partition_seq, same_elements, split_by,
    splittable, Blocks, Partition,
};

verus! {

/// An indifference class as the increasing sequence of its partitions.
pub type Tier = Seq<Blocks>;

/// A ranking as the sequence of its indifference classes, best first.
pub type Tiers = Seq<Tier>;

/// How the partitions of one indifference class stand to a coalition.
#[derive(Clone, Copy, Debug, PartialEq, Eq, Structural)]
pub enum IndiffTypes {
    /// Every partition of the class keeps the coalition apart.
    Split,
    /// Some do, some do not.
    Mixed,
    /// None does.
    NotSplit,
}

/// A sequence of indifference classes; the partitions of an earlier class
/// are preferred to those of a later one.
#[derive(Clone, Debug, PartialEq, Eq, PartialOrd, Ord, Hash)]
pub struct Ranking {
    pub ranking: Vec<Vec<Partition>>,
}

impl View for Ranking {
    type V = Tiers;

    open spec fn view(&self) -> Tiers {
        models(self.ranking@)
    }
}

impl Keyed for Ranking {
    type Model = Tiers;

    open spec fn model(&self) -> Tiers {
        models(self.ranking@)
    }

    open spec fn less() -> spec_fn(Tiers, Tiers) -> bool {
        <Vec<Vec<Partition>> as Keyed>::less()
    }

    proof fn lemma_order() {
        <Vec<Vec<Partition>> as Keyed>::lemma_order();
        assert(Self::less() == <Vec<Vec<Partition>> as Keyed>::less());
    }

    fn compare(&self, other: &Self) -> (o: Order) {
        assert(Self::less() == <Vec<Vec<Partition>> as Keyed>::less());
        assert(self.model() == self.ranking.model());
        self.ranking.compare(&other.ranking)
    }

    fn copy(&self) -> (r: Self) {
        Ranking { ranking: self.ranking.copy() }
    }
}

/// Some class of `r` holds `p`.
pub open spec fn ranks(r: Tiers, p: Blocks) -> bool {
    exists|i: int| 0 <= i < r.len() && (#[trigger] r[i]).contains(p)
}

/// The index of the first class of `r` that holds `p`.
pub open spec fn class_of(r: Tiers, p: Blocks) -> int
    recommends
        ranks(r, p),
{
    choose|i: int|
        0 <= i < r.len() && (#[trigger] r[i]).contains(p) && forall|j: int|
            0 <= j < i ==> !(#[trigger] r[j]).contains(p)
}

/// The first class that holds `p` exists and is the only index with the
/// properties that define `class_of`.
pub proof fn lemma_class_of(r: Tiers, p: Blocks, i: int)
    requires
        0 <= i < r.len(),
        r[i].contains(p),
        forall|j: int| 0 <= j < i ==> !(#[trigger] r[j]).contains(p),
    ensures
        ranks(r, p),
        class_of(r, p) == i,
{
    let c = class_of(r, p);
    assert(0 <= c < r.len() && r[c].contains(p) && forall|j: int|
        0 <= j < c ==> !(#[trigger] r[j]).contains(p));
    if c < i {
        assert(!r[c].contains(p));
    }
    if i < c {
        assert(!r[i].contains(p));
    }
}

/// How the class `t` stands to the coalition `g`.
pub open spec fn kind_of(t: Tier, g: Group) -> IndiffTypes {
    if forall|i: int| 0 <= i < t.len() ==> split_by(#[trigger] t[i], g) {
        IndiffTypes::Split
    } else if forall|i: int| 0 <= i < t.len() ==> !split_by(#[trigger] t[i], g) {
        IndiffTypes::NotSplit
    } else {
        IndiffTypes::Mixed
    }
}

/// The kinds of the classes of `r` that are not empty, in order.
pub open spec fn class_kinds(r: Tiers, g: Group) -> Seq<IndiffTypes>
    decreases r.len(),
{
    if r.len() == 0 {
        Seq::empty()
    } else if r.last().len() == 0 {
        class_kinds(r.drop_last(), g)
    } else {
        class_kinds(r.drop_last(), g).push(kind_of(r.last(), g))
    }
}

/// The number of classes of `r` that are not empty.
pub open spec fn filled(r: Tiers) -> nat
    decreases r.len(),
{
    if r.len() == 0 {
        0
    } else if r.last().len() == 0 {
        filled(r.drop_last())
    } else {
        filled(r.drop_last()) + 1
    }
}

/// There are as many kinds as classes that are not empty.
pub proof fn lemma_filled(r: Tiers, g: Group)
    ensures
        class_kinds(r, g).len() == filled(r),
    decreases r.len(),
{
    if r.len() > 0 {
        lemma_filled(r.drop_last(), g);
    }
}

/// Of every partition of `r` it can be asked whether it keeps `g`
/// apart.
pub open spec fn all_splittable(r: Tiers, g: Group) -> bool {
    forall|k: int, i: int|
        0 <= k < r.len() && 0 <= i < r[k].len() ==> splittable(#[trigger] r[k][i], g)
}

/// It can be asked whether `r` splits `g`: `r` has exactly one class
/// that is not empty, of which nothing has to be asked, or the question
/// can be asked of every partition of `r`.
pub open spec fn split_defined(r: Tiers, g: Group) -> bool {
    filled(r) == 1 || all_splittable(r, g)
}

/// `a` classes that split, then one that is mixed if `b` is `a + 1`, then
/// classes that do not split.
pub open spec fn shaped(k: Seq<IndiffTypes>, a: int, b: int) -> bool {
    &&& 0 <= a <= b <= k.len()
    &&& b <= a + 1
    &&& forall|i: int| 0 <= i < a ==> k[i] == IndiffTypes::Split
    &&& forall|i: int| a <= i < b ==> k[i] == IndiffTypes::Mixed
    &&& forall|i: int| b <= i < k.len() ==> k[i] == IndiffTypes::NotSplit
}

/// More than one class, the splitting classes first, and no mixed
/// class.
pub open spec fn strict_split(k: Seq<IndiffTypes>) -> bool {
    k.len() > 1 && exists|a: int| shaped(k, a, a)
}

/// One class only, or the splitting classes first, then at most one mixed
/// class, then the others.
pub open spec fn weak_split(k: Seq<IndiffTypes>) -> bool {
    k.len() == 1 || exists|a: int, b: int| shaped(k, a, b)
}

/// A ranking that splits a coalition strictly also splits it weakly.
pub proof fn lemma_strict_split_is_weak(r: Tiers, g: Group)
    requires
        strict_split(class_kinds(r, g)),
    ensures
        weak_split(class_kinds(r, g)),
{
    let k = class_kinds(r, g);
    let a = choose|a: int| shaped(k, a, a);
    assert(shaped(k, a, a));
}

/// Whether `k` has the shape that `mixed` allows: with `mixed` one mixed
/// class may stand between the classes that split and the others.
fn scan(k: &Vec<IndiffTypes>, mixed: bool) -> (r: bool)
    ensures
        mixed ==> r == exists|a: int, b: int| shaped(k@, a, b),
        !mixed ==> r == exists|a: int| shaped(k@, a, a),
{
    let n = k.len();
    let mut a: usize = 0;
    while a < n && k[a] == IndiffTypes::Split
        invariant
            a <= n,
            n == k.len(),
            forall|i: int| 0 <= i < a ==> k@[i] == IndiffTypes::Split,
        decreases n - a,
    {
        a += 1;
    }
    let mut b: usize = a;
    if mixed && b < n && k[b] == IndiffTypes::Mixed {
        b += 1;
    }
    let mut c: usize = b;
    while c < n && k[c] == IndiffTypes::NotSplit
        invariant
            b <= c <= n,
            n == k.len(),
            forall|i: int| b <= i < c ==> k@[i] == IndiffTypes::NotSplit,
        decreases n - c,
    {
        c += 1;
    }
    proof {
        if c == n {
            assert(shaped(k@, a as int, b as int));
        } else {
            assert forall|x: int, y: int| !shaped(k@, x, y) || (!mixed && x != y) by {
                if shaped(k@, x, y) && (mixed || x == y) {
                    // the leading run of splitting classes has length a
                    if x < a {
                        if y == x {
                            assert(k@[x] == IndiffTypes::NotSplit);
                        } else {
                            assert(k@[x] == IndiffTypes::Mixed);
                        }
                    }
                    if x > a {
                        assert(k@[a as int] == IndiffTypes::Split);
                    }
                    assert(x == a);
                    if y > b {
                        assert(k@[a as int] == IndiffTypes::Mixed);
                    }
                    if y < b {
                        assert(k@[a as int] == IndiffTypes::NotSplit);
                    }
                    assert(y == b);
                    assert(k@[c as int] == IndiffTypes::NotSplit);
                }
            }
        }
    }
    c == n
}

impl Ranking {
    /// Each class is a set of partitions in canonical form.
    pub open spec fn wf(&self) -> bool {
        forall|i: int| 0 <= i < self.ranking@.len() ==> {
            &&& sorted((#[trigger] self.ranking@[i])@)
            &&& forall|j: int|
                0 <= j < self.ranking@[i]@.len() ==> (#[trigger] self.ranking@[i]@[j]).wf()
        }
    }

    /// The number of indifference classes.
    pub fn num_indifference_class(&self) -> (n: usize)
        ensures
            n == self@.len(),
    {
        self.ranking.len()
    }

    /// The order type: the size of each indifference class, in order.
    pub fn order_type(&self) -> (r: Vec<usize>)
        ensures
            r@.len() == self@.len(),
            forall|i: int| 0 <= i < r@.len() ==> r@[i] == self@[i].len(),
    {
        let mut r: Vec<usize> = Vec::new();
        let mut i: usize = 0;
        while i < self.ranking.len()
            invariant
                i <= self.ranking.len(),
                r@.len() == i,
                forall|j: int| 0 <= j < i ==> r@[j] == self@[j].len(),
            decreases self.ranking.len() - i,
        {
            r.push(self.ranking[i].len());
            i += 1;
        }
        r
    }

    /// The index of the first class that holds `partition`, if any does.
    pub fn position(&self, partition: &Partition) -> (r: Option<usize>)
        ensures
            r is Some <==> ranks(self@, partition@),
            r matches Some(i) ==> i == class_of(self@, partition@) && i < self@.len(),
    {
        let mut i: usize = 0;
        while i < self.ranking.len()
            invariant
                i <= self.ranking.len(),
                forall|j: int| 0 <= j < i ==> !(#[trigger] self@[j]).contains(partition@),
            decreases self.ranking.len() - i,
        {
            if member(&self.ranking[i], partition) {
                proof {
                    lemma_class_of(self@, partition@, i as int);
                }
                return Some(i);
            }
            i += 1;
        }
        None
    }

    /// The index of the class that holds `partition`.
    pub fn index(&self, partition: &Partition) -> (i: usize)
        requires
            ranks(self@, partition@),
        ensures
            i == class_of(self@, partition@),
            i < self@.len(),
    {
        match self.position(partition) {
            Some(i) => i,
            None => {
                assert(false);
                0
            },
        }
    }

    /// Whether `partition1` stands in an earlier class than `partition2`.
    pub fn is_strictly_preferred(&self, partition1: &Partition, partition2: &Partition) -> (r: bool)
        requires
            ranks(self@, partition1@),
            ranks(self@, partition2@),
        ensures
            r == (class_of(self@, partition1@) < class_of(self@, partition2@)),
    {
        let index1 = self.index(partition1);
        let index2 = self.index(partition2);
        index1 < index2
    }

    /// Whether `partition1` stands in the same class as `partition2` or in
    /// an earlier one.
    pub fn is_preferred(&self, partition1: &Partition, partition2: &Partition) -> (r: bool)
        requires
            ranks(self@, partition1@),
            ranks(self@, partition2@),
        ensures
            r == (class_of(self@, partition1@) <= class_of(self@, partition2@)),
    {
        let index1 = self.index(partition1);
        let index2 = self.index(partition2);
        index1 <= index2
    }

    /// Whether the class with index `class_index` holds exactly the
    /// partitions of `partitions`.
    pub fn is_exacty_equiv_class(&self, class_index: usize, partitions: &Vec<Partition>) -> (r:
        bool)
        requires
            class_index < self@.len(),
        ensures
            r == same_elements(self@[class_index as int], models(partitions@)),
    {
        let class = &self.ranking[class_index];
        let ghost t = self@[class_index as int];
        let ghost s = models(partitions@);
        assert(t == models(class@));
        let mut i: usize = 0;
        while i < class.len()
            invariant
                i <= class.len(),
                t == models(class@),
                s == models(partitions@),
                forall|j: int| 0 <= j < i ==> s.contains(t[j]),
            decreases class.len() - i,
        {
            if !member(partitions, &class[i]) {
                assert(t.contains(t[i as int]));
                return false;
            }
            i += 1;
        }
        let mut i: usize = 0;
        while i < partitions.len()
            invariant
                i <= partitions.len(),
                t == models(class@),
                s == models(partitions@),
                forall|j: int| 0 <= j < t.len() ==> s.contains(t[j]),
                forall|j: int| 0 <= j < i ==> t.contains(s[j]),
            decreases partitions.len() - i,
        {
            if !member(class, &partitions[i]) {
                assert(s.contains(s[i as int]));
                return false;
            }
            i += 1;
        }
        true
    }

    /// Whether some partition of the class with index `class_index` has
    /// `coalition` as one of its coalitions.
    pub fn contains_coalition_in_indiff_class(&self, class_index: usize, coalition: &Coalition) -> (r:
        bool)
        requires
            class_index < self@.len(),
        ensures
            r == exists|j: int|
                0 <= j < self@[class_index as int].len() && (
                #[trigger] self@[class_index as int][j]).contains(coalition@),
    {
        let class = &self.ranking[class_index];
        let ghost t = self@[class_index as int];
        assert(t == models(class@));
        let mut i: usize = 0;
        while i < class.len()
            invariant
                i <= class.len(),
                t == models(class@),
                forall|j: int| 0 <= j < i ==> !(#[trigger] t[j]).contains(coalition@),
            decreases class.len() - i,
        {
            if class[i].contains(coalition) {
                assert(t[i as int].contains(coalition@));
                return true;
            }
            i += 1;
        }
        false
    }

    /// Whether some partition of the class with index `class_index` has a
    /// coalition that holds both candidates of `pair`.
    pub fn contains_pair_in_indiff_class(&self, class_index: usize, pair: &(&Candidate, &Candidate)) -> (r:
        bool)
        requires
            class_index < self@.len(),
        ensures
            r == exists|j: int|
                0 <= j < self@[class_index as int].len() && paired(
                    #[trigger] self@[class_index as int][j],
                    pair.0@,
                    pair.1@,
                ),
    {
        let class = &self.ranking[class_index];
        let ghost t = self@[class_index as int];
        assert(t == models(class@));
        let mut i: usize = 0;
        while i < class.len()
            invariant
                i <= class.len(),
                t == models(class@),
                forall|j: int| 0 <= j < i ==> !paired(#[trigger] t[j], pair.0@, pair.1@),
            decreases class.len() - i,
        {
            if class[i].contains_pair(pair) {
                assert(paired(t[i as int], pair.0@, pair.1@));
                return true;
            }
            i += 1;
        }
        false
    }

    /// Whether every partition of the class with index `class_index` has a
    /// coalition that holds both candidates of `pair`.
    pub fn every_partition_contains_pair(&self, class_index: usize, pair: &(&Candidate, &Candidate)) -> (r:
        bool)
        requires
            class_index < self@.len(),
        ensures
            r == forall|j: int|
                0 <= j < self@[class_index as int].len() ==> paired(
                    #[trigger] self@[class_index as int][j],
                    pair.0@,
                    pair.1@,
                ),
    {
        let class = &self.ranking[class_index];
        let ghost t = self@[class_index as int];
        assert(t == models(class@));
        let mut i: usize = 0;
        while i < class.len()
            invariant
                i <= class.len(),
                t == models(class@),
                forall|j: int| 0 <= j < i ==> paired(#[trigger] t[j], pair.0@, pair.1@),
            decreases class.len() - i,
        {
            if !class[i].contains_pair(pair) {
                assert(!paired(t[i as int], pair.0@, pair.1@));
                return false;
            }
            i += 1;
        }
        true
    }

    /// Whether every partition of the class with index `indiff_index` has
    /// `coalition` as one of its coalitions.
    pub fn all_coalition_in_indiff_class(&self, indiff_index: usize, coalition: &Coalition) -> (r:
        bool)
        requires
            indiff_index < self@.len(),
        ensures
            r == forall|j: int|
                0 <= j < self@[indiff_index as int].len() ==> (
                #[trigger] self@[indiff_index as int][j]).contains(coalition@),
    {
        let class = &self.ranking[indiff_index];
        let ghost t = self@[indiff_index as int];
        assert(t == models(class@));
        let mut i: usize = 0;
        while i < class.len()
            invariant
                i <= class.len(),
                t == models(class@),
                forall|j: int| 0 <= j < i ==> (#[trigger] t[j]).contains(coalition@),
            decreases class.len() - i,
        {
            if !class[i].contains(coalition) {
                assert(!t[i as int].contains(coalition@));
                return false;
            }
            i += 1;
        }
        true
    }

    /// The number of classes that are not empty.
    pub fn num_filled(&self) -> (n: usize)
        ensures
            n == filled(self@),
    {
        let mut n: usize = 0;
        let mut i: usize = 0;
        while i < self.ranking.len()
            invariant
                i <= self.ranking.len(),
                n <= i,
                n == filled(self@.take(i as int)),
            decreases self.ranking.len() - i,
        {
            proof {
                assert(self@.take(i + 1).drop_last() =~= self@.take(i as int));
                assert(self@.take(i + 1).last() == self@[i as int]);
                assert(self@[i as int].len() == self.ranking@[i as int]@.len());
            }
            if self.ranking[i].len() > 0 {
                n += 1;
            }
            i += 1;
        }
        proof {
            assert(self@.take(i as int) =~= self@);
        }
        n
    }

    /// Whether it can be asked of every partition of the ranking if it
    /// keeps `coalition` apart.
    pub fn can_split_all(&self, coalition: &Coalition) -> (b: bool)
        ensures
            b == all_splittable(self@, coalition@),
    {
        let mut k: usize = 0;
        while k < self.ranking.len()
            invariant
                k <= self.ranking.len(),
                forall|a: int, i: int|
                    0 <= a < k && 0 <= i < self@[a].len() ==> splittable(
                        #[trigger] self@[a][i],
                        coalition@,
                    ),
            decreases self.ranking.len() - k,
        {
            let class = &self.ranking[k];
            assert(self@[k as int] == models(class@));
            let mut i: usize = 0;
            while i < class.len()
                invariant
                    i <= class.len(),
                    k < self.ranking.len(),
                    self@[k as int] == models(class@),
                    forall|j: int|
                        0 <= j < i ==> splittable(#[trigger] self@[k as int][j], coalition@),
                decreases class.len() - i,
            {
                assert(self@[k as int][i as int] == class@[i as int]@);
                if !class[i].can_split(coalition) {
                    assert(!splittable(self@[k as int][i as int], coalition@));
                    return false;
                }
                i += 1;
            }
            k += 1;
        }
        true
    }

    /// Whether it can be asked if the ranking splits `coalition`.
    pub fn is_split_defined(&self, coalition: &Coalition) -> (b: bool)
        ensures
            b == split_defined(self@, coalition@),
    {
        self.num_filled() == 1 || self.can_split_all(coalition)
    }

    /// How the class with index `i` stands to `coalition`.
    fn class_kind(&self, i: usize, coalition: &Coalition) -> (k: IndiffTypes)
        requires
            i < self@.len(),
            forall|j: int|
                0 <= j < self@[i as int].len() ==> splittable(
                    #[trigger] self@[i as int][j],
                    coalition@,
                ),
        ensures
            k == kind_of(self@[i as int], coalition@),
    {
        let class = &self.ranking[i];
        let ghost t = self@[i as int];
        assert(t == models(class@));
        let mut all = true;
        let mut none = true;
        let mut j: usize = 0;
        while j < class.len()
            invariant
                j <= class.len(),
                t == models(class@),
                all == forall|l: int| 0 <= l < j ==> split_by(#[trigger] t[l], coalition@),
                none == forall|l: int| 0 <= l < j ==> !split_by(#[trigger] t[l], coalition@),
            decreases class.len() - j,
        {
            assert(t[j as int] == class@[j as int]@);
            if class[j].is_split(coalition) {
                assert(split_by(t[j as int], coalition@));
                none = false;
            } else {
                assert(!split_by(t[j as int], coalition@));
                all = false;
            }
            j += 1;
        }
        if all {
            IndiffTypes::Split
        } else if none {
            IndiffTypes::NotSplit
        } else {
            IndiffTypes::Mixed
        }
    }

    /// The kinds of the classes that are not empty, in order. Every
    /// partition is asked whether it keeps `coalition` apart.
    pub fn split_helper(&self, coalition: &Coalition) -> (r: Vec<IndiffTypes>)
        requires
            all_splittable(self@, coalition@),
        ensures
            r@ == class_kinds(self@, coalition@),
    {
        let mut r: Vec<IndiffTypes> = Vec::new();
        let mut i: usize = 0;
        while i < self.ranking.len()
            invariant
                i <= self.ranking.len(),
                r@ == class_kinds(self@.take(i as int), coalition@),
            decreases self.ranking.len() - i,
        {
            proof {
                assert(self@.take(i + 1).drop_last() =~= self@.take(i as int));
                assert(self@.take(i + 1).last() == self@[i as int]);
            }
            if self.ranking[i].len() > 0 {
                r.push(self.class_kind(i, coalition));
            }
            i += 1;
        }
        proof {
            assert(self@.take(i as int) =~= self@);
        }
        r
    }

    /// Whether the ranking splits `coalition` strictly: it has more than
    /// one class that is not empty, the classes whose partitions all keep
    /// the coalition apart come first, those whose partitions all do not
    /// come last, and no class is mixed.
    pub fn is_strict_split(&self, coalition: &Coalition) -> (r: bool)
        requires
            split_defined(self@, coalition@),
        ensures
            r == strict_split(class_kinds(self@, coalition@)),
    {
        proof {
            lemma_filled(self@, coalition@);
        }
        if self.num_filled() == 1 {
            return false;
        }
        let helper = self.split_helper(coalition);
        if helper.len() == 0 {
            return false;
        }
        scan(&helper, false)
    }

    /// Whether the ranking splits `coalition` weakly: as strictly, but one
    /// mixed class may stand between the two groups of classes, and a
    /// ranking with one class only always does.
    pub fn is_weakly_split(&self, coalition: &Coalition) -> (r: bool)
        requires
            split_defined(self@, coalition@),
        ensures
            r == weak_split(class_kinds(self@, coalition@)),
    {
        proof {
            lemma_filled(self@, coalition@);
        }
        if self.num_filled() == 1 {
            return true;
        }
        let helper = self.split_helper(coalition);
        scan(&helper, true)
    }
}

/// The number of partitions in all classes of `r` together.
pub open spec fn ranked_count(r: Tiers) -> nat {
    class_sizes(r)
}

/// `r` ranks the partitions of `m` candidates: its classes are sets of
/// such partitions, none of them empty, and every partition is in
/// exactly one class.
pub open spec fn is_ranking(r: Tiers, m: usize) -> bool {
    &&& forall|i: int|
        0 <= i < partition_seq(m).len() ==> in_some_class(r, #[trigger] partition_seq(m)[i])
    &&& forall|k: int|
        0 <= k < r.len() ==> (#[trigger] r[k]).len() > 0 && increasing(Partition::less(), r[k])
    &&& forall|k: int, i: int|
        0 <= k < r.len() && 0 <= i < r[k].len() ==> Partition::universe(m).contains(
            #[trigger] r[k][i],
        )
    &&& forall|k: int, l: int, i: int, j: int|
        0 <= k < r.len() && 0 <= l < r.len() && 0 <= i < r[k].len() && 0 <= j < r[l].len()
            && #[trigger] r[k][i] == #[trigger] r[l][j] ==> k == l
}

/// The classes of a legal ranking hold as many partitions as there are
/// partitions of the candidates: the Bell number of their number.
pub proof fn lemma_legal_ranking_size(r: Ranking, m: usize)
    requires
        r.legal(m),
    ensures
        ranked_count(r@) == bell_number(m as nat),
        ranked_count(r@) == partition_seq(m).len(),
{
    lemma_partition_seq(m);
}

/// A ranking of the partitions of `m` candidates has a class, and its
/// classes hold as many partitions as the Bell number of `m` says.
pub proof fn lemma_ranking_size(x: Tiers, m: usize)
    requires
        is_ranking(x, m),
    ensures
        1 <= x.len() <= bell_number(m as nat),
        ranked_count(x) == bell_number(m as nat),
{
    let less = Partition::less();
    let ps = partition_seq(m);
    Partition::lemma_order();
    lemma_partition_seq(m);
    lemma_bell_positive(m as nat);
    assert(apart(less, x));
    assert forall|k: int, i: int| 0 <= k < x.len() && 0 <= i < x[k].len() implies ps.contains(
        #[trigger] x[k][i],
    ) by {
        assert(Partition::universe(m).contains(x[k][i]));
    }
    lemma_division_size(less, x, ps);
    assert(in_some_class(x, ps[0]));
}

/// Every ranking of the partitions of `m` candidates is legal.
pub proof fn lemma_ranking_legal(r: Ranking, m: usize)
    requires
        m >= 1,
        is_ranking(r@, m),
    ensures
        r.legal(m),
{
    lemma_ranking_size(r@, m);
    assert forall|k: int, i: int|
        0 <= k < r.ranking@.len() && 0 <= i < r.ranking@[k]@.len() implies (
    #[trigger] r.ranking@[k]@[i]).legal(m) by {
        let p = r.ranking@[k]@[i];
        assert(r@[k] == models(r.ranking@[k]@));
        assert(r@[k][i] == p@);
        assert(Partition::universe(m).contains(r@[k][i]));
        lemma_partition_legal(p, m);
    }
}

/// The classes before the one with index `n` hold at most as many
/// partitions as `n` vectors can.
pub proof fn lemma_ranked_count_bound(r: Tiers, n: int)
    requires
        0 <= n <= r.len(),
        forall|k: int| 0 <= k < r.len() ==> (#[trigger] r[k]).len() <= usize::MAX,
    ensures
        ranked_count(r.take(n)) <= n * usize::MAX,
    decreases n,
{
    if n > 0 {
        assert(r.take(n).drop_last() =~= r.take(n - 1));
        assert(r.take(n).last() == r[n - 1]);
        lemma_ranked_count_bound(r, n - 1);
        assert((n - 1) * usize::MAX + usize::MAX == n * usize::MAX) by (nonlinear_arith);
    } else {
        assert(r.take(0).len() == 0);
    }
}

impl Structure for Ranking {
    /// There is no ranking of the partitions of no candidates.
    open spec fn listable(m: usize) -> bool {
        m >= 1
    }

    open spec fn universe(m: usize) -> Set<Tiers> {
        Set::new(|r: Tiers| is_ranking(r, m))
    }

    /// Every partition of every class is legal, and the classes hold as
    /// many partitions as the candidates have.
    open spec fn legal(&self, m: usize) -> bool {
        &&& forall|k: int, i: int|
            0 <= k < self.ranking@.len() && 0 <= i < self.ranking@[k]@.len() ==> (
            #[trigger] self.ranking@[k]@[i]).legal(m)
        &&& ranked_count(self@) == bell_number(m as nat)
    }

    fn all(m: usize) -> (r: Vec<Self>)
        ensures
            forall|x: Tiers| models(r@).contains(x) <==> is_ranking(x, m),
            forall|i: int| 0 <= i < r@.len() ==> (#[trigger] r@[i]).legal(m),
    {
        let partitions = Partition::all(m);
        let mut r: Vec<Ranking> = Vec::new();
        let ghost ps = models(partitions@);
        proof {
            lemma_bell_positive(m as nat);
        }
        let mut done: usize = 0;
        while done < partitions.len()
            invariant
                done <= partitions.len(),
                sorted(partitions@),
                ps == models(partitions@),
                forall|x: Blocks| ps.contains(x) <==> Partition::universe(m).contains(x),
                ps == partition_seq(m),
                sorted(r@),
                forall|x: Tiers| models(r@).contains(x) ==> is_ranking(x, m),
                forall|q: Tiers, o: Seq<usize>|
                    1 <= q.len() <= done && is_partition_of(Partition::less(), q, ps)
                        && is_permutation(o, q.len()) ==> models(r@).contains(
                        #[trigger] arranged(q, o),
                    ),
            decreases partitions.len() - done,
        {
            let num_equiv: usize = done + 1;
            let equiv_classes = divide_into_classes(&partitions, num_equiv);
            let permutations = index_permutations(num_equiv);
            let ghost es = models(equiv_classes@);
            proof {
                assert forall|a: int| 0 <= a < equiv_classes@.len() implies (
                #[trigger] equiv_classes@[a])@.len() == num_equiv && is_partition_of(
                    Partition::less(),
                    equiv_classes@[a].model(),
                    ps,
                ) by {
                    let q = models(equiv_classes@)[a];
                    assert(models(equiv_classes@).contains(q));
                    assert(equiv_classes@[a]@.len() == q.len());
                }
            }
            let mut d: usize = 0;
            while d < equiv_classes.len()
                invariant
                    d <= equiv_classes.len(),
                    1 <= num_equiv <= partitions.len(),
                    num_equiv == done + 1,
                    ps == models(partitions@),
                    ps == partition_seq(m),
                    es == models(equiv_classes@),
                    forall|x: Blocks| ps.contains(x) <==> Partition::universe(m).contains(x),
                    forall|a: int|
                        0 <= a < equiv_classes@.len() ==> (#[trigger] equiv_classes@[a])@.len()
                            == num_equiv && is_partition_of(
                            Partition::less(),
                            equiv_classes@[a].model(),
                            ps,
                        ),
                    forall|i: int|
                        0 <= i < permutations@.len() ==> is_permutation(
                            (#[trigger] permutations@[i])@,
                            num_equiv as nat,
                        ),
                    forall|o: Seq<usize>|
                        is_permutation(o, num_equiv as nat) ==> exists|i: int|
                            0 <= i < permutations@.len() && (#[trigger] permutations@[i])@ == o,
                    sorted(r@),
                    forall|x: Tiers| models(r@).contains(x) ==> is_ranking(x, m),
                    forall|q: Tiers, o: Seq<usize>|
                        1 <= q.len() <= done && is_partition_of(Partition::less(), q, ps)
                            && is_permutation(o, q.len()) ==> models(r@).contains(
                            #[trigger] arranged(q, o),
                        ),
                    forall|a: int, o: Seq<usize>|
                        0 <= a < d && is_permutation(o, num_equiv as nat) ==> models(r@).contains(
                            #[trigger] arranged(es[a], o),
                        ),
                decreases equiv_classes.len() - d,
            {
                let classes = &equiv_classes[d];
                let ghost cm = classes.model();
                assert(cm == es[d as int]);
                let mut p: usize = 0;
                while p < permutations.len()
                    invariant
                        p <= permutations.len(),
                        d < equiv_classes.len(),
                        classes == &equiv_classes[d as int],
                        cm == classes.model(),
                        classes@.len() == num_equiv,
                        ps == models(partitions@),
                        ps == partition_seq(m),
                        es == models(equiv_classes@),
                        forall|x: Blocks| ps.contains(x) <==> Partition::universe(m).contains(x),
                        is_partition_of(Partition::less(), classes.model(), ps),
                        forall|i: int|
                            0 <= i < permutations@.len() ==> is_permutation(
                                (#[trigger] permutations@[i])@,
                                num_equiv as nat,
                            ),
                        sorted(r@),
                        forall|x: Tiers| models(r@).contains(x) ==> is_ranking(x, m),
                        forall|q: Tiers, o: Seq<usize>|
                            1 <= q.len() <= done && is_partition_of(Partition::less(), q, ps)
                                && is_permutation(o, q.len()) ==> models(r@).contains(
                                #[trigger] arranged(q, o),
                            ),
                        forall|a: int, o: Seq<usize>|
                            0 <= a < d && is_permutation(o, num_equiv as nat) ==> models(
                                r@,
                            ).contains(#[trigger] arranged(es[a], o)),
                        forall|b: int|
                            0 <= b < p ==> models(r@).contains(
                                arranged(cm, (#[trigger] permutations@[b])@),
                            ),
                    decreases permutations.len() - p,
                {
                    let ranking = arrange(classes, &permutations[p], Ghost(ps), Ghost(m));
                    let ghost prev = models(r@);
                    let ghost rm = ranking.model();
                    proof {
                        assert(rm =~= arranged(cm, permutations@[p as int]@));
                    }
                    insert(&mut r, ranking);
                    proof {
                        assert forall|x: Tiers| models(r@).contains(x) implies is_ranking(x, m) by {
                            if !prev.contains(x) {
                                assert(x == rm);
                            }
                        }
                        assert forall|x: Tiers| prev.contains(x) implies models(r@).contains(x) by {}
                    }
                    p += 1;
                }
                proof {
                    assert forall|a: int, o: Seq<usize>|
                        0 <= a < d + 1 && is_permutation(o, num_equiv as nat) implies models(
                        r@,
                    ).contains(#[trigger] arranged(es[a], o)) by {
                        if a == d {
                            let i = choose|i: int|
                                0 <= i < permutations@.len() && (#[trigger] permutations@[i])@ == o;
                            assert(models(r@).contains(arranged(cm, permutations@[i]@)));
                        }
                    }
                }
                d += 1;
            }
            proof {
                assert forall|q: Tiers, o: Seq<usize>|
                    1 <= q.len() <= done + 1 && is_partition_of(Partition::less(), q, ps)
                        && is_permutation(o, q.len()) implies models(r@).contains(
                    #[trigger] arranged(q, o),
                ) by {
                    if q.len() == done + 1 {
                        assert(es.contains(q));
                        let a = choose|a: int| 0 <= a < es.len() && es[a] == q;
                        assert(models(r@).contains(arranged(es[a], o)));
                    }
                }
            }
            done += 1;
        }
        proof {
            assert forall|x: Tiers| is_ranking(x, m) implies models(r@).contains(x) by {
                lemma_ranking_arranged(x, m, ps);
                let q = in_order(Partition::less(), x);
                let o = places(Partition::less(), x);
                assert(models(r@).contains(arranged(q, o)));
            }
            assert forall|i: int| 0 <= i < r@.len() implies (#[trigger] r@[i]).legal(m) by {
                assert(models(r@).contains(models(r@)[i]));
                lemma_ranking_legal(r@[i], m);
            }
        }
        r
    }

    fn is_legal(&self, m: usize) -> (b: bool) {
        let mut sum: u128 = 0;
        let mut k: usize = 0;
        while k < self.ranking.len()
            invariant
                k <= self.ranking.len(),
                sum == ranked_count(self@.take(k as int)),
                forall|a: int, i: int|
                    0 <= a < k && 0 <= i < self.ranking@[a]@.len() ==> (
                    #[trigger] self.ranking@[a]@[i]).legal(m),
            decreases self.ranking.len() - k,
        {
            let class = &self.ranking[k];
            let mut i: usize = 0;
            while i < class.len()
                invariant
                    i <= class.len(),
                    k < self.ranking.len(),
                    class == &self.ranking[k as int],
                    forall|j: int| 0 <= j < i ==> (#[trigger] class@[j]).legal(m),
                decreases class.len() - i,
            {
                if !class[i].is_legal(m) {
                    return false;
                }
                i += 1;
            }
            proof {
                assert(self@.take(k + 1).drop_last() =~= self@.take(k as int));
                assert(self@.take(k + 1).last() == self@[k as int]);
                assert(self@[k as int].len() == class@.len());
                assert forall|j: int| 0 <= j < self@.len() implies (#[trigger] self@[j]).len()
                    <= usize::MAX by {
                    assert(self@[j].len() == self.ranking@[j].len());
                }
                lemma_ranked_count_bound(self@, k + 1);
                assert((k + 1) * usize::MAX <= u128::MAX) by (nonlinear_arith)
                    requires
                        k + 1 <= usize::MAX,
                        usize::MAX <= 0xffff_ffff_ffff_ffff,
                ;
            }
            sum = sum + class.len() as u128;
            k += 1;
        }
        proof {
            assert(self@.take(k as int) =~= self@);
        }
        match bell_wide(m) {
            Some(b) => sum == b,
            None => false,
        }
    }
}

/// A ranking is a division of the partitions into classes, with the
/// classes arranged in some order.
proof fn lemma_ranking_arranged(x: Tiers, m: usize, ps: Seq<Blocks>)
    requires
        is_ranking(x, m),
        ps == partition_seq(m),
        increasing(Partition::less(), ps),
        forall|b: Blocks| ps.contains(b) <==> Partition::universe(m).contains(b),
        1 <= ps.len() <= usize::MAX,
    ensures
        1 <= x.len() <= ps.len(),
        in_order(Partition::less(), x).len() == x.len(),
        is_partition_of(Partition::less(), in_order(Partition::less(), x), ps),
        is_permutation(places(Partition::less(), x), x.len()),
        arranged(in_order(Partition::less(), x), places(Partition::less(), x)) == x,
{
    let less = Partition::less();
    Partition::lemma_order();
    assert(apart(less, x));
    assert forall|k: int, i: int| 0 <= k < x.len() && 0 <= i < x[k].len() implies ps.contains(
        #[trigger] x[k][i],
    ) by {
        assert(Partition::universe(m).contains(x[k][i]));
    }
    lemma_division_size(less, x, ps);
    assert(in_some_class(x, ps[0]));
    assert forall|i: int, j: int| 0 <= i < j < x.len() implies (#[trigger] x[i])[0] != (
    #[trigger] x[j])[0] by {
        assert(x[i].len() > 0 && x[j].len() > 0);
        if x[i][0] == x[j][0] {
            assert(i == j);
        }
    }
    lemma_in_order(less, x);
    let q = in_order(less, x);
    let p = places(less, x);
    assert forall|k: int| 0 <= k < q.len() implies (#[trigger] q[k]).len() > 0 && increasing(
        less,
        q[k],
    ) by {
        assert(q[k] == x[placed_at(less, x, k)]);
    }
    assert forall|k: int, i: int| 0 <= k < q.len() && 0 <= i < q[k].len() implies ps.contains(
        #[trigger] q[k][i],
    ) by {
        assert(q[k] == x[placed_at(less, x, k)]);
    }
    assert forall|i: int| 0 <= i < ps.len() implies in_some_class(q, #[trigger] ps[i]) by {
        assert(in_some_class(x, ps[i]));
        let j = choose|j: int| 0 <= j < x.len() && (#[trigger] x[j]).contains(ps[i]);
        assert(placed_at(less, x, p[j] as int) == j);
        assert(q[p[j] as int] == x[j]);
        assert(q[p[j] as int].contains(ps[i]));
    }
    assert forall|k: int, l: int, i: int, j: int|
        0 <= k < q.len() && 0 <= l < q.len() && 0 <= i < q[k].len() && 0 <= j < q[l].len()
            && #[trigger] q[k][i] == #[trigger] q[l][j] implies k == l by {
        let a = placed_at(less, x, k);
        let b = placed_at(less, x, l);
        assert(q[k] == x[a] && q[l] == x[b]);
        assert(x[a][i] == x[b][j]);
        assert(a == b);
    }
}

/// The classes of `classes` in the order that `order` gives.
fn arrange(classes: &Vec<Vec<Partition>>, order: &Vec<usize>, Ghost(ps): Ghost<Seq<Blocks>>, Ghost(m): Ghost<usize>) -> (r:
    Ranking)
    requires
        is_permutation(order@, classes@.len() as nat),
        is_partition_of(Partition::less(), classes.model(), ps),
        forall|x: Blocks| ps.contains(x) ==> Partition::universe(m).contains(x),
        ps == partition_seq(m),
    ensures
        is_ranking(r@, m),
        r@.len() == classes@.len(),
        forall|j: int| 0 <= j < r@.len() ==> r@[j] == classes.model()[order@[j] as int],
{
    let ghost cm = classes.model();
    let mut ranking: Vec<Vec<Partition>> = Vec::new();
    let mut j: usize = 0;
    while j < order.len()
        invariant
            j <= order.len(),
            ranking@.len() == j,
            cm == classes.model(),
            forall|l: int|
                0 <= l < j ==> (#[trigger] ranking@[l]).model() == cm[order@[l] as int],
        decreases order.len() - j,
    {
        assert(order@[j as int] < classes@.len());
        ranking.push(classes[order[j]].copy());
        j += 1;
    }
    let r = Ranking { ranking };
    proof {
        let t = r@;
        assert forall|k: int| 0 <= k < t.len() implies (#[trigger] t[k]).len() > 0 && increasing(
            Partition::less(),
            t[k],
        ) by {
            assert(t[k] == cm[order@[k] as int]);
        }
        assert forall|k: int, i: int|
            0 <= k < t.len() && 0 <= i < t[k].len() implies Partition::universe(m).contains(
            #[trigger] t[k][i],
        ) by {
            assert(t[k] == cm[order@[k] as int]);
            assert(ps.contains(cm[order@[k] as int][i]));
        }
        assert forall|i: int| 0 <= i < ps.len() implies in_some_class(t, #[trigger] ps[i]) by {
            assert(in_some_class(cm, ps[i]));
            let a = choose|a: int| 0 <= a < cm.len() && (#[trigger] cm[a]).contains(ps[i]);
            lemma_permutation_onto(order@, a);
            let k = choose|k: int| 0 <= k < order@.len() && order@[k] == a;
            assert(t[k] == cm[order@[k] as int]);
            assert(t[k].contains(ps[i]));
        }
        assert forall|k: int, l: int, i: int, j: int|
            0 <= k < t.len() && 0 <= l < t.len() && 0 <= i < t[k].len() && 0 <= j < t[l].len()
                && #[trigger] t[k][i] == #[trigger] t[l][j] implies k == l by {
            let a = order@[k] as int;
            let b = order@[l] as int;
            assert(t[k] == cm[a] && t[l] == cm[b]);
            assert(cm[a][i] == cm[b][j]);
            assert(a == b);
            if k < l {
                assert(order@[k] != order@[l]);
            }
            if l < k {
                assert(order@[l] != order@[k]);
            }
        }
    }
    r
}

} // verus!
