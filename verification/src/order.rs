//! Total orders on values and on sequences of values.
//!
//! Every set of the library is kept as a vector whose elements increase
//! strictly, so a set has one representation only and two sets are equal
//! exactly when their vectors are.
use vstd::prelude::*;

verus! {

/// The outcome of comparing two values.
#[derive(Clone, Copy, Debug, PartialEq, Eq, Structural)]
pub enum Order {
    Less,
    Equal,
    Greater,
}

/// `less` is irreflexive, transitive and total.
pub open spec fn strict_total<T>(less: spec_fn(T, T) -> bool) -> bool {
    &&& forall|a: T| !#[trigger] less(a, a)
    &&& forall|a: T, b: T, c: T| #[trigger] less(a, b) && #[trigger] less(b, c) ==> less(a, c)
    &&& forall|a: T, b: T| #[trigger] less(a, b) || a == b || less(b, a)
}

/// How `a` stands to `b` under `less`.
pub open spec fn order_of<T>(less: spec_fn(T, T) -> bool, a: T, b: T) -> Order {
    if less(a, b) {
        Order::Less
    } else if a == b {
        Order::Equal
    } else {
        Order::Greater
    }
}

/// `a` and `b` agree on their first `k` elements.
pub open spec fn common_prefix<T>(a: Seq<T>, b: Seq<T>, k: int) -> bool {
    &&& 0 <= k <= a.len()
    &&& k <= b.len()
    &&& forall|j: int| 0 <= j < k ==> a[j] == b[j]
}

/// After a common prefix of length `k`, `a` comes first: it ends there and
/// `b` goes on, or its next element is the smaller one.
pub open spec fn decided_at<T>(less: spec_fn(T, T) -> bool, a: Seq<T>, b: Seq<T>, k: int) -> bool {
    &&& common_prefix(a, b, k)
    &&& k < b.len()
    &&& (k == a.len() || less(a[k], b[k]))
}

/// The lexicographic order on sequences that `less` induces.
pub open spec fn lex_less<T>(less: spec_fn(T, T) -> bool, a: Seq<T>, b: Seq<T>) -> bool {
    exists|k: int| decided_at(less, a, b, k)
}

/// The lexicographic order as a relation of its own.
pub open spec fn lex<T>(less: spec_fn(T, T) -> bool) -> spec_fn(Seq<T>, Seq<T>) -> bool {
    |a: Seq<T>, b: Seq<T>| lex_less(less, a, b)
}

/// The elements of `s` increase strictly.
pub open spec fn increasing<T>(less: spec_fn(T, T) -> bool, s: Seq<T>) -> bool {
    forall|i: int, j: int| 0 <= i < j < s.len() ==> less(s[i], s[j])
}

/// Two sequences that agree on a prefix and are not decided there either
/// agree on one more element or are equal.
proof fn lemma_lex_total_from<T>(less: spec_fn(T, T) -> bool, a: Seq<T>, b: Seq<T>, k: int)
    requires
        strict_total(less),
        common_prefix(a, b, k),
    ensures
        lex_less(less, a, b) || a == b || lex_less(less, b, a),
    decreases a.len() - k,
{
    if k == a.len() {
        if k == b.len() {
            assert(a =~= b);
        } else {
            assert(decided_at(less, a, b, k));
        }
    } else if k == b.len() {
        assert(decided_at(less, b, a, k));
    } else if less(a[k], b[k]) {
        assert(decided_at(less, a, b, k));
    } else if less(b[k], a[k]) {
        assert(decided_at(less, b, a, k));
    } else {
        assert(a[k] == b[k]);
        lemma_lex_total_from(less, a, b, k + 1);
    }
}

/// The lexicographic order of a strict total order is one too.
pub proof fn lemma_lex_strict_total<T>(less: spec_fn(T, T) -> bool)
    requires
        strict_total(less),
    ensures
        strict_total(lex(less)),
{
    let lex = lex(less);
    assert forall|a: Seq<T>| !#[trigger] lex(a, a) by {
        if lex_less(less, a, a) {
            let k = choose|k: int| decided_at(less, a, a, k);
            assert(!less(a[k], a[k]));
        }
    }
    assert forall|a: Seq<T>, b: Seq<T>, c: Seq<T>| #[trigger] lex(a, b) && #[trigger] lex(b, c) implies lex(
        a,
        c,
    ) by {
        lemma_lex_transitive(less, a, b, c);
    }
    assert forall|a: Seq<T>, b: Seq<T>| #[trigger] lex(a, b) || a == b || lex(b, a) by {
        lemma_lex_total_from(less, a, b, 0);
    }
}

/// Transitivity of the lexicographic order, for three given sequences.
pub proof fn lemma_lex_transitive<T>(less: spec_fn(T, T) -> bool, a: Seq<T>, b: Seq<T>, c: Seq<T>)
    requires
        strict_total(less),
        lex_less(less, a, b),
        lex_less(less, b, c),
    ensures
        lex_less(less, a, c),
{
    let k1 = choose|k: int| decided_at(less, a, b, k);
    let k2 = choose|k: int| decided_at(less, b, c, k);
    if k1 < k2 {
        assert(decided_at(less, a, c, k1));
    } else if k2 < k1 {
        assert(decided_at(less, a, c, k2));
    } else {
        assert(decided_at(less, a, c, k1));
    }
}

/// A sequence is not below itself, and of two different sequences exactly
/// one is below the other.
pub proof fn lemma_lex_asymmetric<T>(less: spec_fn(T, T) -> bool, a: Seq<T>, b: Seq<T>)
    requires
        strict_total(less),
        lex_less(less, a, b),
    ensures
        a != b,
        !lex_less(less, b, a),
{
    lemma_lex_strict_total(less);
    let lex = lex(less);
    assert(!lex(a, a));
    assert(lex(a, b));
    if lex_less(less, b, a) {
        assert(lex(b, a));
        assert(lex(a, a));
    }
}

/// A type whose values have a mathematical model and a strict total order on
/// the models.
pub trait Keyed: Sized {
    type Model;

    /// What the value stands for.
    spec fn model(&self) -> Self::Model;

    /// The order of the models.
    spec fn less() -> spec_fn(Self::Model, Self::Model) -> bool;

    proof fn lemma_order()
        ensures
            strict_total(Self::less()),
    ;

    /// Compares two values by their models.
    fn compare(&self, other: &Self) -> (o: Order)
        ensures
            o == order_of(Self::less(), self.model(), other.model()),
    ;

    /// A second value with the same model.
    fn copy(&self) -> (r: Self)
        ensures
            r.model() == self.model(),
    ;
}

/// The models of the elements of `s`, in order.
pub open spec fn models<T: Keyed>(s: Seq<T>) -> Seq<T::Model> {
    Seq::new(s.len(), |i: int| s[i].model())
}

impl<T: Keyed> Keyed for Vec<T> {
    type Model = Seq<T::Model>;

    open spec fn model(&self) -> Seq<T::Model> {
        models(self@)
    }

    open spec fn less() -> spec_fn(Seq<T::Model>, Seq<T::Model>) -> bool {
        lex(T::less())
    }

    proof fn lemma_order() {
        T::lemma_order();
        lemma_lex_strict_total(T::less());
    }

    fn compare(&self, other: &Self) -> (o: Order) {
        let ghost a = self.model();
        let ghost b = other.model();
        proof {
            T::lemma_order();
            lemma_lex_strict_total(T::less());
        }
        let mut i: usize = 0;
        while i < self.len() && i < other.len()
            invariant
                a == self.model(),
                b == other.model(),
                common_prefix(a, b, i as int),
                strict_total(T::less()),
                strict_total(lex(T::less())),
            decreases self.len() - i,
        {
            let o = self[i].compare(&other[i]);
            match o {
                Order::Less => {
                    proof {
                        assert(decided_at(T::less(), a, b, i as int));
                        lemma_lex_asymmetric(T::less(), a, b);
                    }
                    return Order::Less;
                },
                Order::Greater => {
                    proof {
                        assert((T::less())(b[i as int], a[i as int]));
                        assert(decided_at(T::less(), b, a, i as int));
                        lemma_lex_asymmetric(T::less(), b, a);
                    }
                    return Order::Greater;
                },
                Order::Equal => {},
            }
            i += 1;
        }
        if i == self.len() {
            if i == other.len() {
                proof {
                    assert(a =~= b);
                    assert(!(lex(T::less()))(a, a));
                }
                Order::Equal
            } else {
                proof {
                    assert(decided_at(T::less(), a, b, i as int));
                    lemma_lex_asymmetric(T::less(), a, b);
                }
                Order::Less
            }
        } else {
            proof {
                assert(decided_at(T::less(), b, a, i as int));
                lemma_lex_asymmetric(T::less(), b, a);
            }
            Order::Greater
        }
    }

    fn copy(&self) -> (r: Self) {
        let mut r: Vec<T> = Vec::new();
        let mut i: usize = 0;
        while i < self.len()
            invariant
                i <= self.len(),
                r@.len() == i,
                forall|j: int| 0 <= j < i ==> r@[j].model() == self@[j].model(),
            decreases self.len() - i,
        {
            r.push(self[i].copy());
            i += 1;
        }
        assert(r.model() =~= self.model());
        r
    }
}

/// The order of numbers.
pub open spec fn number_less() -> spec_fn(usize, usize) -> bool {
    |a: usize, b: usize| a < b
}

impl Keyed for usize {
    type Model = usize;

    open spec fn model(&self) -> usize {
        *self
    }

    open spec fn less() -> spec_fn(usize, usize) -> bool {
        number_less()
    }

    proof fn lemma_order() {
    }

    fn compare(&self, other: &Self) -> (o: Order) {
        if *self < *other {
            Order::Less
        } else if *self == *other {
            Order::Equal
        } else {
            Order::Greater
        }
    }

    fn copy(&self) -> (r: Self) {
        *self
    }
}

} // verus!
