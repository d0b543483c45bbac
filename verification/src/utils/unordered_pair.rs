//! Pairs in which the order of the two parts does not count.
use vstd::prelude::*;
use crate::order::{order_of, strict_total, Keyed, Order};

verus! {

/// Two values, the smaller one first.
#[derive(Clone, Debug, PartialEq, Eq, PartialOrd, Ord, Hash)]
pub struct UnorderedPair<T>(pub T, pub T);

/// The order of pairs: by the first part, then by the second.
pub open spec fn pair_less<M>(less: spec_fn(M, M) -> bool) -> spec_fn((M, M), (M, M)) -> bool {
    |p: (M, M), q: (M, M)| less(p.0, q.0) || (p.0 == q.0 && less(p.1, q.1))
}

/// Pairs are in a strict total order where their parts are.
pub proof fn lemma_pair_order<M>(less: spec_fn(M, M) -> bool)
    requires
        strict_total(less),
    ensures
        strict_total(pair_less(less)),
{
    let pl = pair_less(less);
    assert forall|a: (M, M)| !#[trigger] pl(a, a) by {
        assert(!less(a.0, a.0));
        assert(!less(a.1, a.1));
    }
    assert forall|a: (M, M), b: (M, M), c: (M, M)| #[trigger] pl(a, b) && #[trigger] pl(b, c) implies pl(
        a,
        c,
    ) by {
        if less(a.0, b.0) && less(b.0, c.0) {
            assert(less(a.0, c.0));
        }
        if less(a.1, b.1) && less(b.1, c.1) {
            assert(less(a.1, c.1));
        }
    }
    assert forall|a: (M, M), b: (M, M)| #[trigger] pl(a, b) || a == b || pl(b, a) by {
        assert(less(a.0, b.0) || a.0 == b.0 || less(b.0, a.0));
        assert(less(a.1, b.1) || a.1 == b.1 || less(b.1, a.1));
    }
}

impl<T: Keyed> UnorderedPair<T> {
    /// The pair of `a` and `b`, whichever way round they are given.
    pub fn new(a: T, b: T) -> (p: Self)
        ensures
            p.model() == if (T::less())(b.model(), a.model()) {
                (b.model(), a.model())
            } else {
                (a.model(), b.model())
            },
    {
        proof {
            T::lemma_order();
        }
        match a.compare(&b) {
            Order::Greater => UnorderedPair(b, a),
            _ => UnorderedPair(a, b),
        }
    }
}

impl<T: Keyed> Keyed for UnorderedPair<T> {
    type Model = (T::Model, T::Model);

    open spec fn model(&self) -> (T::Model, T::Model) {
        (self.0.model(), self.1.model())
    }

    open spec fn less() -> spec_fn((T::Model, T::Model), (T::Model, T::Model)) -> bool {
        pair_less(T::less())
    }

    proof fn lemma_order() {
        T::lemma_order();
        lemma_pair_order(T::less());
    }

    fn compare(&self, other: &Self) -> (o: Order) {
        proof {
            T::lemma_order();
            lemma_pair_order(T::less());
            assert(!(T::less())(self.0.model(), self.0.model()));
            assert(!(T::less())(self.1.model(), self.1.model()));
        }
        match self.0.compare(&other.0) {
            Order::Less => Order::Less,
            Order::Greater => {
                proof {
                    assert(!(T::less())(self.0.model(), other.0.model())) by {
                        if (T::less())(self.0.model(), other.0.model()) {
                            assert((T::less())(self.0.model(), self.0.model()));
                        }
                    }
                }
                Order::Greater
            },
            Order::Equal => {
                let o = self.1.compare(&other.1);
                proof {
                    if o == Order::Greater {
                        assert(!(T::less())(self.1.model(), other.1.model())) by {
                            if (T::less())(self.1.model(), other.1.model()) {
                                assert((T::less())(self.1.model(), self.1.model()));
                            }
                        }
                    }
                }
                o
            },
        }
    }

    fn copy(&self) -> (r: Self) {
        UnorderedPair(self.0.copy(), self.1.copy())
    }
}

} // verus!
