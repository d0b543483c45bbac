//! The orders in which a number of things can be arranged.
use vstd::prelude::*;
use itertools::Itertools;
use crate::order::strict_total;

verus! {

/// `p` arranges the numbers below `n`: it holds each of them once.
pub open spec fn is_permutation(p: Seq<usize>, n: nat) -> bool {
    &&& p.len() == n
    &&& forall|i: int| 0 <= i < p.len() ==> #[trigger] p[i] < n
    &&& forall|i: int, j: int| 0 <= i < j < p.len() ==> #[trigger] p[i] != #[trigger] p[j]
}

/// An arrangement of the numbers below `n` holds the number `a`.
proof fn lemma_pigeon(p: Seq<usize>, n: nat, a: int)
    requires
        is_permutation(p, n),
        0 <= a < n,
    ensures
        exists|k: int| 0 <= k < p.len() && p[k] == a,
    decreases n,
{
    if exists|k: int| 0 <= k < p.len() && p[k] == a {
    } else if n == 1 {
        assert(p[0] < 1);
        assert(p[0] != a);
    } else {
        let last = (n - 1) as int;
        if a == last {
            // no number is n - 1: the first n - 1 places arrange n - 1 numbers
            // with one of them missing as well; move on with a smaller case
            let q = p.drop_last();
            let b = p[last] as int;
            assert(b != a);
            assert forall|i: int| 0 <= i < q.len() implies #[trigger] q[i] < n - 1 by {
                assert(q[i] == p[i]);
                assert(p[i] != a);
            }
            assert forall|i: int, j: int| 0 <= i < j < q.len() implies #[trigger] q[i]
                != #[trigger] q[j] by {
                assert(q[i] == p[i] && q[j] == p[j]);
            }
            assert forall|k: int| 0 <= k < q.len() implies q[k] != b by {
                assert(q[k] == p[k]);
                assert(p[k] != p[last]);
            }
            lemma_pigeon(q, (n - 1) as nat, b);
            let k = choose|k: int| 0 <= k < q.len() && q[k] == b;
            assert(q[k] != b);
        } else {
            // a < n - 1 is missing; put what stands at the place of n - 1
            // out of the way
            if exists|k: int| 0 <= k < p.len() && p[k] == last {
                let k = choose|k: int| 0 <= k < p.len() && p[k] == last;
                let moved = p.update(k, p[last]);
                let q = moved.drop_last();
                assert forall|i: int| 0 <= i < q.len() implies #[trigger] q[i] < n - 1 by {
                    if i == k {
                        assert(q[i] == p[last]);
                        if k != last {
                            assert(p[k] != p[last]);
                        }
                    } else {
                        assert(q[i] == p[i]);
                        assert(p[i] != p[k]);
                    }
                }
                assert forall|i: int, j: int| 0 <= i < j < q.len() implies #[trigger] q[i]
                    != #[trigger] q[j] by {
                    let x = if i == k { p[last] } else { p[i] };
                    let y = if j == k { p[last] } else { p[j] };
                    assert(q[i] == x && q[j] == y);
                    assert(p[i] != p[j]);
                    assert(p[i] != p[last]);
                    assert(p[j] != p[last]);
                }
                assert forall|i: int| 0 <= i < q.len() implies q[i] != a by {
                    if i == k {
                        assert(q[i] == p[last]);
                    } else {
                        assert(q[i] == p[i]);
                    }
                }
                lemma_pigeon(q, (n - 1) as nat, a);
                let i = choose|i: int| 0 <= i < q.len() && q[i] == a;
                assert(q[i] != a);
            } else {
                let q = p.drop_last();
                assert forall|i: int| 0 <= i < q.len() implies #[trigger] q[i] < n - 1 by {
                    assert(q[i] == p[i]);
                }
                assert forall|i: int, j: int| 0 <= i < j < q.len() implies #[trigger] q[i]
                    != #[trigger] q[j] by {
                    assert(q[i] == p[i] && q[j] == p[j]);
                }
                assert forall|i: int| 0 <= i < q.len() implies q[i] != a by {
                    assert(q[i] == p[i]);
                }
                lemma_pigeon(q, (n - 1) as nat, a);
                let i = choose|i: int| 0 <= i < q.len() && q[i] == a;
                assert(q[i] != a);
            }
        }
    }
}

/// An arrangement of the numbers below `n` holds each of them.
pub proof fn lemma_permutation_onto(p: Seq<usize>, a: int)
    requires
        is_permutation(p, p.len()),
        0 <= a < p.len(),
    ensures
        exists|k: int| 0 <= k < p.len() && p[k] == a,
{
    lemma_pigeon(p, p.len(), a);
}

/// All arrangements of the numbers below `n`, by
/// `itertools::Itertools::permutations` on the range from 0 to `n` with
/// `n` as the length of an arrangement. It is believed, not proved, that
/// the result holds arrangements only and holds every arrangement.
#[verifier::external_body]
pub(crate) fn index_permutations(n: usize) -> (r: Vec<Vec<usize>>)
    ensures
        forall|i: int| 0 <= i < r@.len() ==> is_permutation((#[trigger] r@[i])@, n as nat),
        forall|p: Seq<usize>|
            is_permutation(p, n as nat) ==> exists|i: int|
                0 <= i < r@.len() && (#[trigger] r@[i])@ == p,
{
    (0..n).permutations(n).collect()
}

/// The number of classes among the first `n` of `x` whose first element
/// is less than that of the class with index `j`.
pub open spec fn below<M>(less: spec_fn(M, M) -> bool, x: Seq<Seq<M>>, j: int, n: nat) -> nat
    decreases n,
{
    if n == 0 {
        0
    } else {
        below(less, x, j, (n - 1) as nat) + if less(x[n - 1][0], x[j][0]) {
            1nat
        } else {
            0nat
        }
    }
}

/// The place of each class of `x` among all classes in the order of
/// their first elements.
pub open spec fn places<M>(less: spec_fn(M, M) -> bool, x: Seq<Seq<M>>) -> Seq<usize> {
    Seq::new(x.len(), |j: int| below(less, x, j, x.len()) as usize)
}

/// The index of the class of `x` that has the place `a`.
pub open spec fn placed_at<M>(less: spec_fn(M, M) -> bool, x: Seq<Seq<M>>, a: int) -> int {
    choose|j: int| 0 <= j < x.len() && places(less, x)[j] == a
}

/// The classes of `x` in the order of their first elements.
pub open spec fn in_order<M>(less: spec_fn(M, M) -> bool, x: Seq<Seq<M>>) -> Seq<Seq<M>> {
    Seq::new(x.len(), |a: int| x[placed_at(less, x, a)])
}

/// The classes of `q` in the order that `order` gives.
pub open spec fn arranged<M>(q: Seq<Seq<M>>, order: Seq<usize>) -> Seq<Seq<M>> {
    Seq::new(order.len(), |j: int| q[order[j] as int])
}

/// No two classes of `x` begin with the same element.
pub open spec fn heads_differ<M>(x: Seq<Seq<M>>) -> bool {
    forall|i: int, j: int| 0 <= i < j < x.len() ==> (#[trigger] x[i])[0] != (#[trigger] x[j])[0]
}

/// A class is not counted below itself.
proof fn lemma_below_bound<M>(less: spec_fn(M, M) -> bool, x: Seq<Seq<M>>, j: int, n: nat)
    requires
        strict_total(less),
        0 <= j < x.len(),
        n <= x.len(),
    ensures
        below(less, x, j, n) <= n,
        j < n ==> below(less, x, j, n) < n,
    decreases n,
{
    if n > 0 {
        lemma_below_bound(less, x, j, (n - 1) as nat);
        if j == n - 1 {
            assert(!less(x[j][0], x[j][0]));
        }
    }
}

/// A class that begins with less has fewer classes below it.
proof fn lemma_below_grows<M>(less: spec_fn(M, M) -> bool, x: Seq<Seq<M>>, a: int, b: int, n: nat)
    requires
        strict_total(less),
        0 <= a < x.len(),
        0 <= b < x.len(),
        n <= x.len(),
        less(x[a][0], x[b][0]),
    ensures
        below(less, x, a, n) <= below(less, x, b, n),
        a < n ==> below(less, x, a, n) < below(less, x, b, n),
    decreases n,
{
    if n > 0 {
        lemma_below_grows(less, x, a, b, (n - 1) as nat);
        let h = x[n - 1][0];
        if less(h, x[a][0]) {
            assert(less(h, x[b][0]));
        }
        if a == n - 1 {
            assert(!less(x[a][0], x[a][0]));
        }
    }
}

/// Classes that begin with different elements can be put in the order
/// of these elements: the places arrange the classes, and the classes at
/// their places are in order.
pub proof fn lemma_in_order<M>(less: spec_fn(M, M) -> bool, x: Seq<Seq<M>>)
    requires
        strict_total(less),
        heads_differ(x),
        x.len() <= usize::MAX,
    ensures
        is_permutation(places(less, x), x.len()),
        in_order(less, x).len() == x.len(),
        forall|a: int|
            0 <= a < x.len() ==> 0 <= #[trigger] placed_at(less, x, a) < x.len() && places(
                less,
                x,
            )[placed_at(less, x, a)] == a,
        forall|j: int| 0 <= j < x.len() ==> placed_at(less, x, (#[trigger] places(less, x)[j]) as int) == j,
        forall|a: int, b: int|
            0 <= a < b < x.len() ==> less(
                (#[trigger] in_order(less, x)[a])[0],
                (#[trigger] in_order(less, x)[b])[0],
            ),
        arranged(in_order(less, x), places(less, x)) == x,
{
    let p = places(less, x);
    let k = x.len();
    assert forall|j: int| 0 <= j < k implies (#[trigger] p[j]) as int == below(less, x, j, k) && p[j]
        < k by {
        lemma_below_bound(less, x, j, k);
    }
    assert forall|i: int, j: int| 0 <= i < k && 0 <= j < k && i != j implies p[i] != p[j] by {
        let (u, v) = if i < j {
            (i, j)
        } else {
            (j, i)
        };
        assert(x[u][0] != x[v][0]);
        if less(x[i][0], x[j][0]) {
            lemma_below_grows(less, x, i, j, k);
        } else {
            assert(less(x[j][0], x[i][0]));
            lemma_below_grows(less, x, j, i, k);
        }
    }
    assert(is_permutation(p, k));
    assert forall|a: int| 0 <= a < k implies 0 <= #[trigger] placed_at(less, x, a) < k && p[placed_at(
        less,
        x,
        a,
    )] == a by {
        lemma_permutation_onto(p, a);
    }
    assert forall|j: int| 0 <= j < k implies placed_at(less, x, (#[trigger] p[j]) as int) == j by {
        let t = placed_at(less, x, p[j] as int);
        assert(0 <= t < k && p[t] == p[j]);
    }
    let q = in_order(less, x);
    assert forall|a: int, b: int| 0 <= a < b < k implies less(
        (#[trigger] q[a])[0],
        (#[trigger] q[b])[0],
    ) by {
        let i = placed_at(less, x, a);
        let j = placed_at(less, x, b);
        assert(p[i] == a && p[j] == b);
        assert(i != j);
        let (u, v) = if i < j {
            (i, j)
        } else {
            (j, i)
        };
        assert(x[u][0] != x[v][0]);
        if less(x[j][0], x[i][0]) {
            lemma_below_grows(less, x, j, i, k);
        }
    }
    assert(arranged(q, p) =~= x) by {
        assert forall|j: int| 0 <= j < k implies arranged(q, p)[j] == x[j] by {
            assert(placed_at(less, x, p[j] as int) == j);
        }
    }
}

} // verus!
