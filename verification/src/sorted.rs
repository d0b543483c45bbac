//! Sets kept as strictly increasing vectors.
use vstd::prelude::*;
use crate::order::{increasing, models, order_of, strict_total, Keyed, Order};

verus! {

/// The models of the elements increase strictly: the vector is the one
/// representation of the set of its elements.
pub open spec fn sorted<T: Keyed>(v: Seq<T>) -> bool {
    increasing(T::less(), models(v))
}

/// The first index at which `x` stands in `v`, by model.
pub fn position<T: Keyed>(v: &Vec<T>, x: &T) -> (r: Option<usize>)
    ensures
        match r {
            Some(i) => i < v.len() && v@[i as int].model() == x.model() && forall|j: int|
                0 <= j < i ==> v@[j].model() != x.model(),
            None => !models(v@).contains(x.model()),
        },
{
    let mut i: usize = 0;
    while i < v.len()
        invariant
            i <= v.len(),
            forall|j: int| 0 <= j < i ==> v@[j].model() != x.model(),
        decreases v.len() - i,
    {
        proof {
            T::lemma_order();
        }
        match v[i].compare(x) {
            Order::Equal => {
                return Some(i);
            },
            _ => {},
        }
        i += 1;
    }
    None
}

/// Whether `x` is an element of `v`, by model.
pub fn member<T: Keyed>(v: &Vec<T>, x: &T) -> (r: bool)
    ensures
        r == models(v@).contains(x.model()),
{
    match position(v, x) {
        Some(i) => {
            assert(models(v@)[i as int] == x.model());
            true
        },
        None => false,
    }
}

/// Adds `x` to the set `v`, at its place. Returns whether it was new.
pub fn insert<T: Keyed>(v: &mut Vec<T>, x: T) -> (added: bool)
    requires
        sorted(old(v)@),
    ensures
        sorted(final(v)@),
        forall|m: T::Model|
            models(final(v)@).contains(m) <==> (models(old(v)@).contains(m) || m == x.model()),
        added == !models(old(v)@).contains(x.model()),
        final(v)@.len() == old(v)@.len() + (if added { 1int } else { 0int }),
        !added ==> final(v)@ == old(v)@,
{
    proof {
        T::lemma_order();
    }
    let ghost before = models(v@);
    let ghost xm = x.model();
    let mut i: usize = 0;
    let mut found = false;
    while i < v.len() && !found
        invariant
            i <= v.len(),
            found ==> i < v.len() && (T::less())(xm, before[i as int]),
            v@ == old(v)@,
            before == models(v@),
            xm == x.model(),
            strict_total(T::less()),
            increasing(T::less(), before),
            forall|j: int| 0 <= j < i ==> (T::less())(before[j], xm),
        decreases v.len() - i, if found { 0int } else { 1int },
    {
        match v[i].compare(&x) {
            Order::Less => {
                i += 1;
            },
            Order::Equal => {
                assert(before[i as int] == xm);
                assert forall|m: T::Model| before.contains(m) <==> (before.contains(m) || m == xm) by {}
                return false;
            },
            Order::Greater => {
                found = true;
            },
        }
    }
    proof {
        assert(i < v.len() ==> (T::less())(xm, before[i as int]));
        assert forall|j: int| 0 <= j < before.len() implies before[j] != xm by {
            if j < i {
                assert((T::less())(before[j], xm));
            } else {
                assert((T::less())(before[i as int], before[j]) || i == j);
                assert((T::less())(xm, before[j]));
            }
        }
    }
    v.insert(i, x);
    proof {
        let after = models(v@);
        assert(after =~= before.insert(i as int, xm));
        assert forall|a: int, b: int| 0 <= a < b < after.len() implies (T::less())(
            after[a],
            after[b],
        ) by {
            if b < i {
                assert(after[a] == before[a] && after[b] == before[b]);
            } else if b == i {
                assert(after[a] == before[a]);
            } else if a < i {
                assert(after[a] == before[a] && after[b] == before[b - 1]);
                if b - 1 == i as int {
                } else {
                    assert((T::less())(before[i as int], before[b - 1]));
                }
                assert((T::less())(before[a], xm));
                assert((T::less())(xm, before[i as int]));
            } else if a == i {
                assert(after[b] == before[b - 1]);
                if b - 1 > i {
                    assert((T::less())(before[i as int], before[b - 1]));
                }
            } else {
                assert(after[a] == before[a - 1] && after[b] == before[b - 1]);
            }
        }
        assert forall|m: T::Model| after.contains(m) <==> (before.contains(m) || m == xm) by {
            if after.contains(m) {
                let j = choose|j: int| 0 <= j < after.len() && after[j] == m;
                if j < i {
                    assert(before[j] == m);
                } else if j > i {
                    assert(before[j - 1] == m);
                }
            }
            if before.contains(m) {
                let j = choose|j: int| 0 <= j < before.len() && before[j] == m;
                if j < i {
                    assert(after[j] == m);
                } else {
                    assert(after[j + 1] == m);
                }
            }
            if m == xm {
                assert(after[i as int] == m);
            }
        }
    }
    true
}

/// The set of the elements of `items`: sorted, each once.
pub fn from_items<T: Keyed>(items: Vec<T>) -> (r: Vec<T>)
    ensures
        sorted(r@),
        forall|m: T::Model| models(r@).contains(m) <==> models(items@).contains(m),
{
    let mut r: Vec<T> = Vec::new();
    let mut i: usize = 0;
    while i < items.len()
        invariant
            i <= items.len(),
            sorted(r@),
            forall|m: T::Model|
                models(r@).contains(m) <==> exists|j: int| 0 <= j < i && items@[j].model() == m,
        decreases items.len() - i,
    {
        let ghost prev = models(r@);
        let x = items[i].copy();
        insert(&mut r, x);
        proof {
            assert forall|m: T::Model|
                models(r@).contains(m) <==> exists|j: int|
                    0 <= j < i + 1 && items@[j].model() == m by {
                if models(r@).contains(m) {
                    if prev.contains(m) {
                        let j = choose|j: int| 0 <= j < i && items@[j].model() == m;
                        assert(0 <= j < i + 1 && items@[j].model() == m);
                    } else {
                        assert(items@[i as int].model() == m);
                    }
                }
                if exists|j: int| 0 <= j < i + 1 && items@[j].model() == m {
                    let j = choose|j: int| 0 <= j < i + 1 && items@[j].model() == m;
                    if j < i {
                        assert(prev.contains(m));
                    }
                }
            }
        }
        i += 1;
    }
    proof {
        assert forall|m: T::Model| models(r@).contains(m) <==> models(items@).contains(m) by {
            if models(r@).contains(m) {
                let j = choose|j: int| 0 <= j < items.len() && items@[j].model() == m;
                assert(models(items@)[j] == m);
            }
            if models(items@).contains(m) {
                let j = choose|j: int| 0 <= j < models(items@).len() && models(items@)[j] == m;
                assert(items@[j].model() == m);
            }
        }
    }
    r
}

/// Two strictly increasing sequences with the same elements are equal.
pub proof fn lemma_sorted_unique<M>(less: spec_fn(M, M) -> bool, a: Seq<M>, b: Seq<M>)
    requires
        strict_total(less),
        increasing(less, a),
        increasing(less, b),
        forall|m: M| a.contains(m) <==> b.contains(m),
    ensures
        a == b,
    decreases a.len(),
{
    if a.len() == 0 {
        if b.len() > 0 {
            assert(b.contains(b[0]));
        }
        assert(a =~= b);
    } else {
        assert(a.contains(a[0]));
        assert(b.contains(a[0]));
        assert(b.len() > 0);
        assert(b.contains(b[0]));
        assert(a.contains(b[0]));
        let i = choose|i: int| 0 <= i < b.len() && b[i] == a[0];
        let j = choose|j: int| 0 <= j < a.len() && a[j] == b[0];
        if i > 0 {
            assert(less(b[0], b[i]));
            if j > 0 {
                assert(less(a[0], a[j]));
            }
        }
        assert(a[0] == b[0]);
        let a1 = a.subrange(1, a.len() as int);
        let b1 = b.subrange(1, b.len() as int);
        assert forall|m: M| a1.contains(m) <==> b1.contains(m) by {
            if a1.contains(m) {
                let k = choose|k: int| 0 <= k < a1.len() && a1[k] == m;
                assert(a[k + 1] == m);
                assert(less(a[0], a[k + 1]));
                assert(a.contains(m));
                let l = choose|l: int| 0 <= l < b.len() && b[l] == m;
                assert(l != 0);
                assert(b1[l - 1] == m);
            }
            if b1.contains(m) {
                let k = choose|k: int| 0 <= k < b1.len() && b1[k] == m;
                assert(b[k + 1] == m);
                assert(less(b[0], b[k + 1]));
                assert(b.contains(m));
                let l = choose|l: int| 0 <= l < a.len() && a[l] == m;
                assert(l != 0);
                assert(a1[l - 1] == m);
            }
        }
        assert forall|x: int, y: int| 0 <= x < y < a1.len() implies less(a1[x], a1[y]) by {
            assert(a1[x] == a[x + 1] && a1[y] == a[y + 1]);
        }
        assert forall|x: int, y: int| 0 <= x < y < b1.len() implies less(b1[x], b1[y]) by {
            assert(b1[x] == b[x + 1] && b1[y] == b[y + 1]);
        }
        lemma_sorted_unique(less, a1, b1);
        assert(a =~= seq![a[0]] + a1);
        assert(b =~= seq![b[0]] + b1);
    }
}

/// The increasing sequence `t` with `x` put at its place, unless `t`
/// holds `x` already.
pub open spec fn with_element<M>(less: spec_fn(M, M) -> bool, t: Seq<M>, x: M) -> Seq<M>
    decreases t.len(),
{
    if t.len() == 0 || less(t.last(), x) {
        t.push(x)
    } else if t.last() == x {
        t
    } else {
        with_element(less, t.drop_last(), x).push(t.last())
    }
}

/// The elements of `s` in increasing order, each once.
pub open spec fn ordered<M>(less: spec_fn(M, M) -> bool, s: Seq<M>) -> Seq<M>
    decreases s.len(),
{
    if s.len() == 0 {
        s
    } else {
        with_element(less, ordered(less, s.drop_last()), s.last())
    }
}

/// With `x` at its place the sequence is increasing still, and holds `x`
/// and what it held before.
pub proof fn lemma_with_element<M>(less: spec_fn(M, M) -> bool, t: Seq<M>, x: M)
    requires
        strict_total(less),
        increasing(less, t),
    ensures
        increasing(less, with_element(less, t, x)),
        forall|y: M| #[trigger] with_element(less, t, x).contains(y) <==> (t.contains(y) || y == x),
    decreases t.len(),
{
    let r = with_element(less, t, x);
    if t.len() == 0 || less(t.last(), x) {
        assert(r[t.len() as int] == x);
        assert forall|i: int, j: int| 0 <= i < j < r.len() implies less(r[i], r[j]) by {
            if j == t.len() {
                if i < t.len() - 1 {
                    assert(less(t[i], t[t.len() - 1]));
                }
            }
        }
        assert forall|y: M| #[trigger] r.contains(y) <==> (t.contains(y) || y == x) by {
            if r.contains(y) {
                let i = choose|i: int| 0 <= i < r.len() && r[i] == y;
                if i < t.len() {
                    assert(t[i] == y);
                }
            }
            if t.contains(y) {
                let i = choose|i: int| 0 <= i < t.len() && t[i] == y;
                assert(r[i] == y);
            }
        }
    } else if t.last() == x {
        assert(t[t.len() - 1] == x);
    } else {
        let rest = t.drop_last();
        let top = t.last();
        let w = with_element(less, rest, x);
        assert(increasing(less, rest)) by {
            assert forall|i: int, j: int| 0 <= i < j < rest.len() implies less(rest[i], rest[j]) by {
                assert(rest[i] == t[i] && rest[j] == t[j]);
            }
        }
        lemma_with_element(less, rest, x);
        assert(less(x, top));
        assert forall|i: int| 0 <= i < w.len() implies less(#[trigger] w[i], top) by {
            assert(w.contains(w[i]));
            if rest.contains(w[i]) {
                let k = choose|k: int| 0 <= k < rest.len() && rest[k] == w[i];
                assert(less(t[k], t[t.len() - 1]));
            }
        }
        assert(r[w.len() as int] == top);
        assert forall|i: int, j: int| 0 <= i < j < r.len() implies less(r[i], r[j]) by {
            if j < w.len() {
                assert(r[i] == w[i] && r[j] == w[j]);
            } else {
                assert(r[i] == w[i]);
            }
        }
        assert forall|y: M| #[trigger] r.contains(y) <==> (t.contains(y) || y == x) by {
            if r.contains(y) {
                let i = choose|i: int| 0 <= i < r.len() && r[i] == y;
                if i < w.len() {
                    assert(w[i] == y);
                    assert(w.contains(y));
                    if rest.contains(y) {
                        let k = choose|k: int| 0 <= k < rest.len() && rest[k] == y;
                        assert(t[k] == y);
                    }
                } else {
                    assert(t[t.len() - 1] == y);
                }
            }
            if t.contains(y) {
                let i = choose|i: int| 0 <= i < t.len() && t[i] == y;
                if i < rest.len() {
                    assert(rest[i] == y);
                    assert(w.contains(y));
                    let k = choose|k: int| 0 <= k < w.len() && w[k] == y;
                    assert(r[k] == y);
                } else {
                    assert(r[w.len() as int] == y);
                }
            }
            if y == x {
                assert(w.contains(y));
                let k = choose|k: int| 0 <= k < w.len() && w[k] == y;
                assert(r[k] == y);
            }
        }
    }
}

/// Every sequence can be put in increasing order.
pub proof fn lemma_ordered<M>(less: spec_fn(M, M) -> bool, s: Seq<M>)
    requires
        strict_total(less),
    ensures
        increasing(less, ordered(less, s)),
        forall|y: M| #[trigger] ordered(less, s).contains(y) <==> s.contains(y),
    decreases s.len(),
{
    if s.len() > 0 {
        let rest = s.drop_last();
        let t = ordered(less, rest);
        lemma_ordered(less, rest);
        lemma_with_element(less, t, s.last());
        let r = ordered(less, s);
        assert forall|y: M| #[trigger] r.contains(y) <==> s.contains(y) by {
            if s.contains(y) {
                let i = choose|i: int| 0 <= i < s.len() && s[i] == y;
                if i < rest.len() {
                    assert(rest[i] == y);
                }
            }
            if rest.contains(y) {
                let i = choose|i: int| 0 <= i < rest.len() && rest[i] == y;
                assert(s[i] == y);
            }
            if y == s.last() {
                assert(s[s.len() - 1] == y);
            }
        }
    }
}

} // verus!
