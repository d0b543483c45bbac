//! Subsets of a set and its divisions into classes.
use vstd::prelude::*;
use vstd::arithmetic::div_mod::lemma_div_denominator;
use crate::order::{decided_at, increasing, lex, models, strict_total, Keyed};
use crate::sorted::{insert, sorted};
use crate::utils::bell_number;
use crate::utils::counting::lemma_division_count;

verus! {

/// 2 to the power `t`.
pub open spec fn two_to(t: nat) -> nat
    decreases t,
{
    if t == 0 {
        1
    } else {
        2 * two_to((t - 1) as nat)
    }
}

/// Whether the binary digit `t` of `i` is 1.
pub open spec fn bit(i: nat, t: nat) -> bool {
    (i / two_to(t)) % 2 == 1
}

/// The elements of `s` whose index is a binary digit 1 of `i`, in the
/// order of `s`.
pub open spec fn chosen_by<M>(s: Seq<M>, i: nat) -> Seq<M>
    decreases s.len(),
{
    if s.len() == 0 {
        s
    } else if bit(i, (s.len() - 1) as nat) {
        chosen_by(s.drop_last(), i).push(s.last())
    } else {
        chosen_by(s.drop_last(), i)
    }
}

/// A power of 2 is positive.
pub proof fn lemma_two_to_positive(t: nat)
    ensures
        two_to(t) > 0,
    decreases t,
{
    if t > 0 {
        lemma_two_to_positive((t - 1) as nat);
    }
}

/// Every chosen element is an element of `s`.
pub proof fn lemma_chosen_within<M>(s: Seq<M>, i: nat)
    ensures
        forall|k: int| 0 <= k < chosen_by(s, i).len() ==> s.contains(#[trigger] chosen_by(s, i)[k]),
        chosen_by(s, i).len() <= s.len(),
    decreases s.len(),
{
    if s.len() > 0 {
        let rest = chosen_by(s.drop_last(), i);
        lemma_chosen_within(s.drop_last(), i);
        assert forall|k: int| 0 <= k < chosen_by(s, i).len() implies s.contains(
            #[trigger] chosen_by(s, i)[k],
        ) by {
            if k < rest.len() {
                assert(s.drop_last().contains(rest[k]));
                let l = choose|l: int| 0 <= l < s.drop_last().len() && s.drop_last()[l] == rest[k];
                assert(s[l] == rest[k]);
            } else {
                assert(s[s.len() - 1] == s.last());
            }
        }
    }
}

/// The number of subsets of a set with `n` elements, where it is a
/// number of the machine.
pub fn subset_count(n: usize) -> (r: Option<usize>)
    ensures
        match r {
            Some(c) => c == two_to(n as nat),
            None => two_to(n as nat) > usize::MAX,
        },
{
    let mut c: usize = 1;
    let mut t: usize = 0;
    while t < n
        invariant
            t <= n,
            c == two_to(t as nat),
        decreases n - t,
    {
        if c > usize::MAX / 2 {
            proof {
                lemma_two_to_grows((t + 1) as nat, n as nat);
            }
            return None;
        }
        c = c * 2;
        t += 1;
    }
    Some(c)
}

/// A greater power of 2 is not smaller.
pub proof fn lemma_two_to_grows(a: nat, b: nat)
    requires
        a <= b,
    ensures
        two_to(a) <= two_to(b),
    decreases b,
{
    if a < b {
        lemma_two_to_grows(a, (b - 1) as nat);
    }
}

/// The subset of `s` with the number `i`: the elements whose index is a
/// binary digit 1 of `i`.
pub fn powerset_generator<T: Keyed>(s: &Vec<T>, i: usize) -> (r: Vec<T>)
    ensures
        models(r@) == chosen_by(models(s@), i as nat),
{
    let ghost m = models(s@);
    let mut r: Vec<T> = Vec::new();
    let mut q: usize = i;
    let mut t: usize = 0;
    assert(two_to(0) == 1);
    assert(m.take(0) =~= Seq::<T::Model>::empty());
    while t < s.len()
        invariant
            t <= s.len(),
            m == models(s@),
            q == (i as nat) / two_to(t as nat),
            models(r@) == chosen_by(m.take(t as int), i as nat),
        decreases s.len() - t,
    {
        proof {
            assert(m.take(t + 1).drop_last() =~= m.take(t as int));
            assert(m.take(t + 1).last() == m[t as int]);
            lemma_two_to_positive(t as nat);
            lemma_div_denominator(i as int, two_to(t as nat) as int, 2);
            assert(two_to((t + 1) as nat) == 2 * two_to(t as nat));
        }
        if q % 2 == 1 {
            let ghost before = models(r@);
            r.push(s[t].copy());
            assert(models(r@) =~= before.push(m[t as int]));
        }
        q = q / 2;
        t += 1;
    }
    assert(m.take(t as int) =~= m);
    r
}

/// `g` is a subset of the set `s`: an increasing sequence of elements of
/// `s`.
pub open spec fn subset_of<M>(less: spec_fn(M, M) -> bool, g: Seq<M>, s: Seq<M>) -> bool {
    &&& increasing(less, g)
    &&& forall|k: int| 0 <= k < g.len() ==> s.contains(#[trigger] g[k])
}

/// A subset of an increasing sequence with one more element `x` is a
/// subset of the sequence, or one with `x` added at its end.
pub proof fn lemma_subset_step<M>(less: spec_fn(M, M) -> bool, g: Seq<M>, s: Seq<M>, x: M)
    requires
        strict_total(less),
        increasing(less, s.push(x)),
        subset_of(less, g, s.push(x)),
    ensures
        subset_of(less, g, s) || (g.len() > 0 && g.last() == x && subset_of(
            less,
            g.drop_last(),
            s,
        )),
{
    let s2 = s.push(x);
    assert forall|i: int| 0 <= i < s.len() implies less(#[trigger] s[i], x) by {
        assert(s2[i] == s[i] && s2[s.len() as int] == x);
    }
    if g.len() > 0 && g.last() == x {
        let h = g.drop_last();
        assert forall|k: int| 0 <= k < h.len() implies s.contains(#[trigger] h[k]) by {
            assert(h[k] == g[k]);
            assert(less(g[k], g[g.len() - 1]));
            assert(s2.contains(g[k]));
            let l = choose|l: int| 0 <= l < s2.len() && s2[l] == g[k];
            if l == s.len() {
                assert(less(x, x));
            }
            assert(s[l] == g[k]);
        }
        assert forall|i: int, j: int| 0 <= i < j < h.len() implies less(h[i], h[j]) by {
            assert(h[i] == g[i] && h[j] == g[j]);
        }
    } else {
        assert forall|k: int| 0 <= k < g.len() implies s.contains(#[trigger] g[k]) by {
            assert(s2.contains(g[k]));
            let l = choose|l: int| 0 <= l < s2.len() && s2[l] == g[k];
            if l == s.len() {
                // g[k] is x but is not the last element of g
                assert(k < g.len() - 1);
                assert(less(g[k], g[g.len() - 1]));
                assert(s2.contains(g[g.len() - 1]));
                let t = choose|t: int| 0 <= t < s2.len() && s2[t] == g[g.len() - 1];
                if t < s.len() {
                    assert(less(s[t], x));
                    assert(less(x, x));
                }
            } else {
                assert(s[l] == g[k]);
            }
        }
    }
}

/// A subset of a sequence is a subset of the sequence with one more
/// element, and so is the subset with that element at its end.
pub proof fn lemma_subset_grow<M>(less: spec_fn(M, M) -> bool, g: Seq<M>, s: Seq<M>, x: M)
    requires
        strict_total(less),
        increasing(less, s.push(x)),
        subset_of(less, g, s),
    ensures
        subset_of(less, g, s.push(x)),
        subset_of(less, g.push(x), s.push(x)),
{
    let s2 = s.push(x);
    let g2 = g.push(x);
    assert forall|k: int| 0 <= k < g.len() implies s2.contains(#[trigger] g[k]) by {
        let l = choose|l: int| 0 <= l < s.len() && s[l] == g[k];
        assert(s2[l] == g[k]);
    }
    assert forall|k: int| 0 <= k < g2.len() implies s2.contains(#[trigger] g2[k]) by {
        if k < g.len() {
            assert(g2[k] == g[k]);
            assert(s2.contains(g[k]));
        } else {
            assert(s2[s.len() as int] == x);
        }
    }
    assert forall|i: int, j: int| 0 <= i < j < g2.len() implies less(g2[i], g2[j]) by {
        if j < g.len() {
            assert(g2[i] == g[i] && g2[j] == g[j]);
        } else {
            assert(g2[i] == g[i]);
            let l = choose|l: int| 0 <= l < s.len() && s[l] == g[i];
            assert(s2[l] == g[i] && s2[s.len() as int] == x);
        }
    }
}

/// `h` with `x` at its end.
pub open spec fn with_last<M>(h: Seq<M>, x: M) -> Seq<M> {
    h.push(x)
}

/// All subsets of the set `s`.
pub fn powerset<T: Keyed>(s: &Vec<T>) -> (r: Vec<Vec<T>>)
    requires
        sorted(s@),
    ensures
        sorted(r@),
        forall|g: Seq<T::Model>| models(r@).contains(g) <==> subset_of(T::less(), g, models(s@)),
{
    let ghost less = T::less();
    let ghost m = models(s@);
    proof {
        T::lemma_order();
    }
    let mut acc: Vec<Vec<T>> = Vec::new();
    acc.push(Vec::new());
    proof {
        assert(acc@[0].model() =~= Seq::<T::Model>::empty());
        assert forall|g: Seq<T::Model>| models(acc@).contains(g) <==> subset_of(
            less,
            g,
            m.take(0),
        ) by {
            if models(acc@).contains(g) {
                let l = choose|l: int| 0 <= l < models(acc@).len() && models(acc@)[l] == g;
                assert(g =~= Seq::<T::Model>::empty());
            }
            if subset_of(less, g, m.take(0)) {
                if g.len() > 0 {
                    assert(m.take(0).contains(g[0]));
                }
                assert(g =~= Seq::<T::Model>::empty());
                assert(models(acc@)[0] == g);
            }
        }
    }
    let mut k: usize = 0;
    while k < s.len()
        invariant
            k <= s.len(),
            m == models(s@),
            strict_total(less),
            sorted(s@),
            sorted(acc@),
            forall|g: Seq<T::Model>| #[trigger]
                models(acc@).contains(g) <==> subset_of(less, g, m.take(k as int)),
        decreases s.len() - k,
    {
        let ghost base = m.take(k as int);
        let ghost x = m[k as int];
        let ghost start = models(acc@);
        proof {
            assert(base.push(x) =~= m.take(k + 1));
            assert(increasing(less, base.push(x))) by {
                assert forall|i: int, j: int| 0 <= i < j < base.push(x).len() implies less(
                    base.push(x)[i],
                    base.push(x)[j],
                ) by {
                    assert(base.push(x)[i] == m[i] && base.push(x)[j] == m[j]);
                }
            }
        }
        let mut next = acc.copy();
        assert(sorted(next@)) by {
            assert(next.model() == acc.model());
            assert(models(next@) =~= models(acc@));
        }
        let mut a: usize = 0;
        while a < acc.len()
            invariant
                a <= acc.len(),
                k < s.len(),
                m == models(s@),
                x == m[k as int],
                base == m.take(k as int),
                start == models(acc@),
                strict_total(less),
                increasing(less, base.push(x)),
                sorted(next@),
                forall|g: Seq<T::Model>| #[trigger] start.contains(g) <==> subset_of(less, g, base),
                forall|g: Seq<T::Model>| #[trigger]
                    models(next@).contains(g) <==> (start.contains(g) || exists|b: int|
                        0 <= b < a && g == #[trigger] with_last(start[b], x)),
            decreases acc.len() - a,
        {
            let mut with = acc[a].copy();
            with.push(s[k].copy());
            let ghost wm = with.model();
            assert(wm =~= start[a as int].push(x));
            let ghost prev = models(next@);
            insert(&mut next, with);
            proof {
                assert forall|g: Seq<T::Model>| #[trigger]
                    models(next@).contains(g) <==> (start.contains(g) || exists|b: int|
                        0 <= b < a + 1 && g == #[trigger] with_last(start[b], x)) by {
                    if models(next@).contains(g) {
                        if prev.contains(g) {
                            if !start.contains(g) {
                                let b = choose|b: int|
                                    0 <= b < a && g == #[trigger] with_last(start[b], x);
                                assert(0 <= b < a + 1 && g == with_last(start[b], x));
                            }
                        } else {
                            assert(g == with_last(start[a as int], x));
                        }
                    }
                    if exists|b: int| 0 <= b < a + 1 && g == #[trigger] with_last(start[b], x) {
                        let b = choose|b: int| 0 <= b < a + 1 && g == #[trigger] with_last(start[b], x);
                        if b < a {
                            assert(prev.contains(g));
                        }
                    }
                }
            }
            a += 1;
        }
        proof {
            assert forall|g: Seq<T::Model>| #[trigger]
                models(next@).contains(g) <==> subset_of(less, g, m.take(k + 1)) by {
                if models(next@).contains(g) {
                    if start.contains(g) {
                        lemma_subset_grow(less, g, base, x);
                    } else {
                        let b = choose|b: int| 0 <= b < a && g == #[trigger] with_last(start[b], x);
                        assert(start.contains(start[b]));
                        lemma_subset_grow(less, start[b], base, x);
                    }
                }
                if subset_of(less, g, m.take(k + 1)) {
                    lemma_subset_step(less, g, base, x);
                    if !subset_of(less, g, base) {
                        let h = g.drop_last();
                        assert(start.contains(h));
                        let b = choose|b: int| 0 <= b < start.len() && start[b] == h;
                        assert(g =~= start[b].push(x));
                        assert(0 <= b < a && g == with_last(start[b], x));
                    }
                }
            }
        }
        acc = next;
        k += 1;
    }
    proof {
        assert(m.take(k as int) =~= m);
    }
    acc
}

/// Some class of `q` holds `x`.
pub open spec fn in_some_class<M>(q: Seq<Seq<M>>, x: M) -> bool {
    exists|k: int| 0 <= k < q.len() && (#[trigger] q[k]).contains(x)
}

/// `q` is a division of the set `c` into classes: the classes are not
/// empty and increasing, they stand in the order of their first
/// elements, every element of a class is one of `c`, and every element
/// of `c` is in exactly one class.
pub open spec fn is_partition_of<M>(less: spec_fn(M, M) -> bool, q: Seq<Seq<M>>, c: Seq<M>) -> bool {
    &&& forall|k: int| 0 <= k < q.len() ==> (#[trigger] q[k]).len() > 0 && increasing(less, q[k])
    &&& forall|i: int, j: int| 0 <= i < j < q.len() ==> less(#[trigger] q[i][0], #[trigger] q[j][0])
    &&& forall|k: int, i: int|
        0 <= k < q.len() && 0 <= i < q[k].len() ==> c.contains(#[trigger] q[k][i])
    &&& forall|i: int| 0 <= i < c.len() ==> in_some_class(q, #[trigger] c[i])
    &&& forall|k: int, l: int, i: int, j: int|
        0 <= k < q.len() && 0 <= l < q.len() && 0 <= i < q[k].len() && 0 <= j < q[l].len()
            && #[trigger] q[k][i] == #[trigger] q[l][j] ==> k == l
}

/// A division into classes is an increasing sequence of classes.
pub proof fn lemma_partition_sorted<M>(less: spec_fn(M, M) -> bool, q: Seq<Seq<M>>, c: Seq<M>)
    requires
        is_partition_of(less, q, c),
    ensures
        increasing(lex(less), q),
{
    assert forall|i: int, j: int| 0 <= i < j < q.len() implies (lex(less))(q[i], q[j]) by {
        assert(q[i].len() > 0 && q[j].len() > 0);
        assert(less(q[i][0], q[j][0]));
        assert(decided_at(less, q[i], q[j], 0));
    }
}

/// A division of `c` with a new last class that holds `x` alone is a
/// division of `c` with `x`, where `x` is greater than every element of
/// `c`.
pub proof fn lemma_new_class<M>(less: spec_fn(M, M) -> bool, q: Seq<Seq<M>>, c: Seq<M>, x: M)
    requires
        strict_total(less),
        is_partition_of(less, q, c),
        forall|i: int| 0 <= i < c.len() ==> less(#[trigger] c[i], x),
    ensures
        is_partition_of(less, q.push(seq![x]), c.push(x)),
{
    let q2 = q.push(seq![x]);
    let c2 = c.push(x);
    assert forall|i: int| 0 <= i < c.len() implies c[i] != x by {
        assert(less(c[i], x));
        assert(!less(x, x));
    }
    assert forall|k: int| 0 <= k < q2.len() implies (#[trigger] q2[k]).len() > 0 && increasing(
        less,
        q2[k],
    ) by {
        if k < q.len() {
            assert(q2[k] == q[k]);
        }
    }
    assert forall|k: int, i: int| 0 <= k < q2.len() && 0 <= i < q2[k].len() implies c2.contains(
        #[trigger] q2[k][i],
    ) by {
        if k < q.len() {
            assert(q2[k] == q[k]);
            assert(c.contains(q[k][i]));
            let l = choose|l: int| 0 <= l < c.len() && c[l] == q[k][i];
            assert(c2[l] == q[k][i]);
        } else {
            assert(c2[c.len() as int] == x);
        }
    }
    assert forall|i: int, j: int| 0 <= i < j < q2.len() implies less(
        #[trigger] q2[i][0],
        #[trigger] q2[j][0],
    ) by {
        assert(q2[i] == q[i]);
        if j < q.len() {
            assert(q2[j] == q[j]);
        } else {
            assert(c.contains(q[i][0]));
            let l = choose|l: int| 0 <= l < c.len() && c[l] == q[i][0];
            assert(less(c[l], x));
        }
    }
    assert forall|i: int| 0 <= i < c2.len() implies in_some_class(q2, #[trigger] c2[i]) by {
        if i < c.len() {
            assert(in_some_class(q, c[i]));
            let k = choose|k: int| 0 <= k < q.len() && (#[trigger] q[k]).contains(c[i]);
            assert(q2[k] == q[k]);
            assert(q2[k].contains(c2[i]));
        } else {
            assert(q2[q.len() as int][0] == x);
            assert(q2[q.len() as int].contains(c2[i]));
        }
    }
    assert forall|k: int, l: int, i: int, j: int|
        0 <= k < q2.len() && 0 <= l < q2.len() && 0 <= i < q2[k].len() && 0 <= j < q2[l].len()
            && #[trigger] q2[k][i] == #[trigger] q2[l][j] implies k == l by {
        if k < q.len() && l < q.len() {
            assert(q2[k] == q[k] && q2[l] == q[l]);
            assert(q[k][i] == q[l][j]);
        } else if k < q.len() {
            assert(q2[k] == q[k]);
            assert(c.contains(q[k][i]));
            let t = choose|t: int| 0 <= t < c.len() && c[t] == q[k][i];
            assert(c[t] != x);
        } else if l < q.len() {
            assert(q2[l] == q[l]);
            assert(c.contains(q[l][j]));
            let t = choose|t: int| 0 <= t < c.len() && c[t] == q[l][j];
            assert(c[t] != x);
        }
    }
}

/// A division of `c` in which `x` has joined the class with index `n` is
/// a division of `c` with `x`, where `x` is greater than every element
/// of `c`.
pub proof fn lemma_grown_class<M>(less: spec_fn(M, M) -> bool, q: Seq<Seq<M>>, c: Seq<M>, x: M, n: int)
    requires
        strict_total(less),
        is_partition_of(less, q, c),
        forall|i: int| 0 <= i < c.len() ==> less(#[trigger] c[i], x),
        0 <= n < q.len(),
    ensures
        is_partition_of(less, q.update(n, q[n].push(x)), c.push(x)),
{
    let b = q[n].push(x);
    let q2 = q.update(n, b);
    let c2 = c.push(x);
    assert forall|i: int| 0 <= i < c.len() implies c[i] != x by {
        assert(less(c[i], x));
        assert(!less(x, x));
    }
    assert forall|k: int| 0 <= k < q2.len() implies (#[trigger] q2[k]).len() > 0 && increasing(
        less,
        q2[k],
    ) by {
        if k != n {
            assert(q2[k] == q[k]);
        } else {
            assert(q[n].len() > 0 && increasing(less, q[n]));
            assert forall|i: int, j: int| 0 <= i < j < b.len() implies less(b[i], b[j]) by {
                if j < q[n].len() {
                    assert(b[i] == q[n][i] && b[j] == q[n][j]);
                } else {
                    assert(b[i] == q[n][i]);
                    assert(c.contains(q[n][i]));
                    let t = choose|t: int| 0 <= t < c.len() && c[t] == q[n][i];
                    assert(less(c[t], x));
                }
            }
        }
    }
    assert forall|k: int, i: int| 0 <= k < q2.len() && 0 <= i < q2[k].len() implies c2.contains(
        #[trigger] q2[k][i],
    ) by {
        if k == n && i == q[n].len() {
            assert(c2[c.len() as int] == x);
        } else {
            assert(q2[k][i] == q[k][i]);
            assert(c.contains(q[k][i]));
            let l = choose|l: int| 0 <= l < c.len() && c[l] == q[k][i];
            assert(c2[l] == q[k][i]);
        }
    }
    assert forall|i: int, j: int| 0 <= i < j < q2.len() implies less(
        #[trigger] q2[i][0],
        #[trigger] q2[j][0],
    ) by {
        assert(q[i].len() > 0 && q[j].len() > 0);
        assert(q2[i][0] == q[i][0]);
        assert(q2[j][0] == q[j][0]);
        assert(less(q[i][0], q[j][0]));
    }
    assert forall|i: int| 0 <= i < c2.len() implies in_some_class(q2, #[trigger] c2[i]) by {
        if i < c.len() {
            assert(in_some_class(q, c[i]));
            let k = choose|k: int| 0 <= k < q.len() && (#[trigger] q[k]).contains(c[i]);
            let t = choose|t: int| 0 <= t < q[k].len() && q[k][t] == c[i];
            assert(q2[k][t] == c[i]);
            assert(q2[k].contains(c2[i]));
        } else {
            assert(q2[n][q[n].len() as int] == x);
            assert(q2[n].contains(c2[i]));
        }
    }
    assert forall|k: int, l: int, i: int, j: int|
        0 <= k < q2.len() && 0 <= l < q2.len() && 0 <= i < q2[k].len() && 0 <= j < q2[l].len()
            && #[trigger] q2[k][i] == #[trigger] q2[l][j] implies k == l by {
        let from_x_k = k == n && i == q[n].len();
        let from_x_l = l == n && j == q[n].len();
        if !from_x_k && !from_x_l {
            assert(q2[k][i] == q[k][i] && q2[l][j] == q[l][j]);
            assert(q[k][i] == q[l][j]);
        } else if !from_x_k {
            assert(q2[k][i] == q[k][i]);
            assert(c.contains(q[k][i]));
            let t = choose|t: int| 0 <= t < c.len() && c[t] == q[k][i];
            assert(c[t] != x);
        } else if !from_x_l {
            assert(q2[l][j] == q[l][j]);
            assert(c.contains(q[l][j]));
            let t = choose|t: int| 0 <= t < c.len() && c[t] == q[l][j];
            assert(c[t] != x);
        }
    }
}

/// The division `q` of a set with the new greatest element `x` comes from
/// a division of the set without `x`: `x` is a class of its own, the
/// last one, or the last element of a class that has other elements.
pub proof fn lemma_shrink<M>(less: spec_fn(M, M) -> bool, q: Seq<Seq<M>>, c: Seq<M>, x: M)
    requires
        strict_total(less),
        is_partition_of(less, q, c.push(x)),
        forall|i: int| 0 <= i < c.len() ==> less(#[trigger] c[i], x),
    ensures
        (q.len() > 0 && q.last() == seq![x] && is_partition_of(less, q.drop_last(), c)) || exists|
            n: int,
        |
            0 <= n < q.len() && (#[trigger] q[n]).len() >= 2 && q[n].last() == x && is_partition_of(
                less,
                q.update(n, q[n].drop_last()),
                c,
            ),
{
    let c2 = c.push(x);
    assert(c2[c.len() as int] == x);
    assert(in_some_class(q, c2[c.len() as int]));
    let n = choose|n: int| 0 <= n < q.len() && (#[trigger] q[n]).contains(x);
    let t = choose|t: int| 0 <= t < q[n].len() && q[n][t] == x;
    // no element of c2 is greater than x
    assert forall|y: M| c2.contains(y) implies !less(x, y) by {
        let l = choose|l: int| 0 <= l < c2.len() && c2[l] == y;
        if l < c.len() {
            assert(c2[l] == c[l]);
            assert(less(c[l], x));
            if less(x, y) {
                assert(less(x, x));
            }
        } else {
            assert(!less(x, x));
        }
    }
    // x is the last element of its class
    if t < q[n].len() - 1 {
        assert(less(q[n][t], q[n][q[n].len() - 1]));
        assert(c2.contains(q[n][q[n].len() - 1]));
    }
    assert(t == q[n].len() - 1);
    // every other element of a class is an element of c
    assert forall|k: int, i: int|
        0 <= k < q.len() && 0 <= i < q[k].len() && !(k == n && i == t) implies c.contains(
        #[trigger] q[k][i],
    ) by {
        assert(c2.contains(q[k][i]));
        let l = choose|l: int| 0 <= l < c2.len() && c2[l] == q[k][i];
        if l == c.len() {
            assert(q[k][i] == q[n][t]);
            assert(k == n);
            if i < t {
                assert(less(q[n][i], q[n][t]));
                assert(less(x, x));
            }
        }
        assert(c2[l] == c[l]);
    }
    if q[n].len() == 1 {
        assert(q[n] =~= seq![x]);
        if n < q.len() - 1 {
            assert(less(q[n][0], q[q.len() - 1][0]));
            assert(c2.contains(q[q.len() - 1][0]));
        }
        assert(n == q.len() - 1);
        let p = q.drop_last();
        assert forall|k: int, i: int| 0 <= k < p.len() && 0 <= i < p[k].len() implies c.contains(
            #[trigger] p[k][i],
        ) by {
            assert(p[k] == q[k]);
            assert(c.contains(q[k][i]));
        }
        assert forall|i: int, j: int| 0 <= i < j < p.len() implies less(
            #[trigger] p[i][0],
            #[trigger] p[j][0],
        ) by {
            assert(p[i] == q[i] && p[j] == q[j]);
        }
        assert forall|k: int| 0 <= k < p.len() implies (#[trigger] p[k]).len() > 0 && increasing(
            less,
            p[k],
        ) by {
            assert(p[k] == q[k]);
        }
        assert forall|i: int| 0 <= i < c.len() implies in_some_class(p, #[trigger] c[i]) by {
            assert(c2[i] == c[i]);
            assert(in_some_class(q, c2[i]));
            let k = choose|k: int| 0 <= k < q.len() && (#[trigger] q[k]).contains(c[i]);
            let l = choose|l: int| 0 <= l < q[k].len() && q[k][l] == c[i];
            if k == n {
                assert(less(c[i], x));
                assert(less(x, x));
            }
            assert(p[k] == q[k]);
            assert(p[k].contains(c[i]));
        }
        assert forall|k: int, l: int, i: int, j: int|
            0 <= k < p.len() && 0 <= l < p.len() && 0 <= i < p[k].len() && 0 <= j < p[l].len()
                && #[trigger] p[k][i] == #[trigger] p[l][j] implies k == l by {
            assert(p[k] == q[k] && p[l] == q[l]);
            assert(q[k][i] == q[l][j]);
        }
        assert(is_partition_of(less, p, c));
    } else {
        let b = q[n].drop_last();
        let p = q.update(n, b);
        assert forall|k: int, i: int| 0 <= k < p.len() && 0 <= i < p[k].len() implies c.contains(
            #[trigger] p[k][i],
        ) by {
            assert(p[k][i] == q[k][i]);
            assert(c.contains(q[k][i]));
        }
        assert forall|i: int, j: int| 0 <= i < j < p.len() implies less(
            #[trigger] p[i][0],
            #[trigger] p[j][0],
        ) by {
            assert(q[i].len() > 0 && q[j].len() > 0);
            assert(p[i][0] == q[i][0] && p[j][0] == q[j][0]);
            assert(less(q[i][0], q[j][0]));
        }
        assert forall|k: int| 0 <= k < p.len() implies (#[trigger] p[k]).len() > 0 && increasing(
            less,
            p[k],
        ) by {
            assert(q[k].len() > 0 && increasing(less, q[k]));
            if k == n {
                assert forall|i: int, j: int| 0 <= i < j < b.len() implies less(b[i], b[j]) by {
                    assert(b[i] == q[n][i] && b[j] == q[n][j]);
                }
            } else {
                assert(p[k] == q[k]);
            }
        }
        assert forall|i: int| 0 <= i < c.len() implies in_some_class(p, #[trigger] c[i]) by {
            assert(c2[i] == c[i]);
            assert(in_some_class(q, c2[i]));
            let k = choose|k: int| 0 <= k < q.len() && (#[trigger] q[k]).contains(c[i]);
            let l = choose|l: int| 0 <= l < q[k].len() && q[k][l] == c[i];
            if k == n && l == t {
                assert(less(c[i], x));
                assert(less(x, x));
            }
            assert(p[k][l] == c[i]);
            assert(p[k].contains(c[i]));
        }
        assert forall|k: int, l: int, i: int, j: int|
            0 <= k < p.len() && 0 <= l < p.len() && 0 <= i < p[k].len() && 0 <= j < p[l].len()
                && #[trigger] p[k][i] == #[trigger] p[l][j] implies k == l by {
            assert(p[k][i] == q[k][i] && p[l][j] == q[l][j]);
            assert(q[k][i] == q[l][j]);
        }
        assert(is_partition_of(less, p, c));
        assert(q[n].len() >= 2 && q[n].last() == x);
    }
}

/// The only division of a set with one element has that element as its
/// one class.
pub proof fn lemma_single<M>(less: spec_fn(M, M) -> bool, q: Seq<Seq<M>>, x: M)
    requires
        strict_total(less),
        is_partition_of(less, q, seq![x]),
    ensures
        q == seq![seq![x]],
{
    let c = Seq::<M>::empty();
    assert(c.push(x) =~= seq![x]);
    lemma_shrink(less, q, c, x);
    if q.len() > 0 && q.last() == seq![x] && is_partition_of(less, q.drop_last(), c) {
        let p = q.drop_last();
        if p.len() > 0 {
            assert(p[0].len() > 0);
            assert(c.contains(p[0][0]));
        }
        assert(q =~= seq![seq![x]]);
    } else {
        let n = choose|n: int|
            0 <= n < q.len() && (#[trigger] q[n]).len() >= 2 && q[n].last() == x
                && is_partition_of(less, q.update(n, q[n].drop_last()), c);
        let p = q.update(n, q[n].drop_last());
        assert(p[n].len() > 0);
        assert(c.contains(p[n][0]));
    }
}

/// Whether a division with `len` classes is within the limit `cap`.
pub open spec fn within(len: nat, cap: Option<usize>) -> bool {
    match cap {
        None => true,
        Some(c) => len <= c,
    }
}

/// `q` is `p` with `x` added: as a new last class, where `p` has fewer
/// than `cap` classes, or to one of the classes of `p`.
pub open spec fn grown_from<M>(p: Seq<Seq<M>>, q: Seq<Seq<M>>, x: M, cap: Option<usize>) -> bool {
    ||| within(p.len() + 1, cap) && q == p.push(seq![x])
    ||| exists|n: int| 0 <= n < p.len() && q == #[trigger] p.update(n, p[n].push(x))
}

/// Every division of `parts` with `x` added: as a new last class, where
/// the division has fewer than `cap` classes, and to each of its classes
/// in turn.
fn grow<T: Keyed>(parts: &Vec<Vec<Vec<T>>>, x: &T, cap: Option<usize>, Ghost(c): Ghost<Seq<T::Model>>) -> (r:
    Vec<Vec<Vec<T>>>)
    requires
        forall|a: int|
            0 <= a < parts@.len() ==> is_partition_of(T::less(), (#[trigger] parts@[a]).model(), c)
                && within(parts@[a]@.len() as nat, cap),
        forall|i: int| 0 <= i < c.len() ==> (T::less())(#[trigger] c[i], x.model()),
    ensures
        sorted(r@),
        forall|a: int|
            0 <= a < r@.len() ==> is_partition_of(
                T::less(),
                (#[trigger] r@[a]).model(),
                c.push(x.model()),
            ) && within(r@[a]@.len() as nat, cap),
        forall|a: int, q: Seq<Seq<T::Model>>|
            0 <= a < parts@.len() && grown_from((#[trigger] parts@[a]).model(), q, x.model(), cap)
                ==> #[trigger] models(r@).contains(q),
{
    let ghost less = T::less();
    let ghost xm = x.model();
    let ghost c2 = c.push(xm);
    proof {
        T::lemma_order();
    }
    let mut r: Vec<Vec<Vec<T>>> = Vec::new();
    let mut a: usize = 0;
    while a < parts.len()
        invariant
            a <= parts.len(),
            sorted(r@),
            strict_total(less),
            forall|b: int|
                0 <= b < r@.len() ==> is_partition_of(less, (#[trigger] r@[b]).model(), c2)
                    && within(r@[b]@.len() as nat, cap),
            forall|b: int, q: Seq<Seq<T::Model>>|
                0 <= b < a && grown_from((#[trigger] parts@[b]).model(), q, xm, cap)
                    ==> #[trigger] models(r@).contains(q),
        decreases parts.len() - a,
    {
        let classes = &parts[a];
        let ghost p = classes.model();
        let ghost start = models(r@);
        assert(is_partition_of(less, p, c));
        let room = match cap {
            None => true,
            Some(limit) => classes.len() < limit,
        };
        if room {
            let mut grown = classes.copy();
            let mut new_class: Vec<T> = Vec::new();
            new_class.push(x.copy());
            grown.push(new_class);
            proof {
                assert(grown.model() =~= p.push(seq![xm])) by {
                    assert(grown@[p.len() as int].model() =~= seq![xm]);
                }
                lemma_new_class(less, p, c, xm);
            }
            add_division(&mut r, grown, Ghost(c2), cap);
        }
        let ghost mid = models(r@);
        let mut n: usize = 0;
        while n < classes.len()
            invariant
                n <= classes.len(),
                a < parts.len(),
                classes == &parts[a as int],
                p == classes.model(),
                is_partition_of(less, p, c),
                within(p.len(), cap),
                sorted(r@),
                strict_total(less),
                forall|b: int|
                    0 <= b < r@.len() ==> is_partition_of(less, (#[trigger] r@[b]).model(), c2)
                        && within(r@[b]@.len() as nat, cap),
                forall|q: Seq<Seq<T::Model>>| mid.contains(q) ==> #[trigger] models(r@).contains(q),
                forall|l: int|
                    0 <= l < n ==> models(r@).contains(#[trigger] p.update(l, p[l].push(xm))),
            decreases classes.len() - n,
        {
            let mut grown = classes.copy();
            let mut class = classes[n].copy();
            class.push(x.copy());
            proof {
                assert(class.model() =~= p[n as int].push(xm));
            }
            grown.set(n, class);
            proof {
                assert(grown.model() =~= p.update(n as int, p[n as int].push(xm)));
                lemma_grown_class(less, p, c, xm, n as int);
                assert(grown@.len() == p.len());
            }
            add_division(&mut r, grown, Ghost(c2), cap);
            n += 1;
        }
        proof {
            assert forall|b: int, q: Seq<Seq<T::Model>>|
                0 <= b < a + 1 && grown_from(
                    (#[trigger] parts@[b]).model(),
                    q,
                    xm,
                    cap,
                ) implies #[trigger] models(r@).contains(q) by {
                if b < a {
                    assert(start.contains(q));
                    assert(mid.contains(q));
                } else {
                    if within(p.len() + 1, cap) && q == p.push(seq![xm]) {
                        assert(room);
                        assert(mid.contains(q));
                    } else {
                        let l = choose|l: int|
                            0 <= l < p.len() && q == #[trigger] p.update(l, p[l].push(xm));
                        assert(models(r@).contains(p.update(l, p[l].push(xm))));
                    }
                }
            }
        }
        a += 1;
    }
    r
}

/// Adds one division to a set of divisions.
fn add_division<T: Keyed>(
    r: &mut Vec<Vec<Vec<T>>>,
    grown: Vec<Vec<T>>,
    Ghost(c2): Ghost<Seq<T::Model>>,
    cap: Option<usize>,
)
    requires
        sorted(old(r)@),
        is_partition_of(T::less(), grown.model(), c2),
        within(grown@.len() as nat, cap),
        forall|b: int|
            0 <= b < old(r)@.len() ==> is_partition_of(T::less(), (#[trigger] old(r)@[b]).model(), c2)
                && within(old(r)@[b]@.len() as nat, cap),
    ensures
        sorted(final(r)@),
        forall|b: int|
            0 <= b < final(r)@.len() ==> is_partition_of(
                T::less(),
                (#[trigger] final(r)@[b]).model(),
                c2,
            ) && within(final(r)@[b]@.len() as nat, cap),
        forall|q: Seq<Seq<T::Model>>|
            models(old(r)@).contains(q) ==> #[trigger] models(final(r)@).contains(q),
        models(final(r)@).contains(grown.model()),
{
    let ghost before = models(r@);
    let ghost gm = grown.model();
    let ghost glen = grown@.len();
    insert(r, grown);
    proof {
        assert forall|b: int| 0 <= b < r@.len() implies is_partition_of(
            T::less(),
            (#[trigger] r@[b]).model(),
            c2,
        ) && within(r@[b]@.len() as nat, cap) by {
            let m = models(r@)[b];
            assert(models(r@).contains(m));
            assert(r@[b]@.len() == m.len());
            if before.contains(m) {
                let t = choose|t: int| 0 <= t < before.len() && before[t] == m;
                assert(old(r)@[t].model() == m);
                assert(old(r)@[t]@.len() == m.len());
            } else {
                assert(m == gm);
                assert(gm.len() == glen);
            }
        }
    }
}

/// All divisions of the set `s` into classes.
pub fn partition<T: Keyed>(s: &Vec<T>) -> (r: Vec<Vec<Vec<T>>>)
    requires
        sorted(s@),
        s@.len() >= 1,
    ensures
        sorted(r@),
        forall|q: Seq<Seq<T::Model>>|
            models(r@).contains(q) <==> is_partition_of(T::less(), q, models(s@)),
        r@.len() == bell_number(s@.len() as nat),
{
    let r = divisions(s, None);
    proof {
        let l = models(r@);
        T::lemma_order();
        <Vec<Vec<T>> as Keyed>::lemma_order();
        assert forall|i: int, j: int| 0 <= i < l.len() && 0 <= j < l.len() && i != j implies l[i]
            != l[j] by {
            if i < j {
                assert((<Vec<Vec<T>> as Keyed>::less())(l[i], l[j]));
            } else {
                assert((<Vec<Vec<T>> as Keyed>::less())(l[j], l[i]));
            }
        }
        lemma_division_count(T::less(), models(s@), l);
    }
    r
}

/// All divisions of the set `s` into at most `cap` classes.
fn divisions<T: Keyed>(s: &Vec<T>, cap: Option<usize>) -> (r: Vec<Vec<Vec<T>>>)
    requires
        sorted(s@),
        s@.len() >= 1,
        within(1, cap),
    ensures
        sorted(r@),
        forall|q: Seq<Seq<T::Model>>|
            models(r@).contains(q) <==> (is_partition_of(T::less(), q, models(s@)) && within(
                q.len(),
                cap,
            )),
{
    let ghost less = T::less();
    let ghost m = models(s@);
    proof {
        T::lemma_order();
    }
    let mut class: Vec<T> = Vec::new();
    class.push(s[0].copy());
    let mut first: Vec<Vec<T>> = Vec::new();
    first.push(class);
    let mut acc: Vec<Vec<Vec<T>>> = Vec::new();
    acc.push(first);
    proof {
        let q = acc@[0].model();
        assert(q =~= seq![seq![m[0]]]) by {
            assert(acc@[0]@[0].model() =~= seq![m[0]]);
        }
        let c = m.take(1);
        assert(c =~= seq![m[0]]);
        assert(q[0].contains(m[0])) by {
            assert(q[0][0] == m[0]);
        }
        assert(in_some_class(q, c[0]));
        assert forall|k: int, i: int| 0 <= k < q.len() && 0 <= i < q[k].len() implies c.contains(
            #[trigger] q[k][i],
        ) by {
            assert(c[0] == q[k][i]);
        }
        assert(is_partition_of(less, q, c));
        assert(models(acc@).len() == 1);
        assert forall|g: Seq<Seq<T::Model>>|
            models(acc@).contains(g) <==> (is_partition_of(less, g, c) && within(g.len(), cap)) by {
            if models(acc@).contains(g) {
                let l = choose|l: int| 0 <= l < models(acc@).len() && models(acc@)[l] == g;
                assert(g == q);
            }
            if is_partition_of(less, g, c) {
                lemma_single(less, g, m[0]);
                assert(models(acc@)[0] == g);
            }
        }
    }
    let mut i: usize = 1;
    while i < s.len()
        invariant
            1 <= i <= s.len(),
            m == models(s@),
            sorted(s@),
            sorted(acc@),
            strict_total(less),
            within(1, cap),
            forall|q: Seq<Seq<T::Model>>| #[trigger]
                models(acc@).contains(q) <==> (is_partition_of(less, q, m.take(i as int))
                    && within(q.len(), cap)),
        decreases s.len() - i,
    {
        let ghost c = m.take(i as int);
        let ghost x = m[i as int];
        let ghost before = models(acc@);
        let ghost old_acc = acc@;
        proof {
            assert forall|j: int| 0 <= j < c.len() implies (less)(#[trigger] c[j], x) by {
                assert(c[j] == m[j]);
            }
            assert(c.push(x) =~= m.take(i + 1));
            assert forall|a: int| 0 <= a < acc@.len() implies is_partition_of(
                less,
                (#[trigger] acc@[a]).model(),
                c,
            ) && within(acc@[a]@.len() as nat, cap) by {
                let q = models(acc@)[a];
                assert(models(acc@).contains(q));
                assert(acc@[a]@.len() == q.len());
            }
        }
        acc = grow(&acc, &s[i], cap, Ghost(c));
        proof {
            assert forall|q: Seq<Seq<T::Model>>| #[trigger]
                models(acc@).contains(q) <==> (is_partition_of(less, q, m.take(i + 1)) && within(
                    q.len(),
                    cap,
                )) by {
                if models(acc@).contains(q) {
                    let l = choose|l: int| 0 <= l < models(acc@).len() && models(acc@)[l] == q;
                    assert(acc@[l].model() == q);
                    assert(acc@[l]@.len() == q.len());
                }
                if is_partition_of(less, q, m.take(i + 1)) && within(q.len(), cap) {
                    lemma_shrink(less, q, c, x);
                    if q.len() > 0 && q.last() == seq![x] && is_partition_of(
                        less,
                        q.drop_last(),
                        c,
                    ) {
                        let p = q.drop_last();
                        assert(within(p.len(), cap));
                        assert(before.contains(p));
                        let a = choose|a: int| 0 <= a < before.len() && before[a] == p;
                        assert(old_acc[a].model() == p);
                        assert(q =~= p.push(seq![x]));
                        assert(grown_from(old_acc[a].model(), q, x, cap));
                    } else {
                        let n = choose|n: int|
                            0 <= n < q.len() && (#[trigger] q[n]).len() >= 2 && q[n].last() == x
                                && is_partition_of(less, q.update(n, q[n].drop_last()), c);
                        let p = q.update(n, q[n].drop_last());
                        assert(within(p.len(), cap));
                        assert(before.contains(p));
                        let a = choose|a: int| 0 <= a < before.len() && before[a] == p;
                        assert(old_acc[a].model() == p);
                        assert(p[n].push(x) =~= q[n]);
                        assert(q =~= p.update(n, p[n].push(x)));
                        assert(grown_from(old_acc[a].model(), q, x, cap));
                    }
                }
            }
        }
        i += 1;
    }
    proof {
        assert(m.take(i as int) =~= m);
    }
    acc
}

/// All divisions of the set `s` into exactly `m` classes.
pub fn divide_into_classes<T: Keyed>(s: &Vec<T>, m: usize) -> (r: Vec<Vec<Vec<T>>>)
    requires
        sorted(s@),
    ensures
        sorted(r@),
        forall|q: Seq<Seq<T::Model>>|
            models(r@).contains(q) <==> (q.len() == m && s@.len() > 0 && is_partition_of(
                T::less(),
                q,
                models(s@),
            )),
{
    let mut r: Vec<Vec<Vec<T>>> = Vec::new();
    if s.len() == 0 {
        return r;
    }
    if m == 0 {
        proof {
            assert forall|q: Seq<Seq<T::Model>>|
                !(q.len() == 0 && is_partition_of(T::less(), q, models(s@))) by {
                if q.len() == 0 && is_partition_of(T::less(), q, models(s@)) {
                    assert(in_some_class(q, models(s@)[0]));
                }
            }
        }
        return r;
    }
    let all = divisions(s, Some(m));
    let mut a: usize = 0;
    while a < all.len()
        invariant
            a <= all.len(),
            sorted(r@),
            forall|q: Seq<Seq<T::Model>>| #[trigger]
                models(r@).contains(q) <==> (q.len() == m && exists|b: int|
                    0 <= b < a && #[trigger] models(all@)[b] == q),
        decreases all.len() - a,
    {
        let ghost before = models(r@);
        if all[a].len() == m {
            let item = all[a].copy();
            assert(item.model() == models(all@)[a as int]);
            assert(item.model().len() == all@[a as int]@.len());
            insert(&mut r, item);
        }
        proof {
            assert(models(all@)[a as int].len() == all@[a as int]@.len());
            assert forall|q: Seq<Seq<T::Model>>| #[trigger]
                models(r@).contains(q) <==> (q.len() == m && exists|b: int|
                    0 <= b < a + 1 && #[trigger] models(all@)[b] == q) by {
                if models(r@).contains(q) {
                    if before.contains(q) {
                        let b = choose|b: int| 0 <= b < a && #[trigger] models(all@)[b] == q;
                        assert(0 <= b < a + 1 && models(all@)[b] == q);
                    } else {
                        assert(models(all@)[a as int] == q);
                    }
                }
                if q.len() == m && exists|b: int|
                    0 <= b < a + 1 && #[trigger] models(all@)[b] == q {
                    let b = choose|b: int| 0 <= b < a + 1 && #[trigger] models(all@)[b] == q;
                    if b < a {
                        assert(before.contains(q));
                    }
                }
            }
        }
        a += 1;
    }
    proof {
        assert forall|q: Seq<Seq<T::Model>>|
            models(r@).contains(q) <==> (q.len() == m && s@.len() > 0 && is_partition_of(
                T::less(),
                q,
                models(s@),
            )) by {
            if models(r@).contains(q) {
                let b = choose|b: int| 0 <= b < a && #[trigger] models(all@)[b] == q;
                assert(models(all@).contains(q));
            }
            if q.len() == m && is_partition_of(T::less(), q, models(s@)) {
                assert(models(all@).contains(q));
                let b = choose|b: int| 0 <= b < models(all@).len() && models(all@)[b] == q;
                assert(0 <= b < a && models(all@)[b] == q);
            }
        }
    }
    r
}

} // verus!
