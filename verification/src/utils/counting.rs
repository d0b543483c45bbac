//! How many divisions a set has: as many as its Bell number says.
//!
//! The divisions of a set with a new greatest element come from those of
//! the set without it: the new element is a class of its own, or it joins
//! one of the classes. Counted by their numbers of classes, this is how
//! the Stirling numbers grow.
use vstd::prelude::*;
use vstd::seq_lib::lemma_no_dup_in_concat;
use crate::order::{increasing, strict_total};
use crate::utils::structures::{
    grown_from, in_some_class, is_partition_of, lemma_grown_class, lemma_new_class, lemma_shrink,
};
use crate::utils::{bell_number, stirling, stirling_sum};

verus! {

/// The divisions that come from `p` when `x` joins it: as a class of its
/// own, then as a member of each of the first `n` classes in turn.
pub open spec fn ways<M>(p: Seq<Seq<M>>, x: M, n: nat) -> Seq<Seq<Seq<M>>>
    decreases n,
{
    if n == 0 {
        seq![p.push(seq![x])]
    } else {
        ways(p, x, (n - 1) as nat).push(p.update(n - 1, p[n - 1].push(x)))
    }
}

/// The divisions that come from those of `ps` when `x` joins them.
pub open spec fn grown_all<M>(ps: Seq<Seq<Seq<M>>>, x: M) -> Seq<Seq<Seq<M>>>
    decreases ps.len(),
{
    if ps.len() == 0 {
        Seq::empty()
    } else {
        grown_all(ps.drop_last(), x) + ways(ps.last(), x, ps.last().len())
    }
}

/// The divisions of the first `n` elements of `c`: the elements join one
/// after the other.
pub open spec fn division_list<M>(c: Seq<M>, n: nat) -> Seq<Seq<Seq<M>>>
    decreases n,
{
    if n == 0 {
        seq![Seq::empty()]
    } else {
        grown_all(division_list(c, (n - 1) as nat), c[n - 1])
    }
}

/// The division `q` without `x`, where `x` is a class of its own at the
/// end or the last element of a class.
pub open spec fn removed<M>(q: Seq<Seq<M>>, x: M) -> Seq<Seq<M>> {
    if q.len() > 0 && q.last() == seq![x] {
        q.drop_last()
    } else {
        let n = choose|n: int| 0 <= n < q.len() && (#[trigger] q[n]).len() > 0 && q[n].last() == x;
        q.update(n, q[n].drop_last())
    }
}

/// The number of divisions in `l` with `k` classes.
pub open spec fn with_classes<M>(l: Seq<Seq<Seq<M>>>, k: nat) -> nat
    decreases l.len(),
{
    if l.len() == 0 {
        0
    } else {
        with_classes(l.drop_last(), k) + if l.last().len() == k {
            1nat
        } else {
            0nat
        }
    }
}

/// The number of divisions in `l` with at most `k` classes.
pub open spec fn with_at_most<M>(l: Seq<Seq<Seq<M>>>, k: nat) -> nat
    decreases k,
{
    if k == 0 {
        with_classes(l, 0)
    } else {
        with_at_most(l, (k - 1) as nat) + with_classes(l, k)
    }
}

/// What `ways` lists, place by place.
proof fn lemma_ways<M>(p: Seq<Seq<M>>, x: M, n: nat)
    ensures
        ways(p, x, n).len() == n + 1,
        ways(p, x, n)[0] == p.push(seq![x]),
        forall|i: int| 1 <= i <= n ==> #[trigger] ways(p, x, n)[i] == p.update(i - 1, p[i - 1].push(x)),
    decreases n,
{
    if n > 0 {
        lemma_ways(p, x, (n - 1) as nat);
    }
}

/// `ways` lists what grows from `p`, and nothing else.
proof fn lemma_ways_members<M>(p: Seq<Seq<M>>, x: M, q: Seq<Seq<M>>)
    ensures
        ways(p, x, p.len()).contains(q) <==> grown_from(p, q, x, None),
{
    let w = ways(p, x, p.len());
    lemma_ways(p, x, p.len());
    if w.contains(q) {
        let i = choose|i: int| 0 <= i < w.len() && w[i] == q;
        if i > 0 {
            assert(q == p.update(i - 1, p[i - 1].push(x)));
        }
    }
    if grown_from(p, q, x, None) {
        if q == p.push(seq![x]) {
            assert(w[0] == q);
        } else {
            let n = choose|n: int| 0 <= n < p.len() && q == #[trigger] p.update(n, p[n].push(x));
            assert(w[n + 1] == q);
        }
    }
}

/// `grown_all` lists what grows from a division of `ps`, and nothing
/// else.
proof fn lemma_grown_members<M>(ps: Seq<Seq<Seq<M>>>, x: M, q: Seq<Seq<M>>)
    ensures
        grown_all(ps, x).contains(q) <==> exists|a: int|
            0 <= a < ps.len() && grown_from(#[trigger] ps[a], q, x, None),
    decreases ps.len(),
{
    if ps.len() > 0 {
        let rest = ps.drop_last();
        let g = grown_all(rest, x);
        let w = ways(ps.last(), x, ps.last().len());
        lemma_grown_members(rest, x, q);
        lemma_ways_members(ps.last(), x, q);
        if (g + w).contains(q) {
            let i = choose|i: int| 0 <= i < (g + w).len() && (g + w)[i] == q;
            if i < g.len() {
                assert(g[i] == q);
                let a = choose|a: int| 0 <= a < rest.len() && grown_from(#[trigger] rest[a], q, x, None);
                assert(ps[a] == rest[a]);
            } else {
                assert(w[i - g.len()] == q);
                assert(grown_from(ps[ps.len() - 1], q, x, None));
            }
        }
        if exists|a: int| 0 <= a < ps.len() && grown_from(#[trigger] ps[a], q, x, None) {
            let a = choose|a: int| 0 <= a < ps.len() && grown_from(#[trigger] ps[a], q, x, None);
            if a < rest.len() {
                assert(rest[a] == ps[a]);
                assert(g.contains(q));
                let i = choose|i: int| 0 <= i < g.len() && g[i] == q;
                assert((g + w)[i] == q);
            } else {
                assert(w.contains(q));
                let i = choose|i: int| 0 <= i < w.len() && w[i] == q;
                assert((g + w)[g.len() + i] == q);
            }
        }
    }
}

/// Without `x`, a division that grew from `p` is `p` again.
proof fn lemma_removed<M>(less: spec_fn(M, M) -> bool, p: Seq<Seq<M>>, c: Seq<M>, x: M, q: Seq<Seq<M>>)
    requires
        strict_total(less),
        is_partition_of(less, p, c),
        forall|i: int| 0 <= i < c.len() ==> less(#[trigger] c[i], x),
        grown_from(p, q, x, None),
    ensures
        removed(q, x) == p,
{
    assert forall|k: int, i: int| 0 <= k < p.len() && 0 <= i < p[k].len() implies #[trigger] p[k][i]
        != x by {
        assert(c.contains(p[k][i]));
        let t = choose|t: int| 0 <= t < c.len() && c[t] == p[k][i];
        assert(less(c[t], x));
    }
    if q == p.push(seq![x]) {
        assert(q.last() == seq![x]);
        assert(q.drop_last() =~= p);
    } else {
        let n = choose|n: int| 0 <= n < p.len() && q == #[trigger] p.update(n, p[n].push(x));
        assert(q.len() > 0);
        if q.last() == seq![x] {
            if n == p.len() - 1 {
                assert(q.last().len() == p[n].len() + 1);
                assert(p[n].len() > 0);
            } else {
                assert(q.last() == p[p.len() - 1]);
                assert(p[p.len() - 1][0] == seq![x][0]);
            }
        }
        assert(q[n].len() > 0 && q[n].last() == x);
        let l = choose|l: int| 0 <= l < q.len() && (#[trigger] q[l]).len() > 0 && q[l].last() == x;
        if l != n {
            assert(q[l] == p[l]);
            assert(p[l][p[l].len() - 1] == x);
        }
        assert(q[n].drop_last() =~= p[n]);
        assert(q.update(n, q[n].drop_last()) =~= p);
    }
}

/// Different divisions stay different when `x` joins them, and `x` joins
/// each in different ways.
proof fn lemma_grown_distinct<M>(less: spec_fn(M, M) -> bool, ps: Seq<Seq<Seq<M>>>, c: Seq<M>, x: M)
    requires
        strict_total(less),
        ps.no_duplicates(),
        forall|a: int| 0 <= a < ps.len() ==> is_partition_of(less, #[trigger] ps[a], c),
        forall|i: int| 0 <= i < c.len() ==> less(#[trigger] c[i], x),
    ensures
        grown_all(ps, x).no_duplicates(),
    decreases ps.len(),
{
    if ps.len() > 0 {
        let rest = ps.drop_last();
        let p = ps.last();
        let g = grown_all(rest, x);
        let w = ways(p, x, p.len());
        assert forall|a: int| 0 <= a < rest.len() implies is_partition_of(
            less,
            #[trigger] rest[a],
            c,
        ) by {
            assert(rest[a] == ps[a]);
        }
        lemma_grown_distinct(less, rest, c, x);
        lemma_ways(p, x, p.len());
        assert forall|i: int, j: int| 0 <= i < w.len() && 0 <= j < w.len() && i != j implies w[i]
            != w[j] by {
            if i == 0 || j == 0 {
                assert(w[i].len() != w[j].len());
            } else {
                assert(w[i][i - 1].len() == p[i - 1].len() + 1);
                assert(w[j][i - 1] == p[i - 1]);
            }
        }
        assert forall|i: int, j: int| 0 <= i < g.len() && 0 <= j < w.len() implies g[i] != w[j] by {
            if g[i] == w[j] {
                let q = g[i];
                assert(g.contains(q));
                assert(w.contains(q));
                lemma_grown_members(rest, x, q);
                lemma_ways_members(p, x, q);
                let a = choose|a: int| 0 <= a < rest.len() && grown_from(#[trigger] rest[a], q, x, None);
                lemma_removed(less, rest[a], c, x, q);
                lemma_removed(less, p, c, x, q);
                assert(ps[a] == rest[a]);
                assert(ps[a] == ps[ps.len() - 1]);
            }
        }
        lemma_no_dup_in_concat(g, w);
    }
}

/// The list holds the divisions of the first `n` elements of `c`, each
/// once, and none of them has more than `n` classes.
pub proof fn lemma_division_list<M>(less: spec_fn(M, M) -> bool, c: Seq<M>, n: nat)
    requires
        strict_total(less),
        increasing(less, c),
        n <= c.len(),
    ensures
        forall|q: Seq<Seq<M>>| #[trigger]
            division_list(c, n).contains(q) <==> is_partition_of(less, q, c.take(n as int)),
        division_list(c, n).no_duplicates(),
        forall|a: int|
            0 <= a < division_list(c, n).len() ==> (#[trigger] division_list(c, n)[a]).len() <= n,
    decreases n,
{
    let l = division_list(c, n);
    if n == 0 {
        let none = Seq::<Seq<M>>::empty();
        assert(l[0] == none);
        assert forall|q: Seq<Seq<M>>| #[trigger] l.contains(q) <==> is_partition_of(
            less,
            q,
            c.take(0),
        ) by {
            if is_partition_of(less, q, c.take(0)) {
                if q.len() > 0 {
                    assert(q[0].len() > 0);
                    assert(c.take(0).contains(q[0][0]));
                }
                assert(q =~= none);
            }
            if l.contains(q) {
                assert(q == none);
            }
        }
    } else {
        let before = division_list(c, (n - 1) as nat);
        let x = c[n - 1];
        let cp = c.take(n - 1);
        lemma_division_list(less, c, (n - 1) as nat);
        assert(cp.push(x) =~= c.take(n as int));
        assert forall|a: int| 0 <= a < before.len() implies is_partition_of(
            less,
            #[trigger] before[a],
            cp,
        ) by {
            assert(before.contains(before[a]));
        }
        lemma_grown_distinct(less, before, cp, x);
        assert forall|q: Seq<Seq<M>>| #[trigger] l.contains(q) <==> is_partition_of(
            less,
            q,
            c.take(n as int),
        ) by {
            lemma_grown_members(before, x, q);
            if l.contains(q) {
                let a = choose|a: int|
                    0 <= a < before.len() && grown_from(#[trigger] before[a], q, x, None);
                let p = before[a];
                if q == p.push(seq![x]) {
                    lemma_new_class(less, p, cp, x);
                } else {
                    let k = choose|k: int|
                        0 <= k < p.len() && q == #[trigger] p.update(k, p[k].push(x));
                    lemma_grown_class(less, p, cp, x, k);
                }
            }
            if is_partition_of(less, q, c.take(n as int)) {
                lemma_shrink(less, q, cp, x);
                if q.len() > 0 && q.last() == seq![x] && is_partition_of(less, q.drop_last(), cp) {
                    let p = q.drop_last();
                    assert(before.contains(p));
                    let a = choose|a: int| 0 <= a < before.len() && before[a] == p;
                    assert(q =~= p.push(seq![x]));
                    assert(grown_from(before[a], q, x, None));
                } else {
                    let k = choose|k: int|
                        0 <= k < q.len() && (#[trigger] q[k]).len() >= 2 && q[k].last() == x
                            && is_partition_of(less, q.update(k, q[k].drop_last()), cp);
                    let p = q.update(k, q[k].drop_last());
                    assert(before.contains(p));
                    let a = choose|a: int| 0 <= a < before.len() && before[a] == p;
                    assert(p[k].push(x) =~= q[k]);
                    assert(q =~= p.update(k, p[k].push(x)));
                    assert(grown_from(before[a], q, x, None));
                }
            }
        }
        assert forall|a: int| 0 <= a < l.len() implies (#[trigger] l[a]).len() <= n by {
            let q = l[a];
            assert(l.contains(q));
            lemma_grown_members(before, x, q);
            let b = choose|b: int|
                0 <= b < before.len() && grown_from(#[trigger] before[b], q, x, None);
            assert(before[b].len() <= n - 1);
        }
    }
}

/// The divisions of two lists are counted together.
proof fn lemma_count_joined<M>(a: Seq<Seq<Seq<M>>>, b: Seq<Seq<Seq<M>>>, k: nat)
    ensures
        with_classes(a + b, k) == with_classes(a, k) + with_classes(b, k),
    decreases b.len(),
{
    if b.len() == 0 {
        assert(a + b =~= a);
    } else {
        assert((a + b).drop_last() =~= a + b.drop_last());
        assert((a + b).last() == b.last());
        lemma_count_joined(a, b.drop_last(), k);
    }
}

/// With `x` as a class of its own a division has one class more; with
/// `x` in one of its classes it has as many as before.
proof fn lemma_count_ways<M>(p: Seq<Seq<M>>, x: M, n: nat, k: nat)
    requires
        n <= p.len(),
    ensures
        with_classes(ways(p, x, n), k) == (if p.len() + 1 == k {
            1nat
        } else {
            0nat
        }) + (if p.len() == k {
            n
        } else {
            0nat
        }),
    decreases n,
{
    let w = ways(p, x, n);
    if n == 0 {
        assert(w.drop_last() =~= Seq::<Seq<Seq<M>>>::empty());
        assert(w.last() == p.push(seq![x]));
        assert(with_classes(w.drop_last(), k) == 0);
    } else {
        let v = ways(p, x, (n - 1) as nat);
        lemma_count_ways(p, x, (n - 1) as nat, k);
        assert(w.drop_last() =~= v);
        assert(w.last().len() == p.len());
    }
}

/// The divisions with `k` classes come from those with `k` classes, in
/// `k` ways each, and from those with one class less.
proof fn lemma_count_grown<M>(ps: Seq<Seq<Seq<M>>>, x: M, k: nat)
    ensures
        k == 0 ==> with_classes(grown_all(ps, x), k) == 0,
        k > 0 ==> with_classes(grown_all(ps, x), k) == k * with_classes(ps, k) + with_classes(
            ps,
            (k - 1) as nat,
        ),
    decreases ps.len(),
{
    if ps.len() > 0 {
        let rest = ps.drop_last();
        let p = ps.last();
        lemma_count_grown(rest, x, k);
        lemma_count_joined(grown_all(rest, x), ways(p, x, p.len()), k);
        lemma_count_ways(p, x, p.len(), k);
        if k > 0 {
            let r = with_classes(rest, k);
            if p.len() == k {
                assert(k * (r + 1) == k * r + k) by (nonlinear_arith);
            }
        }
    } else {
        if k > 0 {
            assert(k * 0 == 0) by (nonlinear_arith);
        }
    }
}

/// The list of the divisions of `n` elements has as many divisions with
/// `k` classes as the Stirling number says.
proof fn lemma_count_list<M>(c: Seq<M>, n: nat, k: nat)
    ensures
        with_classes(division_list(c, n), k) == stirling(n, k),
    decreases n,
{
    if n == 0 {
        let l = division_list(c, 0);
        assert(l.drop_last() =~= Seq::<Seq<Seq<M>>>::empty());
        assert(l.last().len() == 0);
        assert(with_classes(l.drop_last(), k) == 0);
    } else {
        lemma_count_list(c, (n - 1) as nat, k);
        if k > 0 {
            lemma_count_list(c, (n - 1) as nat, (k - 1) as nat);
        }
        lemma_count_grown(division_list(c, (n - 1) as nat), c[n - 1], k);
    }
}

/// Counted up to `k` classes, the list has as many divisions as the sum
/// of the Stirling numbers says.
proof fn lemma_at_most_list<M>(c: Seq<M>, n: nat, k: nat)
    ensures
        with_at_most(division_list(c, n), k) == stirling_sum(n, k),
    decreases k,
{
    lemma_count_list(c, n, k);
    if k > 0 {
        lemma_at_most_list(c, n, (k - 1) as nat);
    }
}

/// One division more with at most `k` classes is one more in the count.
proof fn lemma_at_most_step<M>(l: Seq<Seq<Seq<M>>>, k: nat)
    requires
        l.len() > 0,
    ensures
        with_at_most(l, k) == with_at_most(l.drop_last(), k) + if l.last().len() <= k {
            1nat
        } else {
            0nat
        },
    decreases k,
{
    if k > 0 {
        lemma_at_most_step(l, (k - 1) as nat);
    }
}

/// Where no division has more than `k` classes, all are counted.
proof fn lemma_at_most_all<M>(l: Seq<Seq<Seq<M>>>, k: nat)
    requires
        forall|a: int| 0 <= a < l.len() ==> (#[trigger] l[a]).len() <= k,
    ensures
        with_at_most(l, k) == l.len(),
    decreases l.len(),
{
    if l.len() == 0 {
        lemma_at_most_none::<M>(k);
        assert(l =~= Seq::<Seq<Seq<M>>>::empty());
    } else {
        let rest = l.drop_last();
        assert forall|a: int| 0 <= a < rest.len() implies (#[trigger] rest[a]).len() <= k by {
            assert(rest[a] == l[a]);
        }
        lemma_at_most_all(rest, k);
        lemma_at_most_step(l, k);
    }
}

/// Nothing is counted in a list without divisions.
proof fn lemma_at_most_none<M>(k: nat)
    ensures
        with_at_most(Seq::<Seq<Seq<M>>>::empty(), k) == 0,
    decreases k,
{
    if k > 0 {
        lemma_at_most_none::<M>((k - 1) as nat);
    }
}

/// A set of `c.len()` elements has as many divisions into classes as its
/// Bell number says: every list `s` that holds each division of `c` once
/// is that long.
pub proof fn lemma_division_count<M>(less: spec_fn(M, M) -> bool, c: Seq<M>, s: Seq<Seq<Seq<M>>>)
    requires
        strict_total(less),
        increasing(less, c),
        s.no_duplicates(),
        forall|q: Seq<Seq<M>>| #[trigger] s.contains(q) <==> is_partition_of(less, q, c),
    ensures
        s.len() == bell_number(c.len()),
{
    let n = c.len();
    let l = division_list(c, n);
    lemma_division_list(less, c, n);
    assert(c.take(n as int) =~= c);
    lemma_at_most_list(c, n, n);
    lemma_at_most_all(l, n);
    assert(s.to_set() =~= l.to_set()) by {
        assert forall|q: Seq<Seq<M>>| s.to_set().contains(q) <==> l.to_set().contains(q) by {
            assert(s.contains(q) <==> is_partition_of(less, q, c));
            assert(l.contains(q) <==> is_partition_of(less, q, c));
        }
    }
    s.unique_seq_to_set();
    l.unique_seq_to_set();
}

/// The number of elements in all classes of `q` together.
pub open spec fn class_sizes<M>(q: Seq<Seq<M>>) -> nat
    decreases q.len(),
{
    if q.len() == 0 {
        0
    } else {
        class_sizes(q.drop_last()) + q.last().len()
    }
}

/// The elements of the classes of `q`, class after class.
pub open spec fn members<M>(q: Seq<Seq<M>>) -> Seq<M>
    decreases q.len(),
{
    if q.len() == 0 {
        Seq::empty()
    } else {
        members(q.drop_last()) + q.last()
    }
}

/// The classes of `q` are increasing and share no element.
pub open spec fn apart<M>(less: spec_fn(M, M) -> bool, q: Seq<Seq<M>>) -> bool {
    &&& forall|k: int| 0 <= k < q.len() ==> increasing(less, #[trigger] q[k])
    &&& forall|k: int, l: int, i: int, j: int|
        0 <= k < q.len() && 0 <= l < q.len() && 0 <= i < q[k].len() && 0 <= j < q[l].len()
            && #[trigger] q[k][i] == #[trigger] q[l][j] ==> k == l
}

/// What `members` lists: as many elements as the classes hold, every
/// element of a class, and none twice where the classes are apart.
pub proof fn lemma_members<M>(less: spec_fn(M, M) -> bool, q: Seq<Seq<M>>)
    requires
        strict_total(less),
    ensures
        members(q).len() == class_sizes(q),
        forall|x: M|
            #![trigger members(q).contains(x)]
            #![trigger in_some_class(q, x)]
            members(q).contains(x) <==> in_some_class(q, x),
        apart(less, q) ==> members(q).no_duplicates(),
    decreases q.len(),
{
    if q.len() > 0 {
        let rest = q.drop_last();
        let last = q.last();
        let f = members(rest);
        lemma_members(less, rest);
        assert forall|x: M|
            #![trigger (f + last).contains(x)]
            #![trigger in_some_class(q, x)]
            (f + last).contains(x) <==> in_some_class(q, x) by {
            if (f + last).contains(x) {
                let i = choose|i: int| 0 <= i < (f + last).len() && (f + last)[i] == x;
                if i < f.len() {
                    assert(f[i] == x);
                    assert(members(rest).contains(x));
                    assert(in_some_class(rest, x));
                    let k = choose|k: int| 0 <= k < rest.len() && (#[trigger] rest[k]).contains(x);
                    assert(q[k] == rest[k]);
                } else {
                    assert(last[i - f.len()] == x);
                    assert(q[q.len() - 1].contains(x));
                }
            }
            if in_some_class(q, x) {
                let k = choose|k: int| 0 <= k < q.len() && (#[trigger] q[k]).contains(x);
                if k < rest.len() {
                    assert(rest[k] == q[k]);
                    assert(in_some_class(rest, x));
                    assert(members(rest).contains(x));
                    let i = choose|i: int| 0 <= i < f.len() && f[i] == x;
                    assert((f + last)[i] == x);
                } else {
                    let i = choose|i: int| 0 <= i < last.len() && last[i] == x;
                    assert((f + last)[f.len() + i] == x);
                }
            }
        }
        if apart(less, q) {
            assert(apart(less, rest)) by {
                assert forall|k: int| 0 <= k < rest.len() implies increasing(
                    less,
                    #[trigger] rest[k],
                ) by {
                    assert(rest[k] == q[k]);
                }
                assert forall|k: int, l: int, i: int, j: int|
                    0 <= k < rest.len() && 0 <= l < rest.len() && 0 <= i < rest[k].len() && 0 <= j
                        < rest[l].len() && #[trigger] rest[k][i] == #[trigger] rest[l][j] implies k
                    == l by {
                    assert(rest[k] == q[k] && rest[l] == q[l]);
                    assert(q[k][i] == q[l][j]);
                }
            }
            assert(increasing(less, q[q.len() - 1]));
            assert forall|i: int, j: int| 0 <= i < j < last.len() implies last[i] != last[j] by {
                assert(less(last[i], last[j]));
            }
            assert forall|i: int, j: int| 0 <= i < f.len() && 0 <= j < last.len() implies f[i]
                != last[j] by {
                if f[i] == last[j] {
                    assert(members(rest).contains(f[i]));
                    assert(in_some_class(rest, f[i]));
                    let k = choose|k: int|
                        0 <= k < rest.len() && (#[trigger] rest[k]).contains(f[i]);
                    let t = choose|t: int| 0 <= t < rest[k].len() && rest[k][t] == f[i];
                    assert(q[k][t] == q[q.len() - 1][j]);
                }
            }
            lemma_no_dup_in_concat(f, last);
        }
    }
}

/// The classes of a division hold as many elements as the set has, and
/// there are at most as many classes as elements.
pub proof fn lemma_division_size<M>(less: spec_fn(M, M) -> bool, q: Seq<Seq<M>>, c: Seq<M>)
    requires
        strict_total(less),
        increasing(less, c),
        apart(less, q),
        forall|k: int| 0 <= k < q.len() ==> (#[trigger] q[k]).len() > 0,
        forall|k: int, i: int|
            0 <= k < q.len() && 0 <= i < q[k].len() ==> c.contains(#[trigger] q[k][i]),
        forall|i: int| 0 <= i < c.len() ==> in_some_class(q, #[trigger] c[i]),
    ensures
        class_sizes(q) == c.len(),
        q.len() <= c.len(),
{
    let f = members(q);
    lemma_members(less, q);
    assert forall|i: int, j: int| 0 <= i < j < c.len() implies c[i] != c[j] by {
        assert(less(c[i], c[j]));
    }
    assert(f.to_set() =~= c.to_set()) by {
        assert forall|x: M| f.to_set().contains(x) <==> c.to_set().contains(x) by {
            if f.contains(x) {
                assert(members(q).contains(x));
                assert(in_some_class(q, x));
                let k = choose|k: int| 0 <= k < q.len() && (#[trigger] q[k]).contains(x);
                let i = choose|i: int| 0 <= i < q[k].len() && q[k][i] == x;
                assert(c.contains(q[k][i]));
            }
            if c.contains(x) {
                let i = choose|i: int| 0 <= i < c.len() && c[i] == x;
                assert(in_some_class(q, c[i]));
                assert(members(q).contains(x));
            }
        }
    }
    f.unique_seq_to_set();
    c.unique_seq_to_set();
    lemma_classes_counted(q);
}

/// There are at most as many classes as elements where no class is
/// empty.
proof fn lemma_classes_counted<M>(q: Seq<Seq<M>>)
    requires
        forall|k: int| 0 <= k < q.len() ==> (#[trigger] q[k]).len() > 0,
    ensures
        q.len() <= class_sizes(q),
    decreases q.len(),
{
    if q.len() > 0 {
        let rest = q.drop_last();
        assert forall|k: int| 0 <= k < rest.len() implies (#[trigger] rest[k]).len() > 0 by {
            assert(rest[k] == q[k]);
        }
        lemma_classes_counted(rest);
        assert(q[q.len() - 1].len() > 0);
    }
}

/// No class holds more elements than all classes together.
pub proof fn lemma_class_within<M>(q: Seq<Seq<M>>, k: int)
    requires
        0 <= k < q.len(),
    ensures
        q[k].len() <= class_sizes(q),
    decreases q.len(),
{
    if k < q.len() - 1 {
        lemma_class_within(q.drop_last(), k);
    }
}

} // verus!
