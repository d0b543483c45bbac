//! From scores to rankings.
use vstd::prelude::*;
use crate::proving::engine::SatResult;
use crate::order::{increasing, models, Keyed, Order};
use crate::sorted::{insert, sorted};
use crate::structures::partition::{Blocks, Partition};
use crate::proving::formula::{
    holds, int_lit, lemma_real_sum_push, real_eq, real_gt, real_of_int, real_sum, real_total,
    real_value, real_var, Formula, RealTerm, Valuation,
};
use crate::structures::ranking::{class_of, ranks, Ranking, Tiers};

verus! {

/// The entries of a list of scores as plain values.
pub open spec fn score_entries(scores: Seq<(Partition, i128)>) -> Seq<(Blocks, int)> {
    Seq::new(scores.len(), |i: int| (scores[i].0@, scores[i].1 as int))
}

/// One of the first `n` entries gives the partition `p` the score `s`.
pub open spec fn has_entry(entries: Seq<(Blocks, int)>, n: int, p: Blocks, s: int) -> bool {
    exists|j: int| 0 <= j < n && j < entries.len() && #[trigger] entries[j] == (p, s)
}

/// `s` is one of the scores of `levels`.
pub open spec fn has_level(levels: Seq<int>, s: int) -> bool {
    exists|k: int| 0 <= k < levels.len() && #[trigger] levels[k] == s
}

/// The classes of `r` are the sets of partitions with the same score
/// among the first `n` entries; class `k` has the score `levels[k]`, and
/// every score is that of a class.
pub open spec fn grouped(r: Tiers, entries: Seq<(Blocks, int)>, n: int, levels: Seq<int>) -> bool {
    &&& levels.len() == r.len()
    &&& forall|k: int|
        0 <= k < r.len() ==> (#[trigger] r[k]).len() > 0 && increasing(Partition::less(), r[k])
    &&& forall|k: int, p: Blocks|
        #![trigger r[k].contains(p)]
        #![trigger has_entry(entries, n, p, levels[k])]
        0 <= k < r.len() ==> (r[k].contains(p) <==> has_entry(entries, n, p, levels[k]))
    &&& forall|j: int|
        0 <= j < n && j < entries.len() ==> has_level(levels, (#[trigger] entries[j]).1)
}

/// The ranking `r` has the partitions of `entries` in classes of equal
/// score; the scores of the classes are `levels`, which rise from class
/// to class, or fall where `reversed` is set.
pub open spec fn ranked_by(
    r: Tiers,
    entries: Seq<(Blocks, int)>,
    levels: Seq<int>,
    reversed: bool,
) -> bool {
    &&& grouped(r, entries, entries.len() as int, levels)
    &&& forall|a: int, b: int|
        #![trigger levels[a], levels[b]]
        0 <= a < b < levels.len() ==> (reversed ==> levels[a] > levels[b]) && (!reversed
            ==> levels[a] < levels[b])
}

/// The index of the class with the score `s`, or the index at which a
/// class with that score belongs.
fn find_level(levels: &Vec<i128>, s: i128) -> (r: (usize, bool))
    requires
        forall|a: int, b: int| 0 <= a < b < levels@.len() ==> #[trigger] levels@[a] < #[trigger] levels@[b],
    ensures
        r.0 <= levels@.len(),
        r.1 ==> r.0 < levels@.len() && levels@[r.0 as int] == s,
        !r.1 ==> forall|k: int| 0 <= k < levels@.len() ==> levels@[k] != s,
        forall|k: int| 0 <= k < r.0 ==> levels@[k] < s,
        forall|k: int| r.0 <= k < levels@.len() ==> levels@[k] >= s,
{
    let mut i: usize = 0;
    while i < levels.len()
        invariant
            i <= levels.len(),
            forall|k: int| 0 <= k < i ==> levels@[k] < s,
        decreases levels.len() - i,
    {
        if levels[i] == s {
            assert forall|k: int| i <= k < levels@.len() implies levels@[k] >= s by {
                if k > i {
                    assert(levels@[i as int] < levels@[k]);
                }
            }
            return (i, true);
        }
        if levels[i] > s {
            assert forall|k: int| i <= k < levels@.len() implies levels@[k] > s by {
                if k > i {
                    assert(levels@[i as int] < levels@[k]);
                }
            }
            return (i, false);
        }
        i += 1;
    }
    (i, false)
}

/// The next entry joins the class that has its score.
proof fn lemma_group_join(
    r: Tiers,
    entries: Seq<(Blocks, int)>,
    n: int,
    levels: Seq<int>,
    i: int,
    class: Seq<Blocks>,
)
    requires
        0 <= n < entries.len(),
        grouped(r, entries, n, levels),
        forall|a: int, b: int| 0 <= a < b < levels.len() ==> #[trigger] levels[a] < #[trigger] levels[b],
        0 <= i < r.len(),
        levels[i] == entries[n].1,
        increasing(Partition::less(), class),
        forall|q: Blocks| class.contains(q) <==> (r[i].contains(q) || q == entries[n].0),
    ensures
        grouped(r.update(i, class), entries, n + 1, levels),
{
    let r2 = r.update(i, class);
    let p = entries[n].0;
    let s = entries[n].1;
    assert(class.contains(p));
    assert(class.len() > 0);
    assert forall|k: int, q: Blocks| 0 <= k < r2.len() implies (#[trigger] r2[k].contains(q)
        <==> has_entry(entries, n + 1, q, levels[k])) by {
        if k == i {
            assert(r[i].contains(q) <==> has_entry(entries, n, q, levels[i]));
            if has_entry(entries, n + 1, q, levels[k]) {
                let j = choose|j: int|
                    0 <= j < n + 1 && j < entries.len() && #[trigger] entries[j] == (q, levels[k]);
                if j < n {
                    assert(has_entry(entries, n, q, levels[i]));
                }
            }
            if r2[k].contains(q) {
                if r[i].contains(q) {
                    let j = choose|j: int|
                        0 <= j < n && j < entries.len() && #[trigger] entries[j] == (q, levels[i]);
                    assert(entries[j] == (q, levels[k]));
                } else {
                    assert(entries[n] == (q, levels[k]));
                }
            }
        } else {
            assert(r2[k] == r[k]);
            assert(r[k].contains(q) <==> has_entry(entries, n, q, levels[k]));
            if has_entry(entries, n + 1, q, levels[k]) {
                let j = choose|j: int|
                    0 <= j < n + 1 && j < entries.len() && #[trigger] entries[j] == (q, levels[k]);
                if j == n {
                    if k < i {
                        assert(levels[k] < levels[i]);
                    } else {
                        assert(levels[i] < levels[k]);
                    }
                }
                assert(has_entry(entries, n, q, levels[k]));
            }
            if has_entry(entries, n, q, levels[k]) {
                let j = choose|j: int|
                    0 <= j < n && j < entries.len() && #[trigger] entries[j] == (q, levels[k]);
                assert(entries[j] == (q, levels[k]));
            }
        }
    }
    assert forall|k: int| 0 <= k < r2.len() implies (#[trigger] r2[k]).len() > 0 && increasing(
        Partition::less(),
        r2[k],
    ) by {
        if k != i {
            assert(r2[k] == r[k]);
        }
    }
    assert forall|j: int| 0 <= j < n + 1 && j < entries.len() implies has_level(
        levels,
        (#[trigger] entries[j]).1,
    ) by {
        if j == n {
            assert(levels[i] == entries[j].1);
        }
    }
}

/// The next entry has a score that no class has: it makes a class of its
/// own, at the place of its score.
proof fn lemma_group_new(
    r: Tiers,
    entries: Seq<(Blocks, int)>,
    n: int,
    levels: Seq<int>,
    pos: int,
)
    requires
        0 <= n < entries.len(),
        grouped(r, entries, n, levels),
        0 <= pos <= r.len(),
        forall|k: int| 0 <= k < levels.len() ==> levels[k] != entries[n].1,
    ensures
        grouped(
            r.insert(pos, seq![entries[n].0]),
            entries,
            n + 1,
            levels.insert(pos, entries[n].1),
        ),
{
    let p = entries[n].0;
    let s = entries[n].1;
    let r2 = r.insert(pos, seq![p]);
    let l2 = levels.insert(pos, s);
    // no earlier entry has the score s
    assert forall|j: int| 0 <= j < n implies (#[trigger] entries[j]).1 != s by {
        assert(has_level(levels, entries[j].1));
        let k = choose|k: int| 0 <= k < levels.len() && #[trigger] levels[k] == entries[j].1;
        assert(levels[k] != s);
    }
    assert forall|k: int, q: Blocks| 0 <= k < r2.len() implies (#[trigger] r2[k].contains(q)
        <==> has_entry(entries, n + 1, q, l2[k])) by {
        if k == pos {
            assert(r2[k] == seq![p]);
            assert(l2[k] == s);
            if r2[k].contains(q) {
                let t = choose|t: int| 0 <= t < r2[k].len() && r2[k][t] == q;
                assert(q == p);
                assert(entries[n] == (q, s));
            }
            if has_entry(entries, n + 1, q, s) {
                let j = choose|j: int|
                    0 <= j < n + 1 && j < entries.len() && #[trigger] entries[j] == (q, s);
                if j < n {
                    assert(entries[j].1 != s);
                }
                assert(seq![p][0] == q);
            }
        } else {
            let o = if k < pos {
                k
            } else {
                k - 1
            };
            assert(r2[k] == r[o]);
            assert(l2[k] == levels[o]);
            assert(r[o].contains(q) <==> has_entry(entries, n, q, levels[o]));
            if has_entry(entries, n + 1, q, l2[k]) {
                let j = choose|j: int|
                    0 <= j < n + 1 && j < entries.len() && #[trigger] entries[j] == (q, l2[k]);
                if j == n {
                    assert(levels[o] != s);
                }
                assert(has_entry(entries, n, q, levels[o]));
            }
            if has_entry(entries, n, q, levels[o]) {
                let j = choose|j: int|
                    0 <= j < n && j < entries.len() && #[trigger] entries[j] == (q, levels[o]);
                assert(entries[j] == (q, l2[k]));
            }
        }
    }
    assert forall|k: int| 0 <= k < r2.len() implies (#[trigger] r2[k]).len() > 0 && increasing(
        Partition::less(),
        r2[k],
    ) by {
        if k != pos {
            let o = if k < pos {
                k
            } else {
                k - 1
            };
            assert(r2[k] == r[o]);
        }
    }
    assert forall|j: int| 0 <= j < n + 1 && j < entries.len() implies has_level(
        l2,
        (#[trigger] entries[j]).1,
    ) by {
        if j == n {
            assert(l2[pos] == entries[j].1);
        } else {
            assert(has_level(levels, entries[j].1));
            let k = choose|k: int| 0 <= k < levels.len() && #[trigger] levels[k] == entries[j].1;
            if k < pos {
                assert(l2[k] == levels[k]);
            } else {
                assert(l2[k + 1] == levels[k]);
            }
        }
    }
}

/// A grouping read backwards is a grouping with the scores backwards.
proof fn lemma_group_reverse(
    r: Tiers,
    entries: Seq<(Blocks, int)>,
    n: int,
    levels: Seq<int>,
    r2: Tiers,
    l2: Seq<int>,
)
    requires
        grouped(r, entries, n, levels),
        r2.len() == r.len(),
        l2.len() == levels.len(),
        forall|k: int| 0 <= k < r2.len() ==> #[trigger] r2[k] == r[r.len() - 1 - k],
        forall|k: int| 0 <= k < l2.len() ==> #[trigger] l2[k] == levels[levels.len() - 1 - k],
    ensures
        grouped(r2, entries, n, l2),
{
    assert forall|k: int, q: Blocks| 0 <= k < r2.len() implies (#[trigger] r2[k].contains(q)
        <==> has_entry(entries, n, q, l2[k])) by {
        let o = r.len() - 1 - k;
        assert(r2[k] == r[o] && l2[k] == levels[o]);
        assert(r[o].contains(q) <==> has_entry(entries, n, q, levels[o]));
    }
    assert forall|k: int| 0 <= k < r2.len() implies (#[trigger] r2[k]).len() > 0 && increasing(
        Partition::less(),
        r2[k],
    ) by {
        assert(r2[k] == r[r.len() - 1 - k]);
    }
    assert forall|j: int| 0 <= j < n && j < entries.len() implies has_level(
        l2,
        (#[trigger] entries[j]).1,
    ) by {
        assert(has_level(levels, entries[j].1));
        let k = choose|k: int| 0 <= k < levels.len() && #[trigger] levels[k] == entries[j].1;
        assert(l2[levels.len() - 1 - k] == levels[k]);
    }
}

/// The ranking of the partitions by their scores: partitions with the
/// same score share a class, and the classes stand in the order of
/// their scores, the lowest first, or the highest first where
/// `reversed` is set.
pub fn ranking_from_scores(scores: Vec<(Partition, i128)>, reversed: bool) -> (r: Ranking)
    ensures
        exists|levels: Seq<int>| ranked_by(r@, score_entries(scores@), levels, reversed),
{
    let ghost entries = score_entries(scores@);
    let mut levels: Vec<i128> = Vec::new();
    let mut classes: Vec<Vec<Partition>> = Vec::new();
    let mut n: usize = 0;
    while n < scores.len()
        invariant
            n <= scores.len(),
            entries == score_entries(scores@),
            grouped(models(classes@), entries, n as int, levels@.map_values(|x: i128| x as int)),
            forall|a: int, b: int|
                0 <= a < b < levels@.len() ==> #[trigger] levels@[a] < #[trigger] levels@[b],
            levels@.len() == classes@.len(),
        decreases scores.len() - n,
    {
        let ghost r0 = models(classes@);
        let ghost l0 = levels@.map_values(|x: i128| x as int);
        let score = scores[n].1;
        let partition = scores[n].0.copy();
        assert(entries[n as int] == (partition@, score as int));
        let (i, found) = find_level(&levels, score);
        if found {
            let mut class = classes.remove(i);
            let ghost before = models(class@);
            assert(before == r0[i as int]);
            assert(sorted(class@));
            let ghost pm = partition.model();
            insert(&mut class, partition);
            let ghost cm = models(class@);
            classes.insert(i, class);
            proof {
                assert(models(classes@) =~= r0.update(i as int, cm));
                assert(l0[i as int] == entries[n as int].1);
                assert forall|a: int, b: int| 0 <= a < b < l0.len() implies #[trigger] l0[a]
                    < #[trigger] l0[b] by {
                    assert(levels@[a] < levels@[b]);
                }
                lemma_group_join(r0, entries, n as int, l0, i as int, cm);
            }
        } else {
            let mut class: Vec<Partition> = Vec::new();
            let ghost pm = partition.model();
            class.push(partition);
            assert(models(class@) =~= seq![pm]);
            classes.insert(i, class);
            let ghost old_levels = levels@;
            levels.insert(i, score);
            proof {
                assert(models(classes@) =~= r0.insert(i as int, seq![pm]));
                assert(levels@.map_values(|x: i128| x as int) =~= l0.insert(i as int, score as int));
                assert forall|k: int| 0 <= k < l0.len() implies l0[k] != entries[n as int].1 by {
                    assert(old_levels[k] != score);
                }
                lemma_group_new(r0, entries, n as int, l0, i as int);
                assert forall|a: int, b: int| 0 <= a < b < levels@.len() implies #[trigger] levels@[a]
                    < #[trigger] levels@[b] by {
                    let oa = if a < i { a } else { a - 1 };
                    let ob = if b < i { b } else { b - 1 };
                    if a == i {
                        assert(levels@[b] == old_levels[ob]);
                    } else if b == i {
                        assert(levels@[a] == old_levels[oa]);
                    } else {
                        assert(levels@[a] == old_levels[oa] && levels@[b] == old_levels[ob]);
                        assert(old_levels[oa] < old_levels[ob]);
                    }
                }
            }
        }
        n += 1;
    }
    let ghost l = levels@.map_values(|x: i128| x as int);
    if reversed {
        let ghost r0 = models(classes@);
        let mut back: Vec<Vec<Partition>> = Vec::new();
        while classes.len() > 0
            invariant
                back@.len() + classes@.len() == r0.len(),
                forall|k: int| 0 <= k < classes@.len() ==> (#[trigger] classes@[k]).model() == r0[k],
                forall|k: int|
                    0 <= k < back@.len() ==> (#[trigger] back@[k]).model() == r0[r0.len() - 1 - k],
            decreases classes@.len(),
        {
            let class = match classes.pop() {
                Some(c) => c,
                None => {
                    assert(false);
                    Vec::new()
                },
            };
            back.push(class);
        }
        let r = Ranking { ranking: back };
        proof {
            let l2 = Seq::new(l.len(), |k: int| l[l.len() - 1 - k]);
            lemma_group_reverse(r0, entries, entries.len() as int, l, r@, l2);
            assert forall|a: int, b: int| 0 <= a < b < l2.len() implies #[trigger] l2[a]
                > #[trigger] l2[b] by {
                assert(l2[a] == l[l.len() - 1 - a] && l2[b] == l[l.len() - 1 - b]);
                assert(levels@[l.len() - 1 - b] < levels@[l.len() - 1 - a]);
            }
            assert(ranked_by(r@, entries, l2, reversed));
        }
        r
    } else {
        let r = Ranking { ranking: classes };
        proof {
            assert forall|a: int, b: int| 0 <= a < b < l.len() implies #[trigger] l[a]
                < #[trigger] l[b] by {
                assert(levels@[a] < levels@[b]);
            }
            assert(ranked_by(r@, entries, l, reversed));
        }
        r
    }
}

/// The elements of `ps` whose mark is `want`, in the order of `ps`.
pub open spec fn picked(ps: Seq<Blocks>, marks: Seq<bool>, want: bool) -> Seq<Blocks>
    decreases ps.len(),
{
    if ps.len() == 0 || marks.len() != ps.len() {
        Seq::empty()
    } else if marks.last() == want {
        picked(ps.drop_last(), marks.drop_last(), want).push(ps.last())
    } else {
        picked(ps.drop_last(), marks.drop_last(), want)
    }
}

/// The ranking with two classes: the marked partitions first, then the
/// others.
pub open spec fn two_classes(ps: Seq<Blocks>, marks: Seq<bool>) -> Tiers {
    seq![picked(ps, marks, true), picked(ps, marks, false)]
}

/// The ranking that puts the marked partitions into the first class
/// and the others into the second.
pub fn rank_marked(partitions: &Vec<Partition>, marks: &Vec<bool>) -> (r: Ranking)
    requires
        marks@.len() == partitions@.len(),
    ensures
        r@ == two_classes(models(partitions@), marks@),
{
    let ghost ps = models(partitions@);
    let mut good: Vec<Partition> = Vec::new();
    let mut bad: Vec<Partition> = Vec::new();
    let mut i: usize = 0;
    while i < partitions.len()
        invariant
            i <= partitions.len(),
            ps == models(partitions@),
            marks@.len() == partitions@.len(),
            models(good@) == picked(ps.take(i as int), marks@.take(i as int), true),
            models(bad@) == picked(ps.take(i as int), marks@.take(i as int), false),
        decreases partitions.len() - i,
    {
        proof {
            assert(ps.take(i + 1).drop_last() =~= ps.take(i as int));
            assert(marks@.take(i + 1).drop_last() =~= marks@.take(i as int));
            assert(ps.take(i + 1).last() == ps[i as int]);
            assert(marks@.take(i + 1).last() == marks@[i as int]);
        }
        let ghost g0 = models(good@);
        let ghost b0 = models(bad@);
        if marks[i] {
            good.push(partitions[i].copy());
            assert(models(good@) =~= g0.push(ps[i as int]));
        } else {
            bad.push(partitions[i].copy());
            assert(models(bad@) =~= b0.push(ps[i as int]));
        }
        i += 1;
    }
    proof {
        assert(ps.take(i as int) =~= ps);
        assert(marks@.take(i as int) =~= marks@);
    }
    let mut ranking: Vec<Vec<Partition>> = Vec::new();
    ranking.push(good);
    ranking.push(bad);
    let r = Ranking { ranking };
    assert(r@ =~= two_classes(ps, marks@));
    r
}

/// The sum of the values of the first `n` variables of `names`.
pub open spec fn var_sum(names: Seq<Seq<char>>, n: nat, v: Valuation) -> real
    decreases n,
{
    if n == 0 || n > names.len() {
        0real
    } else {
        var_sum(names, (n - 1) as nat, v) + v.reals[names[n - 1]]
    }
}

/// The names as sequences of characters.
pub open spec fn texts(names: Seq<String>) -> Seq<Seq<char>> {
    Seq::new(names.len(), |i: int| names[i]@)
}

/// The scores of the variables of `names` order the partitions with
/// the indices `a` and `b` as the ranking `r` does: the one in the earlier
/// class has the greater score, and two of one class have the same.
pub open spec fn pair_agrees(
    r: Tiers,
    ps: Seq<Blocks>,
    names: Seq<Seq<Seq<char>>>,
    a: int,
    b: int,
    v: Valuation,
) -> bool {
    let sa = var_sum(names[a], names[a].len(), v);
    let sb = var_sum(names[b], names[b].len(), v);
    if class_of(r, ps[a]) < class_of(r, ps[b]) {
        sa > sb
    } else if class_of(r, ps[b]) < class_of(r, ps[a]) {
        sb > sa
    } else {
        sa == sb
    }
}

/// The scores order every two partitions as the ranking `r` does.
pub open spec fn agrees(r: Tiers, ps: Seq<Blocks>, names: Seq<Seq<Seq<char>>>, v: Valuation) -> bool {
    forall|a: int, b: int|
        #![trigger pair_agrees(r, ps, names, a, b, v)]
        0 <= a < b < ps.len() ==> pair_agrees(r, ps, names, a, b, v)
}

/// The names of the variables of each partition, as plain values.
pub open spec fn name_table(names: Seq<Vec<String>>) -> Seq<Seq<Seq<char>>> {
    Seq::new(names.len(), |j: int| texts(names[j]@))
}

/// The sum of the variables with the given names.
pub fn score_term(names: &Vec<String>) -> (t: RealTerm)
    ensures
        forall|v: Valuation| #[trigger]
            real_value(t, v) == var_sum(texts(names@), names@.len(), v),
{
    let ghost ns = texts(names@);
    let mut vars: Vec<RealTerm> = Vec::new();
    let mut i: usize = 0;
    while i < names.len()
        invariant
            i <= names.len(),
            ns == texts(names@),
            vars@.len() == i,
            forall|v: Valuation| #[trigger] real_sum(vars@, i as nat, v) == var_sum(ns, i as nat, v),
        decreases names.len() - i,
    {
        let var = real_var(names[i].clone());
        proof {
            assert forall|v: Valuation|
                #[trigger] real_sum(vars@.push(var), (i + 1) as nat, v) == var_sum(
                    ns,
                    (i + 1) as nat,
                    v,
                ) by {
                lemma_real_sum_push(vars@, var, v);
                assert(real_sum(vars@, i as nat, v) == var_sum(ns, i as nat, v));
                assert(real_value(var, v) == v.reals[ns[i as int]]);
            }
        }
        vars.push(var);
        i += 1;
    }
    if vars.len() == 0 {
        let zero = int_lit(0);
        let t = real_of_int(zero);
        proof {
            assert forall|v: Valuation| #[trigger]
                real_value(t, v) == var_sum(ns, names@.len(), v) by {
                assert(crate::proving::formula::int_value(zero, v) == 0);
            }
        }
        t
    } else {
        let ghost vs = vars@;
        let t = real_total(vars);
        proof {
            assert forall|v: Valuation| #[trigger]
                real_value(t, v) == var_sum(ns, names@.len(), v) by {
                assert(real_sum(vs, i as nat, v) == var_sum(ns, i as nat, v));
            }
        }
        t
    }
}

/// The statement that the scores order the partitions with the indices
/// `a` and `b` as `ranking` does.
pub fn pair_constraint(
    ranking: &Ranking,
    partitions: &Vec<Partition>,
    names: &Vec<Vec<String>>,
    a: usize,
    b: usize,
) -> (f: Formula)
    requires
        names@.len() == partitions@.len(),
        a < partitions@.len(),
        b < partitions@.len(),
        ranks(ranking@, partitions@[a as int]@),
        ranks(ranking@, partitions@[b as int]@),
    ensures
        forall|v: Valuation| #[trigger]
            holds(f, v) <==> pair_agrees(
                ranking@,
                models(partitions@),
                name_table(names@),
                a as int,
                b as int,
                v,
            ),
{
    let score_a = score_term(&names[a]);
    let score_b = score_term(&names[b]);
    assert(models(partitions@)[a as int] == partitions@[a as int]@);
    assert(models(partitions@)[b as int] == partitions@[b as int]@);
    assert(name_table(names@)[a as int] == texts(names@[a as int]@));
    assert(name_table(names@)[b as int] == texts(names@[b as int]@));
    if ranking.is_strictly_preferred(&partitions[a], &partitions[b]) {
        real_gt(score_a, score_b)
    } else if ranking.is_strictly_preferred(&partitions[b], &partitions[a]) {
        real_gt(score_b, score_a)
    } else {
        real_eq(score_a, score_b)
    }
}

/// Every statement of `fs` holds under `v`.
pub open spec fn hold_all(fs: Seq<Formula>, v: Valuation) -> bool {
    forall|k: int| 0 <= k < fs.len() ==> holds(#[trigger] fs[k], v)
}

/// The pair of `x` and `y` stands at some index of the two lists.
pub open spec fn listed(pa: Seq<int>, pb: Seq<int>, x: int, y: int) -> bool {
    exists|k: int| 0 <= k < pa.len() && k < pb.len() && #[trigger] pa[k] == x && pb[k] == y
}

/// The statements that say, of every two partitions, that the scores
/// order them as `ranking` does. The ranking is one that the scores can
/// express exactly if the statements can hold together.
pub fn order_constraints(ranking: &Ranking, partitions: &Vec<Partition>, names: &Vec<Vec<String>>) -> (r:
    Vec<Formula>)
    requires
        names@.len() == partitions@.len(),
        forall|j: int| 0 <= j < partitions@.len() ==> ranks(ranking@, (#[trigger] partitions@[j])@),
    ensures
        forall|v: Valuation| #[trigger]
            hold_all(r@, v) <==> agrees(ranking@, models(partitions@), name_table(names@), v),
{
    let ghost rk = ranking@;
    let ghost ps = models(partitions@);
    let ghost nt = name_table(names@);
    let mut r: Vec<Formula> = Vec::new();
    let ghost mut pa: Seq<int> = Seq::empty();
    let ghost mut pb: Seq<int> = Seq::empty();
    let n = partitions.len();
    let mut a: usize = 0;
    while a < n
        invariant
            a <= n,
            n == partitions@.len(),
            pa.len() == r@.len(),
            pb.len() == r@.len(),
            forall|k: int| 0 <= k < r@.len() ==> 0 <= #[trigger] pa[k] < pb[k] < n,
            forall|k: int, v: Valuation|
                0 <= k < r@.len() ==> (#[trigger] holds(r@[k], v) <==> pair_agrees(
                    rk,
                    ps,
                    nt,
                    pa[k],
                    pb[k],
                    v,
                )),
            forall|x: int, y: int| 0 <= x < y < n && x < a ==> #[trigger] listed(pa, pb, x, y),
        decreases n - a,
    {
        let mut b: usize = a + 1;
        while b < n
            invariant
                a < n,
                a < b <= n,
                n == partitions@.len(),
                pa.len() == r@.len(),
                pb.len() == r@.len(),
                forall|k: int| 0 <= k < r@.len() ==> 0 <= #[trigger] pa[k] < pb[k] < n,
                forall|k: int, v: Valuation|
                    0 <= k < r@.len() ==> (#[trigger] holds(r@[k], v) <==> pair_agrees(
                        rk,
                        ps,
                        nt,
                        pa[k],
                        pb[k],
                        v,
                    )),
                forall|x: int, y: int|
                    0 <= x < y < n && (x < a || (x == a && y < b)) ==> #[trigger] listed(
                        pa,
                        pb,
                        x,
                        y,
                    ),
            decreases n - b,
        {
            let f = pair_constraint(ranking, partitions, names, a, b);
            let ghost old_pa = pa;
            let ghost old_pb = pb;
            proof {
                pa = pa.push(a as int);
                pb = pb.push(b as int);
                assert forall|x: int, y: int|
                    0 <= x < y < n && (x < a || (x == a && y < b + 1)) implies #[trigger] listed(
                    pa,
                    pb,
                    x,
                    y,
                ) by {
                    if x == a && y == b {
                        assert(pa[old_pa.len() as int] == x && pb[old_pa.len() as int] == y);
                    } else {
                        assert(listed(old_pa, old_pb, x, y));
                        let k = choose|k: int|
                            0 <= k < old_pa.len() && k < old_pb.len() && #[trigger] old_pa[k] == x
                                && old_pb[k] == y;
                        assert(pa[k] == x && pb[k] == y);
                    }
                }
            }
            r.push(f);
            b += 1;
        }
        a += 1;
    }
    proof {
        assert forall|v: Valuation| #[trigger] hold_all(r@, v) <==> agrees(rk, ps, nt, v) by {
            if hold_all(r@, v) {
                assert forall|x: int, y: int|
                    #![trigger pair_agrees(rk, ps, nt, x, y, v)]
                    0 <= x < y < ps.len() implies pair_agrees(rk, ps, nt, x, y, v) by {
                    assert(listed(pa, pb, x, y));
                    let k = choose|k: int|
                        0 <= k < pa.len() && k < pb.len() && #[trigger] pa[k] == x && pb[k] == y;
                    assert(holds(r@[k], v));
                }
            }
            if agrees(rk, ps, nt, v) {
                assert forall|k: int| 0 <= k < r@.len() implies holds(#[trigger] r@[k], v) by {
                    assert(pair_agrees(rk, ps, nt, pa[k], pb[k], v));
                }
            }
        }
    }
    r
}

/// The scores as plain values.
pub open spec fn score_list<T: Keyed>(ballot: Seq<(T, i32)>) -> Seq<(T::Model, int)> {
    Seq::new(ballot.len(), |i: int| (ballot[i].0.model(), ballot[i].1 as int))
}

/// The score of the key `c`: that of its first entry among the
/// first `n`, or 0.
pub open spec fn score_of<M>(ballot: Seq<(M, int)>, c: M, n: nat) -> int
    decreases n,
{
    if n == 0 || n > ballot.len() {
        0
    } else if score_of_found(ballot, c, (n - 1) as nat) {
        score_of(ballot, c, (n - 1) as nat)
    } else if ballot[n - 1].0 == c {
        ballot[n - 1].1
    } else {
        0
    }
}

/// One of the first `n` entries is for the key `c`.
pub open spec fn score_of_found<M>(ballot: Seq<(M, int)>, c: M, n: nat) -> bool {
    exists|i: int| 0 <= i < n && i < ballot.len() && (#[trigger] ballot[i]).0 == c
}

/// The score of `key` in `ballot`: that of its first entry, or 0.
pub fn lookup<T: Keyed>(ballot: &Vec<(T, i32)>, key: &T) -> (r: i32)
    ensures
        r == score_of(score_list(ballot@), key.model(), ballot@.len()),
{
    let ghost b = score_list(ballot@);
    let mut i: usize = 0;
    while i < ballot.len()
        invariant
            i <= ballot.len(),
            b == score_list(ballot@),
            !score_of_found(b, key.model(), i as nat),
        decreases ballot.len() - i,
    {
        proof {
            T::lemma_order();
        }
        match ballot[i].0.compare(key) {
            Order::Equal => {
                proof {
                    assert(b[i as int].0 == key.model());
                    lemma_score_found(b, key.model(), i as int, ballot@.len());
                }
                return ballot[i].1;
            },
            _ => {
                assert(b[i as int].0 != key.model());
            },
        }
        i += 1;
    }
    proof {
        lemma_score_missing(b, key.model(), ballot@.len());
    }
    0
}

/// The first entry for a key gives its score.
proof fn lemma_score_found<M>(b: Seq<(M, int)>, c: M, i: int, n: nat)
    requires
        0 <= i < n <= b.len(),
        b[i].0 == c,
        !score_of_found(b, c, i as nat),
    ensures
        score_of(b, c, n) == b[i].1,
    decreases n,
{
    if n == i + 1 {
        lemma_score_missing(b, c, i as nat);
    } else {
        assert(score_of_found(b, c, (n - 1) as nat)) by {
            assert(b[i].0 == c);
        }
        lemma_score_found(b, c, i, (n - 1) as nat);
    }
}

/// A key without an entry has the score 0.
proof fn lemma_score_missing<M>(b: Seq<(M, int)>, c: M, n: nat)
    requires
        n <= b.len(),
        !score_of_found(b, c, n),
    ensures
        score_of(b, c, n) == 0,
    decreases n,
{
    if n > 0 {
        assert(!score_of_found(b, c, (n - 1) as nat)) by {
            if score_of_found(b, c, (n - 1) as nat) {
                let i = choose|i: int| 0 <= i < n - 1 && i < b.len() && (#[trigger] b[i]).0 == c;
                assert(0 <= i < n && b[i].0 == c);
            }
        }
        lemma_score_missing(b, c, (n - 1) as nat);
        assert(b[n - 1].0 != c);
    }
}


/// The rankings among the first `n` of `rs` whose answer is `Sat`, in
/// order.
pub open spec fn feasible_among(rs: Seq<Tiers>, answers: Seq<SatResult>, n: nat) -> Seq<Tiers>
    decreases n,
{
    if n == 0 || n > rs.len() || n > answers.len() {
        Seq::empty()
    } else if answers[n - 1] == SatResult::Sat {
        feasible_among(rs, answers, (n - 1) as nat).push(rs[n - 1])
    } else {
        feasible_among(rs, answers, (n - 1) as nat)
    }
}

/// Some answer is `Unknown`.
pub open spec fn some_unknown(answers: Seq<SatResult>) -> bool {
    exists|i: int| 0 <= i < answers.len() && #[trigger] answers[i] == SatResult::Unknown
}

/// The rankings that a ballot format can express, among `rankings`:
/// `answers` holds for each ranking what the solver says of the
/// statements that the format forms for it. A ranking is kept where they
/// can hold together. Where the solver does not know of some ranking,
/// nothing is decided.
pub fn keep_feasible(rankings: Vec<Ranking>, answers: &Vec<SatResult>) -> (r: Option<Vec<Ranking>>)
    requires
        rankings@.len() == answers@.len(),
    ensures
        r is None <==> some_unknown(answers@),
        r matches Some(kept) ==> models(kept@) == feasible_among(
            models(rankings@),
            answers@,
            answers@.len(),
        ),
{
    let ghost rs = models(rankings@);
    let mut kept: Vec<Ranking> = Vec::new();
    let mut i: usize = 0;
    while i < rankings.len()
        invariant
            i <= rankings.len(),
            rankings@.len() == answers@.len(),
            rs == models(rankings@),
            forall|j: int| 0 <= j < i ==> #[trigger] answers@[j] != SatResult::Unknown,
            models(kept@) == feasible_among(rs, answers@, i as nat),
        decreases rankings.len() - i,
    {
        let ghost before = models(kept@);
        match answers[i] {
            SatResult::Unknown => {
                assert(answers@[i as int] == SatResult::Unknown);
                return None;
            },
            SatResult::Sat => {
                kept.push(rankings[i].copy());
                assert(models(kept@) =~= before.push(rs[i as int]));
            },
            SatResult::Unsat => {},
        }
        i += 1;
    }
    Some(kept)
}

} // verus!
