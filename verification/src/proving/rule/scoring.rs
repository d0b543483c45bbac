//! Scoring rules with open scores: for every order type one score for
//! each class, a variable whose value the solver is to find.
use vstd::prelude::*;
use vstd::string::*;
use crate::order::{models, Keyed};
use crate::proving::formula::{
    lemma_real_sum_push, real_of_int, real_prod, real_sum, real_total, real_value, real_var,
    RealTerm, Valuation,
};
use crate::proving::profile::{
    count_value, extra_view, extras, Electorate, Extra, ExtraVotes, Profile,
};
use crate::proving::rule::rule_trait::VotingRule;
use crate::structures::partition::{partition_seq, Blocks, Partition};
use crate::structures::ranking::{class_of, ranks, Ranking, Tiers};
use crate::structures::utils::to_string::{join, joined};
use crate::sorted::{insert, sorted};
use crate::structures::Structure;
use crate::utils::text::{decimal, decimal_string};

verus! {

/// A scoring rule whose scores are open: a vote gives a partition the
/// score of its class.
pub struct Scoring {
    pub partitions: Vec<Partition>,
    pub alternatives: usize,
    pub num_candidates: usize,
    /// The order types with the names of their score variables.
    pub scores: Vec<(Vec<usize>, Vec<String>)>,
}

/// The score tables as plain values.
pub open spec fn score_table(scores: Seq<(Vec<usize>, Vec<String>)>) -> Seq<(Seq<usize>, Seq<Seq<char>>)> {
    Seq::new(
        scores.len(),
        |i: int| (scores[i].0@, Seq::new(scores[i].1@.len(), |k: int| scores[i].1@[k]@)),
    )
}

/// The order type of a ranking: the sizes of its classes.
pub open spec fn type_of(r: Tiers) -> Seq<usize> {
    Seq::new(r.len(), |k: int| r[k].len() as usize)
}

/// The table has an entry for the order type `t`.
pub open spec fn has_type(table: Seq<(Seq<usize>, Seq<Seq<char>>)>, t: Seq<usize>) -> bool {
    exists|i: int| 0 <= i < table.len() && (#[trigger] table[i]).0 == t
}

/// The index of the first entry for the order type `t`.
pub open spec fn type_index(table: Seq<(Seq<usize>, Seq<Seq<char>>)>, t: Seq<usize>) -> int {
    choose|i: int|
        0 <= i < table.len() && (#[trigger] table[i]).0 == t && forall|j: int|
            0 <= j < i ==> (#[trigger] table[j]).0 != t
}

/// The names of the score variables of the order type `t`.
pub open spec fn vector_of(table: Seq<(Seq<usize>, Seq<Seq<char>>)>, t: Seq<usize>) -> Seq<Seq<char>> {
    table[type_index(table, t)].1
}

/// The name of the score variable for the class with index `i` of the
/// order type `t`: `score_`, the sizes with `-` between them, `_`, and
/// the index.
pub open spec fn score_name(t: Seq<usize>, i: nat) -> Seq<char> {
    "score_"@ + joined(Seq::new(t.len(), |k: int| decimal(t[k] as nat)), "-"@) + "_"@ + decimal(i)
}

/// The table has a score for the class of `p` in the ranking `r`.
#[verifier::opaque]
pub open spec fn can_place(table: Seq<(Seq<usize>, Seq<Seq<char>>)>, r: Tiers, p: Blocks) -> bool {
    &&& ranks(r, p)
    &&& has_type(table, type_of(r))
    &&& class_of(r, p) < vector_of(table, type_of(r)).len()
}

/// The score that one vote for `r` gives to `p`, under `v`.
#[verifier::opaque]
pub open spec fn placed(table: Seq<(Seq<usize>, Seq<Seq<char>>)>, r: Tiers, p: Blocks, v: Valuation) -> real {
    v.reals[vector_of(table, type_of(r))[class_of(r, p)]]
}

/// `score` for each of `count` votes.
#[verifier::opaque]
pub open spec fn weighted(score: real, count: real) -> real {
    score * count
}

/// The scores that the first `n` rankings of the profile give to `p`,
/// each times the number of its votes.
pub open spec fn profile_part(
    table: Seq<(Seq<usize>, Seq<Seq<char>>)>,
    e: Electorate,
    p: Blocks,
    n: nat,
    v: Valuation,
) -> real
    decreases n,
{
    if n == 0 || n > e.rankings.len() {
        0real
    } else {
        profile_part(table, e, p, (n - 1) as nat, v) + weighted(
            placed(table, e.rankings[n - 1], p, v),
            count_value(e.counts[n - 1], v) as real,
        )
    }
}

/// The scores that the first `n` extra votes give to `p`.
pub open spec fn extra_part(
    table: Seq<(Seq<usize>, Seq<Seq<char>>)>,
    x: Extra,
    p: Blocks,
    n: nat,
    v: Valuation,
) -> real
    decreases n,
{
    if n == 0 || n > x.len() {
        0real
    } else {
        extra_part(table, x, p, (n - 1) as nat, v) + weighted(
            placed(table, x[n - 1].0, p, v),
            count_value(x[n - 1].1, v) as real,
        )
    }
}

/// The extra votes, or none.
pub open spec fn extra_list(extra: Option<Extra>) -> Extra {
    match extra {
        None => Seq::empty(),
        Some(x) => x,
    }
}

impl Scoring {
    /// The rule for an election with `m` candidates with scores for the
    /// order types of `types`.
    pub fn create(m: usize, types: Vec<Vec<usize>>) -> (r: Self)
        requires
            m >= 1,
        ensures
            r.partitions() == partition_seq(m),
            r.alternatives == partition_seq(m).len(),
            r.num_candidates == m,
            r.scores@.len() == types@.len(),
            forall|a: int|
                0 <= a < types@.len() ==> (#[trigger] score_table(r.scores@)[a]).0 == types@[a]@
                    && score_table(r.scores@)[a].1.len() == types@[a]@.len(),
            forall|a: int, i: int|
                0 <= a < types@.len() && 0 <= i < types@[a]@.len() ==> #[trigger] score_table(
                    r.scores@,
                )[a].1[i] == score_name(types@[a]@, i as nat),
    {
        let partitions = Partition::all(m);
        let num_partitions = partitions.len();
        let mut scores: Vec<(Vec<usize>, Vec<String>)> = Vec::new();
        let mut a: usize = 0;
        while a < types.len()
            invariant
                a <= types.len(),
                scores@.len() == a,
                forall|b: int|
                    0 <= b < a ==> (#[trigger] score_table(scores@)[b]).0 == types@[b]@
                        && score_table(scores@)[b].1.len() == types@[b]@.len(),
                forall|b: int, i: int|
                    0 <= b < a && 0 <= i < types@[b]@.len() ==> #[trigger] score_table(
                        scores@,
                    )[b].1[i] == score_name(types@[b]@, i as nat),
            decreases types.len() - a,
        {
            let t = &types[a];
            let mut sizes: Vec<String> = Vec::new();
            let mut k: usize = 0;
            while k < t.len()
                invariant
                    k <= t.len(),
                    sizes@.len() == k,
                    forall|j: int| 0 <= j < k ==> (#[trigger] sizes@[j])@ == decimal(t@[j] as nat),
                decreases t.len() - k,
            {
                sizes.push(decimal_string(t[k]));
                k += 1;
            }
            let type_text = join(&sizes, "-");
            assert(Seq::new(sizes@.len(), |j: int| sizes@[j]@) =~= Seq::new(
                t@.len(),
                |j: int| decimal(t@[j] as nat),
            ));
            let mut score: Vec<String> = Vec::new();
            let mut copy: Vec<usize> = Vec::new();
            let mut i: usize = 0;
            while i < t.len()
                invariant
                    i <= t.len(),
                    score@.len() == i,
                    copy@ == t@.take(i as int),
                    type_text@ == joined(Seq::new(t@.len(), |j: int| decimal(t@[j] as nat)), "-"@),
                    forall|j: int| 0 <= j < i ==> (#[trigger] score@[j])@ == score_name(t@, j as nat),
                decreases t.len() - i,
            {
                let name = String::from_str("score_").concat(type_text.as_str()).concat("_").concat(
                    decimal_string(i).as_str(),
                );
                score.push(name);
                copy.push(t[i]);
                assert(copy@ =~= t@.take(i + 1));
                i += 1;
            }
            assert(t@.take(i as int) =~= t@);
            let ghost before = score_table(scores@);
            scores.push((copy, score));
            proof {
                let now = score_table(scores@);
                assert(now[a as int].0 == types@[a as int]@);
                assert(now[a as int].1.len() == types@[a as int]@.len());
                assert forall|b: int| 0 <= b < a + 1 implies (#[trigger] now[b]).0 == types@[b]@
                    && now[b].1.len() == types@[b]@.len() by {
                    if b < a {
                        assert(now[b] == before[b]);
                    }
                }
                assert forall|b: int, i: int|
                    0 <= b < a + 1 && 0 <= i < types@[b]@.len() implies #[trigger] now[b].1[i]
                    == score_name(types@[b]@, i as nat) by {
                    if b < a {
                        assert(now[b] == before[b]);
                    }
                }
            }
            a += 1;
        }
        Scoring { partitions, alternatives: num_partitions, num_candidates: m, scores }
    }

    /// The index of the first entry for `order_type`, if there is one.
    fn find_type(&self, order_type: &Vec<usize>) -> (r: Option<usize>)
        ensures
            r is Some <==> has_type(score_table(self.scores@), order_type@),
            r matches Some(i) ==> i < self.scores@.len() && i == type_index(
                score_table(self.scores@),
                order_type@,
            ),
    {
        let ghost table = score_table(self.scores@);
        let mut i: usize = 0;
        while i < self.scores.len()
            invariant
                i <= self.scores.len(),
                table == score_table(self.scores@),
                forall|j: int| 0 <= j < i ==> (#[trigger] table[j]).0 != order_type@,
            decreases self.scores.len() - i,
        {
            if same_sizes(&self.scores[i].0, order_type) {
                proof {
                    assert(table[i as int].0 == order_type@);
                    let c = type_index(table, order_type@);
                    assert(c == i);
                }
                return Some(i);
            }
            assert(table[i as int].0 != order_type@);
            i += 1;
        }
        None
    }

    /// The names of the score variables of `order_type`.
    pub fn get_score_vector(&self, order_type: &Vec<usize>) -> (r: &Vec<String>)
        requires
            has_type(score_table(self.scores@), order_type@),
        ensures
            Seq::new(r@.len(), |k: int| r@[k]@) == vector_of(
                score_table(self.scores@),
                order_type@,
            ),
    {
        match self.find_type(order_type) {
            Some(i) => {
                assert(score_table(self.scores@)[i as int].1 =~= Seq::new(
                    self.scores@[i as int].1@.len(),
                    |k: int| self.scores@[i as int].1@[k]@,
                ));
                &self.scores[i].1
            },
            None => {
                assert(false);
                &self.scores[0].1
            },
        }
    }

    /// The name of the rule.
    pub fn name() -> (s: &'static str)
        ensures
            s@ == "scoring"@,
    {
        "scoring"
    }

    /// Whether the rule has a score for the class of `partition` in
    /// `ranking`.
    fn places(&self, ranking: &Ranking, partition: &Partition) -> (b: bool)
        ensures
            b == can_place(score_table(self.scores@), ranking@, partition@),
    {
        reveal(can_place);
        let index = match ranking.position(partition) {
            None => {
                return false;
            },
            Some(index) => index,
        };
        let order_type = ranking.order_type();
        assert(order_type@ =~= type_of(ranking@));
        match self.find_type(&order_type) {
            None => false,
            Some(_) => {
                let vector = self.get_score_vector(&order_type);
                assert(Seq::new(vector@.len(), |k: int| vector@[k]@).len() == vector@.len());
                index < vector.len()
            },
        }
    }

    /// A term for the score that one vote for `ranking` gives to
    /// `partition`, times `count`.
    fn placed_term(&self, ranking: &Ranking, partition: &Partition, count: RealTerm) -> (t: RealTerm)
        requires
            can_place(score_table(self.scores@), ranking@, partition@),
        ensures
            forall|v: Valuation| #[trigger]
                real_value(t, v) == weighted(
                    placed(score_table(self.scores@), ranking@, partition@, v),
                    real_value(count, v),
                ),
    {
        reveal(can_place);
        let order_type = ranking.order_type();
        assert(order_type@ =~= type_of(ranking@));
        let score_vector = self.get_score_vector(&order_type);
        let index = ranking.index(partition);
        let ghost names = vector_of(score_table(self.scores@), type_of(ranking@));
        assert(Seq::new(score_vector@.len(), |k: int| score_vector@[k]@).len() == names.len());
        assert(Seq::new(score_vector@.len(), |k: int| score_vector@[k]@)[index as int]
            == names[index as int]);
        let score = real_var(score_vector[index].clone());
        reveal(placed);
        reveal(weighted);
        real_prod(score, count)
    }
}

/// Whether the two order types are the same.
fn same_sizes(a: &Vec<usize>, b: &Vec<usize>) -> (r: bool)
    ensures
        r == (a@ == b@),
{
    if a.len() != b.len() {
        return false;
    }
    let mut i: usize = 0;
    while i < a.len()
        invariant
            i <= a.len(),
            a@.len() == b@.len(),
            forall|j: int| 0 <= j < i ==> a@[j] == b@[j],
        decreases a.len() - i,
    {
        if a[i] != b[i] {
            return false;
        }
        i += 1;
    }
    assert(a@ =~= b@);
    true
}

impl VotingRule for Scoring {
    open spec fn partitions(&self) -> Seq<Blocks> {
        models(self.partitions@)
    }

    open spec fn scorable(&self, p: Blocks, profile: Electorate, extra: Option<Extra>) -> bool {
        &&& forall|i: int|
            0 <= i < profile.rankings.len() ==> can_place(
                score_table(self.scores@),
                #[trigger] profile.rankings[i],
                p,
            )
        &&& forall|i: int|
            0 <= i < extra_list(extra).len() ==> can_place(
                score_table(self.scores@),
                (#[trigger] extra_list(extra)[i]).0,
                p,
            )
    }

    open spec fn score_value(
        &self,
        p: Blocks,
        profile: Electorate,
        extra: Option<Extra>,
        v: Valuation,
    ) -> real {
        profile_part(score_table(self.scores@), profile, p, profile.rankings.len(), v)
            + extra_part(
            score_table(self.scores@),
            extra_list(extra),
            p,
            extra_list(extra).len(),
            v,
        )
    }

    fn can_score(&self, partition: &Partition, profile: &Profile, extra_votes: Option<&ExtraVotes>) -> (b:
        bool) {
        let ghost e = profile@;
        let ghost table = score_table(self.scores@);
        let mut i: usize = 0;
        while i < profile.votes.len()
            invariant
                i <= profile.votes.len(),
                forall|k: int|
                    0 <= k < i ==> can_place(table, #[trigger] e.rankings[k], partition@),
            decreases profile.votes.len() - i,
        {
            assert(e.rankings[i as int] == profile.votes@[i as int].0@);
            if !self.places(&profile.votes[i].0, partition) {
                return false;
            }
            i += 1;
        }
        match extra_votes {
            None => {
                assert(extra_list(extras(extra_votes)).len() == 0);
                true
            },
            Some(extra) => {
                let ghost x = extra_view(extra);
                assert(extra_list(extras(extra_votes)) == x);
                let mut k: usize = 0;
                while k < extra.len()
                    invariant
                        k <= extra.len(),
                        x == extra_view(extra),
                        forall|l: int| 0 <= l < k ==> can_place(table, (#[trigger] x[l]).0, partition@),
                    decreases extra.len() - k,
                {
                    assert(x[k as int].0 == extra@[k as int].0@);
                    if !self.places(&extra[k].0, partition) {
                        return false;
                    }
                    k += 1;
                }
                true
            },
        }
    }

    fn all_partitions(&self) -> (r: Vec<Partition>) {
        self.partitions.copy()
    }

    fn score(&self, partition: &Partition, profile: &Profile, extra_votes: Option<&ExtraVotes>) -> (t:
        RealTerm) {
        let first = self.profile_sum(partition, profile);
        match extra_votes {
            None => {
                let t = first;
                proof {
                    assert forall|v: Valuation| #[trigger]
                        real_value(t, v) == self.score_value(
                            partition@,
                            profile@,
                            extras(extra_votes),
                            v,
                        ) by {
                        assert(extra_part(
                            score_table(self.scores@),
                            extra_list(extras(extra_votes)),
                            partition@,
                            0,
                            v,
                        ) == 0real);
                    }
                }
                t
            },
            Some(extra) => {
                assert(extra_list(extras(extra_votes)) == extra_view(extra));
                assert forall|i: int| 0 <= i < extra_view(extra).len() implies can_place(
                    score_table(self.scores@),
                    (#[trigger] extra_view(extra)[i]).0,
                    partition@,
                ) by {
                    assert(can_place(
                        score_table(self.scores@),
                        extra_list(extras(extra_votes))[i].0,
                        partition@,
                    ));
                }
                let second = self.extra_sum(partition, extra);
                let mut parts: Vec<RealTerm> = Vec::new();
                parts.push(first);
                parts.push(second);
                let ghost ps = parts@;
                let t = real_total(parts);
                proof {
                    assert forall|v: Valuation| #[trigger]
                        real_value(t, v) == self.score_value(
                            partition@,
                            profile@,
                            extras(extra_votes),
                            v,
                        ) by {
                        assert(real_sum(ps, 0, v) == 0real);
                        assert(real_sum(ps, 1, v) == real_value(ps[0], v));
                        assert(real_sum(ps, 2, v) == real_value(ps[0], v) + real_value(ps[1], v));
                    }
                }
                t
            },
        }
    }
}

impl Scoring {
    /// A term for the scores that the rankings of the profile give to
    /// `partition`.
    fn profile_sum(&self, partition: &Partition, profile: &Profile) -> (t: RealTerm)
        requires
            forall|i: int|
                0 <= i < profile@.rankings.len() ==> can_place(
                    score_table(self.scores@),
                    #[trigger] profile@.rankings[i],
                    partition@,
                ),
        ensures
            forall|v: Valuation| #[trigger]
                real_value(t, v) == profile_part(
                    score_table(self.scores@),
                    profile@,
                    partition@,
                    profile@.rankings.len(),
                    v,
                ),
    {
        let ghost table = score_table(self.scores@);
        let ghost e = profile@;
        let mut score: Vec<RealTerm> = Vec::new();
        let mut i: usize = 0;
        while i < profile.votes.len()
            invariant
                i <= profile.votes.len(),
                score@.len() == i,
                forall|v: Valuation|
                    #[trigger] real_sum(score@, i as nat, v) == profile_part(
                        table,
                        e,
                        partition@,
                        i as nat,
                        v,
                    ),
            decreases profile.votes.len() - i,
        {
            let ranking = &profile.votes[i].0;
            assert(e.rankings[i as int] == ranking@);
            assert(e.counts[i as int] == profile.votes@[i as int].1@);
            assert(can_place(table, e.rankings[i as int], partition@));
            let count = real_of_int(profile.votes[i].1.term());
            let term = self.placed_term(ranking, partition, count);
            proof {
                assert(e.rankings.len() == profile.votes@.len());
                assert forall|v: Valuation|
                    #[trigger] real_sum(score@.push(term), (i + 1) as nat, v) == profile_part(
                        table,
                        e,
                        partition@,
                        (i + 1) as nat,
                        v,
                    ) by {
                    lemma_real_sum_push(score@, term, v);
                    assert(real_sum(score@, i as nat, v) == profile_part(
                        table,
                        e,
                        partition@,
                        i as nat,
                        v,
                    ));
                    assert(real_value(count, v) == count_value(e.counts[i as int], v) as real);
                    assert(real_value(term, v) == weighted(
                        placed(table, e.rankings[i as int], partition@, v),
                        real_value(count, v),
                    ));
                }
            }
            score.push(term);
            i += 1;
        }
        let ghost ss = score@;
        let t = real_total(score);
        proof {
            assert(e.rankings.len() == profile.votes@.len());
            assert forall|v: Valuation| #[trigger]
                real_value(t, v) == profile_part(table, e, partition@, e.rankings.len(), v) by {
                assert(real_sum(ss, i as nat, v) == profile_part(
                    table,
                    e,
                    partition@,
                    i as nat,
                    v,
                ));
            }
        }
        t
    }

    /// A term for the scores that the extra votes give to `partition`.
    fn extra_sum(&self, partition: &Partition, extra: &ExtraVotes) -> (t: RealTerm)
        requires
            forall|i: int|
                0 <= i < extra_view(extra).len() ==> can_place(
                    score_table(self.scores@),
                    (#[trigger] extra_view(extra)[i]).0,
                    partition@,
                ),
        ensures
            forall|v: Valuation| #[trigger]
                real_value(t, v) == extra_part(
                    score_table(self.scores@),
                    extra_view(extra),
                    partition@,
                    extra_view(extra).len(),
                    v,
                ),
    {
        let ghost table = score_table(self.scores@);
        let ghost x = extra_view(extra);
        let mut score: Vec<RealTerm> = Vec::new();
        let mut k: usize = 0;
        while k < extra.len()
            invariant
                k <= extra.len(),
                score@.len() == k,
                forall|v: Valuation|
                    #[trigger] real_sum(score@, k as nat, v) == extra_part(
                        table,
                        x,
                        partition@,
                        k as nat,
                        v,
                    ),
            decreases extra.len() - k,
        {
            assert(x[k as int] == (extra@[k as int].0@, extra@[k as int].1@));
            assert(can_place(table, x[k as int].0, partition@));
            let count = real_of_int(extra[k].1.term());
            let term = self.placed_term(&extra[k].0, partition, count);
            proof {
                assert forall|v: Valuation|
                    #[trigger] real_sum(score@.push(term), (k + 1) as nat, v) == extra_part(
                        table,
                        x,
                        partition@,
                        (k + 1) as nat,
                        v,
                    ) by {
                    lemma_real_sum_push(score@, term, v);
                    assert(real_sum(score@, k as nat, v) == extra_part(
                        table,
                        x,
                        partition@,
                        k as nat,
                        v,
                    ));
                    assert(real_value(count, v) == count_value(x[k as int].1, v) as real);
                    assert(real_value(term, v) == weighted(
                        placed(table, x[k as int].0, partition@, v),
                        real_value(count, v),
                    ));
                }
            }
            score.push(term);
            k += 1;
        }
        let ghost ss = score@;
        let t = real_total(score);
        proof {
            assert forall|v: Valuation| #[trigger]
                real_value(t, v) == extra_part(table, x, partition@, x.len(), v) by {
                assert(real_sum(ss, k as nat, v) == extra_part(table, x, partition@, k as nat, v));
            }
        }
        t
    }
}

/// Some ranking of the profile has the order type `t`.
pub open spec fn typed_in(e: Electorate, t: Seq<usize>) -> bool {
    exists|i: int| 0 <= i < e.rankings.len() && type_of(#[trigger] e.rankings[i]) == t
}

/// Some ranking among the first `n` of the profile has the order type
/// `t`.
pub open spec fn typed_before(e: Electorate, n: int, t: Seq<usize>) -> bool {
    exists|i: int| 0 <= i < n && i < e.rankings.len() && type_of(#[trigger] e.rankings[i]) == t
}

/// The order types of the rankings of the profile, each once, in
/// increasing order.
pub fn order_types(profile: &Profile) -> (r: Vec<Vec<usize>>)
    ensures
        sorted(r@),
        forall|t: Seq<usize>| models(r@).contains(t) <==> typed_in(profile@, t),
{
    let ghost e = profile@;
    let mut r: Vec<Vec<usize>> = Vec::new();
    let mut i: usize = 0;
    proof {
        <Vec<usize> as Keyed>::lemma_order();
    }
    while i < profile.votes.len()
        invariant
            i <= profile.votes.len(),
            e == profile@,
            sorted(r@),
            forall|t: Seq<usize>| models(r@).contains(t) <==> typed_before(e, i as int, t),
        decreases profile.votes.len() - i,
    {
        let t = profile.votes[i].0.order_type();
        let ghost tm = t.model();
        assert(tm =~= type_of(e.rankings[i as int]));
        let ghost before = models(r@);
        insert(&mut r, t);
        proof {
            assert forall|s: Seq<usize>| models(r@).contains(s) <==> typed_before(
                e,
                i + 1,
                s,
            ) by {
                if typed_before(e, i + 1, s) {
                    let j = choose|j: int|
                        0 <= j < i + 1 && j < e.rankings.len() && type_of(#[trigger] e.rankings[j])
                            == s;
                    if j < i {
                        assert(typed_before(e, i as int, s));
                    }
                }
                if before.contains(s) {
                    assert(typed_before(e, i as int, s));
                    let j = choose|j: int|
                        0 <= j < i && j < e.rankings.len() && type_of(#[trigger] e.rankings[j])
                            == s;
                    assert(typed_before(e, i + 1, s));
                }
                if s == tm {
                    assert(type_of(e.rankings[i as int]) == s);
                    assert(typed_before(e, i + 1, s));
                }
            }
        }
        i += 1;
    }
    proof {
        assert forall|t: Seq<usize>| typed_before(e, i as int, t) <==> typed_in(e, t) by {
            if typed_in(e, t) {
                let j = choose|j: int|
                    0 <= j < e.rankings.len() && type_of(#[trigger] e.rankings[j]) == t;
                assert(typed_before(e, i as int, t));
            }
        }
    }
    r
}

} // verus!
