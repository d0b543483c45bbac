//! Profiles: how many votes each ranking has.
use vstd::prelude::*;
use vstd::string::*;
use crate::order::{increasing, models, strict_total, Keyed, Order};
use crate::sorted::from_items;
use crate::structures::Structure;
use crate::proving::formula::{
    all_of, holds, int_ge, int_gt, int_lit, int_sum, int_total, int_value, lemma_int_sum_push,
    name_seq, Formula, IntTerm, Valuation,
};
use crate::structures::candidate::{candidate_seq, Candidate, Name};
use crate::structures::coalition::{coalition_seq, Coalition, Group};
use crate::structures::partition::{partition_seq, Blocks, Partition};
use crate::structures::ranking::{ranks, Ranking, Tiers};
use crate::utils::text::{decimal, decimal_string};

verus! {

/// The number of votes of one ranking: a number, or a variable for a
/// number that is not known.
#[derive(Debug)]
pub enum VoteCount {
    Fixed(i64),
    Free(String),
}

/// Votes that are added to those of a profile: rankings with their counts.
pub type ExtraVotes = Vec<(Ranking, VoteCount)>;

/// The rankings that voters may choose, each with its number of votes,
/// and the structures of the election.
#[derive(Debug)]
pub struct Profile {
    pub votes: Vec<(Ranking, VoteCount)>,
    pub partitions: Vec<Partition>,
    pub coalitions: Vec<Coalition>,
    pub candidates: Vec<Candidate>,
    pub num_candidates: usize,
}

/// What a vote count stands for: a number, or the name of a variable.
pub enum Count {
    Fixed(int),
    Free(Seq<char>),
}

/// Votes that are added to those of a profile, as plain values.
pub type Extra = Seq<(Tiers, Count)>;

/// What a profile stands for.
pub struct Electorate {
    /// The rankings that have votes, in order.
    pub rankings: Seq<Tiers>,
    /// The number of votes of each ranking.
    pub counts: Seq<Count>,
    pub partitions: Seq<Blocks>,
    pub coalitions: Seq<Group>,
    pub candidates: Seq<Name>,
    pub num_candidates: nat,
}

impl View for VoteCount {
    type V = Count;

    open spec fn view(&self) -> Count {
        match self {
            VoteCount::Fixed(n) => Count::Fixed(*n as int),
            VoteCount::Free(name) => Count::Free(name@),
        }
    }
}

impl View for Profile {
    type V = Electorate;

    open spec fn view(&self) -> Electorate {
        Electorate {
            rankings: Seq::new(self.votes@.len(), |i: int| self.votes@[i].0@),
            counts: Seq::new(self.votes@.len(), |i: int| self.votes@[i].1@),
            partitions: models(self.partitions@),
            coalitions: models(self.coalitions@),
            candidates: models(self.candidates@),
            num_candidates: self.num_candidates as nat,
        }
    }
}

/// The extra votes as plain values.
pub open spec fn extra_view(extra: &ExtraVotes) -> Extra {
    Seq::new(extra@.len(), |i: int| (extra@[i].0@, extra@[i].1@))
}

/// The extra votes, if any, as plain values.
pub open spec fn extras(extra: Option<&ExtraVotes>) -> Option<Extra> {
    match extra {
        None => None,
        Some(e) => Some(extra_view(e)),
    }
}

/// The value of a count under `v`.
pub open spec fn count_value(c: Count, v: Valuation) -> int {
    match c {
        Count::Fixed(n) => n,
        Count::Free(name) => v.ints[name],
    }
}

/// `c` is the variable with the name `n`.
pub open spec fn free_named(c: Count, n: Seq<char>) -> bool {
    match c {
        Count::Fixed(_) => false,
        Count::Free(s) => s == n,
    }
}

/// The name of the variable for the votes of the ranking with index `i`:
/// `k_`, the index, and the suffix.
pub open spec fn var_name(i: nat, suffix: Seq<char>) -> Seq<char> {
    "k_"@ + decimal(i) + suffix
}

/// The index of the first entry of `extra` for the ranking `r`, if there
/// is one.
pub open spec fn extra_index(extra: Extra, r: Tiers) -> Option<int> {
    if exists|j: int| 0 <= j < extra.len() && (#[trigger] extra[j]).0 == r {
        Some(
            choose|j: int|
                0 <= j < extra.len() && (#[trigger] extra[j]).0 == r && forall|l: int|
                    0 <= l < j ==> (#[trigger] extra[l]).0 != r,
        )
    } else {
        None
    }
}

/// The votes that `extra` adds for the ranking `r`.
#[verifier::opaque]
pub open spec fn extra_value(extra: Option<Extra>, r: Tiers, v: Valuation) -> int {
    match extra {
        None => 0,
        Some(e) => match extra_index(e, r) {
            None => 0,
            Some(j) => count_value(e[j].1, v),
        },
    }
}

impl VoteCount {
    /// The count as a term.
    pub fn term(&self) -> (t: IntTerm)
        ensures
            forall|v: Valuation| #[trigger] int_value(t, v) == count_value(self@, v),
    {
        match self {
            VoteCount::Fixed(n) => IntTerm::Lit(*n),
            VoteCount::Free(name) => IntTerm::Var(name.clone()),
        }
    }
}

/// Weight 1 for the rankings that `chosen` marks, 0 for the others.
pub open spec fn marked(chosen: Seq<bool>) -> spec_fn(int) -> int {
    |i: int| if 0 <= i < chosen.len() && chosen[i] { 1int } else { 0int }
}

/// The entry of `extra` for `ranking`, if there is one.
pub fn find_extra(extra: &ExtraVotes, ranking: &Ranking) -> (r: Option<usize>)
    ensures
        match r {
            Some(j) => extra_index(extra_view(extra), ranking@) == Some(j as int) && j < extra.len(),
            None => extra_index(extra_view(extra), ranking@) == None::<int>,
        },
{
    let mut j: usize = 0;
    while j < extra.len()
        invariant
            j <= extra.len(),
            forall|l: int| 0 <= l < j ==> (#[trigger] extra@[l]).0@ != ranking@,
        decreases extra.len() - j,
    {
        match extra[j].0.compare(ranking) {
            Order::Equal => {
                proof {
                    Ranking::lemma_order();
                    let e = extra_view(extra);
                    assert(e[j as int].0 == ranking@);
                    assert forall|l: int| 0 <= l < j implies (#[trigger] e[l]).0 != ranking@ by {
                        assert(extra@[l].0@ != ranking@);
                    }
                    let c = choose|c: int|
                        0 <= c < e.len() && (#[trigger] e[c]).0 == ranking@ && forall|l: int|
                            0 <= l < c ==> (#[trigger] e[l]).0 != ranking@;
                    assert(c == j);
                }
                return Some(j);
            },
            _ => {
                proof {
                    Ranking::lemma_order();
                }
            },
        }
        j += 1;
    }
    None
}

/// The ranking `r` ranks every partition of `ps`.
pub open spec fn ranks_all(r: Tiers, ps: Seq<Blocks>) -> bool {
    forall|j: int| 0 <= j < ps.len() ==> ranks(r, #[trigger] ps[j])
}

/// Whether `ranking` ranks every partition of `partitions`.
pub fn ranks_every(ranking: &Ranking, partitions: &Vec<Partition>) -> (b: bool)
    ensures
        b == ranks_all(ranking@, models(partitions@)),
{
    let mut j: usize = 0;
    while j < partitions.len()
        invariant
            j <= partitions.len(),
            forall|l: int| 0 <= l < j ==> ranks(ranking@, #[trigger] models(partitions@)[l]),
        decreases partitions.len() - j,
    {
        assert(models(partitions@)[j as int] == partitions@[j as int]@);
        if ranking.position(&partitions[j]).is_none() {
            return false;
        }
        j += 1;
    }
    true
}

impl Electorate {
    /// The votes of the ranking with index `i` under `v`, those of
    /// `extra` for that ranking counted in.
    pub open spec fn amount(self, extra: Option<Extra>, i: int, v: Valuation) -> int {
        count_value(self.counts[i], v) + extra_value(extra, self.rankings[i], v)
    }

    /// The sum, over the first `n` rankings, of the votes of each times
    /// its weight.
    pub open spec fn tally(
        self,
        extra: Option<Extra>,
        weight: spec_fn(int) -> int,
        n: nat,
        v: Valuation,
    ) -> int
        decreases n,
    {
        if n == 0 || n > self.rankings.len() {
            0
        } else {
            self.tally(extra, weight, (n - 1) as nat, v) + self.amount(extra, n - 1, v) * weight(
                n - 1,
            )
        }
    }

    /// Some ranking of the profile is `r`.
    pub open spec fn lists(self, r: Tiers) -> bool {
        exists|i: int| 0 <= i < self.rankings.len() && #[trigger] self.rankings[i] == r
    }

    /// The index of the first ranking that is `r`.
    pub open spec fn vote_index(self, r: Tiers) -> int
        recommends
            self.lists(r),
    {
        choose|i: int|
            0 <= i < self.rankings.len() && #[trigger] self.rankings[i] == r && forall|l: int|
                0 <= l < i ==> #[trigger] self.rankings[l] != r
    }

    /// The number of all votes under `v`.
    pub open spec fn total(self, v: Valuation) -> int {
        self.tally(None, |i: int| 1int, self.rankings.len(), v)
    }

    /// No ranking has a negative number of votes under `v`.
    pub open spec fn nonnegative(self, v: Valuation) -> bool {
        forall|i: int| 0 <= i < self.counts.len() ==> count_value(#[trigger] self.counts[i], v) >= 0
    }

    /// Every ranking ranks every partition of the profile.
    pub open spec fn complete(self) -> bool {
        forall|i: int|
            0 <= i < self.rankings.len() ==> ranks_all(#[trigger] self.rankings[i], self.partitions)
    }

    /// Without extra votes a ranking has the votes of its count.
    pub proof fn lemma_amount_plain(self, i: int, v: Valuation)
        ensures
            self.amount(None, i, v) == count_value(self.counts[i], v),
    {
        reveal(extra_value);
    }

    /// A tally depends on the weights of the rankings it counts only.
    pub proof fn lemma_tally_ext(
        self,
        extra: Option<Extra>,
        w1: spec_fn(int) -> int,
        w2: spec_fn(int) -> int,
        n: nat,
        v: Valuation,
    )
        requires
            forall|i: int| 0 <= i < n ==> #[trigger] w1(i) == w2(i),
        ensures
            self.tally(extra, w1, n, v) == self.tally(extra, w2, n, v),
        decreases n,
    {
        if n > 0 && n <= self.rankings.len() {
            self.lemma_tally_ext(extra, w1, w2, (n - 1) as nat, v);
        }
    }
}

/// The profile `e` with a new variable for every ranking: the variable
/// of the ranking with index `i` is named `k_`, `i`, and the suffix.
pub open spec fn renamed(e: Electorate, suffix: Seq<char>) -> Electorate {
    Electorate {
        rankings: e.rankings,
        counts: Seq::new(e.rankings.len(), |i: int| Count::Free(var_name(i as nat, suffix))),
        partitions: e.partitions,
        coalitions: e.coalitions,
        candidates: e.candidates,
        num_candidates: e.num_candidates,
    }
}

/// The name of the variable for the ranking with index `i`.
pub fn vote_variable(i: usize, suffix: &str) -> (name: String)
    ensures
        name@ == var_name(i as nat, suffix@),
{
    let number = decimal_string(i);
    String::from_str("k_").concat(number.as_str()).concat(suffix)
}

/// Why a profile cannot be made.
#[derive(Clone, Copy, Debug, PartialEq, Eq, Structural)]
pub enum ProfileError {
    /// There are no votes.
    NoVotes,
    /// A number of votes is greater than the greatest count that a
    /// profile can hold.
    CountTooLarge,
}

/// The structures of the election with `m` candidates.
pub open spec fn of_election(e: Electorate, m: usize) -> bool {
    &&& e.partitions == partition_seq(m)
    &&& e.coalitions == coalition_seq(m)
    &&& e.candidates == candidate_seq(m)
    &&& e.num_candidates == m
}

/// Some entry of `votes` is for the ranking `r` with `n` votes.
pub open spec fn has_vote(votes: Seq<(Ranking, usize)>, r: Tiers, n: int) -> bool {
    exists|j: int| 0 <= j < votes.len() && (#[trigger] votes[j]).0@ == r && votes[j].1 == n
}

/// Some entry of `votes` is for the ranking `r`, and `c` is the fixed
/// count of its votes.
pub open spec fn counted(votes: Seq<(Ranking, usize)>, r: Tiers, c: Count) -> bool {
    exists|n: int| #[trigger] has_vote(votes, r, n) && c == Count::Fixed(n)
}

/// Some entry of `entries` is for the ranking `r`.
pub open spec fn entered(entries: Seq<(Ranking, VoteCount)>, r: Tiers) -> bool {
    exists|i: int| 0 <= i < entries.len() && (#[trigger] entries[i]).0@ == r
}

impl Profile {
    /// The profile of an election with `m` candidates in which the
    /// voters can choose the rankings of `rankings`: each ranking has a
    /// variable of its own for the number of its votes.
    pub fn from_ballot(m: usize, rankings: Vec<Ranking>) -> (p: Profile)
        requires
            m >= 1,
        ensures
            of_election(p@, m),
            increasing(Ranking::less(), p@.rankings),
            forall|r: Tiers| p@.rankings.contains(r) <==> models(rankings@).contains(r),
            p@.counts.len() == p@.rankings.len(),
            forall|i: int|
                0 <= i < p@.counts.len() ==> #[trigger] p@.counts[i] == Count::Free(
                    var_name(i as nat, Seq::empty()),
                ),
    {
        let partitions = Partition::all(m);
        let coalitions = Coalition::all(m);
        let candidates = Candidate::all(m);
        let mut sorted_rankings = from_items(rankings);
        let ghost rs = models(sorted_rankings@);
        let mut votes: Vec<(Ranking, VoteCount)> = Vec::new();
        let mut i: usize = 0;
        proof {
            reveal_strlit("");
        }
        while i < sorted_rankings.len()
            invariant
                i <= sorted_rankings.len(),
                rs == models(sorted_rankings@),
                votes@.len() == i,
                ""@ == Seq::<char>::empty(),
                forall|j: int|
                    0 <= j < i ==> (#[trigger] votes@[j]).0@ == rs[j] && votes@[j].1@
                        == Count::Free(var_name(j as nat, Seq::empty())),
            decreases sorted_rankings.len() - i,
        {
            let var = VoteCount::Free(vote_variable(i, ""));
            assert(sorted_rankings@[i as int].model() == rs[i as int]);
            votes.push((sorted_rankings[i].copy(), var));
            i += 1;
        }
        let p = Profile { votes, partitions, coalitions, candidates, num_candidates: m };
        proof {
            assert(p@.rankings =~= rs);
        }
        p
    }

    /// The profile of an election with `m` candidates with the given
    /// numbers of votes. There must be a vote, and no number may be
    /// greater than the greatest 64-bit count.
    pub fn from_custom(m: usize, votes: Vec<(Ranking, usize)>) -> (r: Result<Profile, ProfileError>)
        requires
            m >= 1,
        ensures
            votes@.len() == 0 <==> r == Err::<Profile, ProfileError>(ProfileError::NoVotes),
            r == Err::<Profile, ProfileError>(ProfileError::CountTooLarge) <==> votes@.len() > 0
                && exists|j: int| 0 <= j < votes@.len() && (#[trigger] votes@[j]).1 > i64::MAX,
            r matches Ok(p) ==> {
                &&& of_election(p@, m)
                &&& increasing(Ranking::less(), p@.rankings)
                &&& p@.counts.len() == p@.rankings.len()
                &&& forall|i: int|
                    0 <= i < p@.rankings.len() ==> counted(
                        votes@,
                        #[trigger] p@.rankings[i],
                        p@.counts[i],
                    )
                &&& forall|j: int|
                    0 <= j < votes@.len() ==> p@.rankings.contains((#[trigger] votes@[j]).0@)
            },
    {
        if votes.len() == 0 {
            return Err(ProfileError::NoVotes);
        }
        let partitions = Partition::all(m);
        let coalitions = Coalition::all(m);
        let candidates = Candidate::all(m);
        let mut entries: Vec<(Ranking, VoteCount)> = Vec::new();
        let mut j: usize = 0;
        proof {
            Ranking::lemma_order();
        }
        while j < votes.len()
            invariant
                j <= votes.len(),
                strict_total(Ranking::less()),
                forall|a: int, b: int|
                    0 <= a < b < entries@.len() ==> (Ranking::less())(
                        (#[trigger] entries@[a]).0@,
                        (#[trigger] entries@[b]).0@,
                    ),
                forall|i: int|
                    0 <= i < entries@.len() ==> counted(
                        votes@,
                        (#[trigger] entries@[i]).0@,
                        entries@[i].1@,
                    ),
                forall|l: int| 0 <= l < j ==> entered(entries@, (#[trigger] votes@[l]).0@),
                forall|l: int| 0 <= l < j ==> (#[trigger] votes@[l]).1 <= i64::MAX,
            decreases votes.len() - j,
        {
            let count = votes[j].1;
            if count as u128 > 0x7fff_ffff_ffff_ffffu128 {
                assert(votes@[j as int].1 > i64::MAX);
                return Err(ProfileError::CountTooLarge);
            }
            let ranking = votes[j].0.copy();
            let ghost rm = ranking@;
            assert(rm == votes@[j as int].0@);
            let ghost before = entries@;
            // the place of the ranking among those that are there
            let mut pos: usize = 0;
            let mut found = false;
            let mut stop = false;
            while pos < entries.len() && !stop
                invariant
                    pos <= entries.len(),
                    entries@ == before,
                    strict_total(Ranking::less()),
                    forall|k: int| 0 <= k < pos ==> (Ranking::less())((#[trigger] before[k]).0@, rm),
                    stop ==> pos < entries.len() && (found ==> before[pos as int].0@ == rm) && (
                    !found ==> (Ranking::less())(rm, before[pos as int].0@)),
                    found ==> stop,
                decreases entries.len() - pos, if stop { 0int } else { 1int },
            {
                match entries[pos].0.compare(&ranking) {
                    Order::Less => {
                        pos += 1;
                    },
                    Order::Equal => {
                        found = true;
                        stop = true;
                    },
                    Order::Greater => {
                        stop = true;
                    },
                }
            }
            assert(has_vote(votes@, rm, count as int));
            if found {
                entries.set(pos, (ranking, VoteCount::Fixed(count as i64)));
                proof {
                    assert forall|a: int, b: int| 0 <= a < b < entries@.len() implies (
                    Ranking::less())((#[trigger] entries@[a]).0@, (#[trigger] entries@[b]).0@) by {
                        assert(entries@[a].0@ == before[a].0@);
                        assert(entries@[b].0@ == before[b].0@);
                    }
                    assert forall|i: int| 0 <= i < entries@.len() implies counted(
                        votes@,
                        (#[trigger] entries@[i]).0@,
                        entries@[i].1@,
                    ) by {
                        if i == pos {
                            assert(has_vote(votes@, entries@[i].0@, count as int));
                        } else {
                            assert(entries@[i] == before[i]);
                            assert(counted(votes@, before[i].0@, before[i].1@));
                        }
                    }
                    assert forall|l: int| 0 <= l < j + 1 implies entered(
                        entries@,
                        (#[trigger] votes@[l]).0@,
                    ) by {
                        if l < j {
                            assert(entered(before, votes@[l].0@));
                            let i = choose|i: int|
                                0 <= i < before.len() && (#[trigger] before[i]).0@ == votes@[l].0@;
                            assert(entries@[i].0@ == votes@[l].0@);
                        } else {
                            assert(entries@[pos as int].0@ == votes@[l].0@);
                        }
                    }
                }
            } else {
                entries.insert(pos, (ranking, VoteCount::Fixed(count as i64)));
                proof {
                    assert forall|a: int, b: int| 0 <= a < b < entries@.len() implies (
                    Ranking::less())((#[trigger] entries@[a]).0@, (#[trigger] entries@[b]).0@) by {
                        let oa = if a < pos { a } else { a - 1 };
                        let ob = if b < pos { b } else { b - 1 };
                        if a == pos {
                            assert(entries@[b] == before[ob]);
                            if ob > pos {
                                assert((Ranking::less())(before[pos as int].0@, before[ob].0@));
                            }
                        } else if b == pos {
                            assert(entries@[a] == before[oa]);
                        } else {
                            assert(entries@[a] == before[oa] && entries@[b] == before[ob]);
                            assert((Ranking::less())(before[oa].0@, before[ob].0@));
                        }
                    }
                    assert forall|i: int| 0 <= i < entries@.len() implies counted(
                        votes@,
                        (#[trigger] entries@[i]).0@,
                        entries@[i].1@,
                    ) by {
                        if i == pos {
                            assert(has_vote(votes@, entries@[i].0@, count as int));
                        } else {
                            let o = if i < pos { i } else { i - 1 };
                            assert(entries@[i] == before[o]);
                            assert(counted(votes@, before[o].0@, before[o].1@));
                        }
                    }
                    assert forall|l: int| 0 <= l < j + 1 implies entered(
                        entries@,
                        (#[trigger] votes@[l]).0@,
                    ) by {
                        if l < j {
                            assert(entered(before, votes@[l].0@));
                            let i = choose|i: int|
                                0 <= i < before.len() && (#[trigger] before[i]).0@ == votes@[l].0@;
                            if i < pos {
                                assert(entries@[i] == before[i]);
                            } else {
                                assert(entries@[i + 1] == before[i]);
                            }
                        } else {
                            assert(entries@[pos as int].0@ == votes@[l].0@);
                        }
                    }
                }
            }
            j += 1;
        }
        let p = Profile { votes: entries, partitions, coalitions, candidates, num_candidates: m };
        proof {
            assert forall|a: int, b: int| 0 <= a < b < p@.rankings.len() implies (
            Ranking::less())(p@.rankings[a], p@.rankings[b]) by {
                assert((Ranking::less())(p.votes@[a].0@, p.votes@[b].0@));
            }
            assert forall|i: int| 0 <= i < p@.rankings.len() implies counted(
                votes@,
                #[trigger] p@.rankings[i],
                p@.counts[i],
            ) by {
                assert(counted(votes@, p.votes@[i].0@, p.votes@[i].1@));
            }
            assert forall|l: int| 0 <= l < votes@.len() implies p@.rankings.contains(
                (#[trigger] votes@[l]).0@,
            ) by {
                assert(entered(p.votes@, votes@[l].0@));
                let i = choose|i: int|
                    0 <= i < p.votes@.len() && (#[trigger] p.votes@[i]).0@ == votes@[l].0@;
                assert(p@.rankings[i] == votes@[l].0@);
            }
        }
        Ok(p)
    }

    /// A profile with the same rankings and a new variable for the votes
    /// of each; `s` is the suffix of the variables' names.
    pub fn create_new(&self, s: &str) -> (r: Profile)
        ensures
            r@ == renamed(self@, s@),
    {
        let mut votes: Vec<(Ranking, VoteCount)> = Vec::new();
        let mut i: usize = 0;
        while i < self.votes.len()
            invariant
                i <= self.votes.len(),
                votes@.len() == i,
                forall|j: int|
                    0 <= j < i ==> (#[trigger] votes@[j]).0@ == self.votes@[j].0@ && votes@[j].1@
                        == Count::Free(var_name(j as nat, s@)),
            decreases self.votes.len() - i,
        {
            let var = VoteCount::Free(vote_variable(i, s));
            votes.push((self.votes[i].0.copy(), var));
            i += 1;
        }
        let r = Profile {
            votes,
            partitions: self.partitions.copy(),
            coalitions: self.coalitions.copy(),
            candidates: self.candidates.copy(),
            num_candidates: self.num_candidates,
        };
        proof {
            let a = r@;
            let b = renamed(self@, s@);
            assert(a.rankings =~= b.rankings);
            assert(a.counts =~= b.counts);
            assert(a.partitions =~= b.partitions);
            assert(a.coalitions =~= b.coalitions);
            assert(a.candidates =~= b.candidates);
        }
        r
    }

    /// The index of the first entry for `ranking`, if there is one.
    pub fn find_vote(&self, ranking: &Ranking) -> (r: Option<usize>)
        ensures
            r is Some <==> self@.lists(ranking@),
            r matches Some(i) ==> i < self.votes@.len() && i == self@.vote_index(ranking@),
    {
        let mut j: usize = 0;
        while j < self.votes.len()
            invariant
                j <= self.votes.len(),
                forall|l: int| 0 <= l < j ==> #[trigger] self@.rankings[l] != ranking@,
            decreases self.votes.len() - j,
        {
            proof {
                Ranking::lemma_order();
            }
            match self.votes[j].0.compare(ranking) {
                Order::Equal => {
                    proof {
                        assert(self@.rankings[j as int] == ranking@);
                        let c = self@.vote_index(ranking@);
                        assert(c == j);
                    }
                    return Some(j);
                },
                _ => {
                    assert(self@.rankings[j as int] != ranking@);
                },
            }
            j += 1;
        }
        None
    }

    /// A term for the votes of the ranking with index `i`, those of
    /// `extra_votes` for that ranking counted in.
    pub fn amount_term(&self, extra_votes: Option<&ExtraVotes>, i: usize) -> (t: IntTerm)
        requires
            i < self.votes@.len(),
        ensures
            forall|v: Valuation| #[trigger]
                int_value(t, v) == self@.amount(extras(extra_votes), i as int, v),
    {
        let count = self.votes[i].1.term();
        reveal(extra_value);
        assert(self@.counts[i as int] == self.votes@[i as int].1@);
        assert(self@.rankings[i as int] == self.votes@[i as int].0@);
        match extra_votes {
            None => count,
            Some(extra) => match find_extra(extra, &self.votes[i].0) {
                None => count,
                Some(j) => {
                    let more = extra[j].1.term();
                    assert(extra_view(extra)[j as int].1 == extra@[j as int].1@);
                    let mut parts: Vec<IntTerm> = Vec::new();
                    parts.push(count);
                    parts.push(more);
                    let ghost ps = parts@;
                    let t = int_total(parts);
                    proof {
                        assert forall|v: Valuation| #[trigger]
                            int_value(t, v) == self@.amount(extras(extra_votes), i as int, v) by {
                            assert(int_sum(ps, 0, v) == 0);
                            assert(int_sum(ps, 1, v) == int_value(ps[0], v));
                            assert(int_sum(ps, 2, v) == int_value(ps[0], v) + int_value(ps[1], v));
                        }
                    }
                    t
                },
            },
        }
    }

    /// A term for the votes of the rankings that `chosen` marks.
    pub fn tally_term(&self, extra_votes: Option<&ExtraVotes>, chosen: &Vec<bool>) -> (t: IntTerm)
        requires
            chosen@.len() == self.votes@.len(),
        ensures
            forall|v: Valuation| #[trigger]
                int_value(t, v) == self@.tally(
                    extras(extra_votes),
                    marked(chosen@),
                    self.votes@.len(),
                    v,
                ),
    {
        let mut parts: Vec<IntTerm> = Vec::new();
        let ghost w = marked(chosen@);
        let ghost e = extras(extra_votes);
        let mut i: usize = 0;
        while i < self.votes.len()
            invariant
                i <= self.votes.len(),
                forall|v: Valuation|
                    #[trigger] int_sum(parts@, parts@.len(), v) == self@.tally(e, w, i as nat, v),
            decreases self.votes.len() - i,
        {
            if chosen[i] {
                let t = self.amount_term(extra_votes, i);
                proof {
                    assert forall|v: Valuation|
                        #[trigger] int_sum(parts@.push(t), parts@.len() + 1, v) == self@.tally(
                            e,
                            w,
                            (i + 1) as nat,
                            v,
                        ) by {
                        lemma_int_sum_push(parts@, t, v);
                        assert(int_sum(parts@, parts@.len(), v) == self@.tally(e, w, i as nat, v));
                        assert(int_value(t, v) == self@.amount(e, i as int, v));
                        assert(w(i as int) == 1);
                        assert(self@.rankings.len() == self.votes@.len());
                        assert(self@.tally(e, w, (i + 1) as nat, v) == self@.tally(
                            e,
                            w,
                            i as nat,
                            v,
                        ) + self@.amount(e, i as int, v) * w(i as int));
                    }
                }
                parts.push(t);
            } else {
                proof {
                    assert forall|v: Valuation|
                        #[trigger] int_sum(parts@, parts@.len(), v) == self@.tally(
                            e,
                            w,
                            (i + 1) as nat,
                            v,
                        ) by {
                        assert(int_sum(parts@, parts@.len(), v) == self@.tally(e, w, i as nat, v));
                        assert(w(i as int) == 0);
                        assert(self@.rankings.len() == self.votes@.len());
                        assert(self@.tally(e, w, (i + 1) as nat, v) == self@.tally(
                            e,
                            w,
                            i as nat,
                            v,
                        ) + self@.amount(e, i as int, v) * w(i as int));
                    }
                }
            }
            i += 1;
        }
        if parts.len() == 0 {
            let t = int_lit(0);
            proof {
                assert forall|v: Valuation| #[trigger]
                    int_value(t, v) == self@.tally(e, w, self.votes@.len(), v) by {
                    assert(int_sum(parts@, parts@.len(), v) == self@.tally(e, w, i as nat, v));
                }
            }
            t
        } else {
            let ghost ps = parts@;
            let t = int_total(parts);
            proof {
                assert forall|v: Valuation| #[trigger]
                    int_value(t, v) == self@.tally(e, w, self.votes@.len(), v) by {
                    assert(int_sum(ps, ps.len(), v) == self@.tally(e, w, i as nat, v));
                }
            }
            t
        }
    }

    /// The counts of all rankings, as terms, in the order of the rankings.
    pub fn all_vars(&self) -> (r: Vec<IntTerm>)
        ensures
            r@.len() == self@.counts.len(),
            forall|i: int, v: Valuation|
                0 <= i < r@.len() ==> #[trigger] int_value(r@[i], v) == count_value(
                    self@.counts[i],
                    v,
                ),
    {
        let mut r: Vec<IntTerm> = Vec::new();
        let mut i: usize = 0;
        while i < self.votes.len()
            invariant
                i <= self.votes.len(),
                r@.len() == i,
                forall|j: int, v: Valuation|
                    0 <= j < i ==> #[trigger] int_value(r@[j], v) == count_value(
                        self@.counts[j],
                        v,
                    ),
            decreases self.votes.len() - i,
        {
            assert(self@.counts[i as int] == self.votes@[i as int].1@);
            r.push(self.votes[i].1.term());
            i += 1;
        }
        r
    }

    /// The names of the variables among the counts, in the order of the
    /// rankings.
    pub fn var_names(&self) -> (r: Vec<String>)
        ensures
            forall|n: Seq<char>|
                name_seq(r@).contains(n) <==> exists|i: int|
                    0 <= i < self@.counts.len() && free_named(#[trigger] self@.counts[i], n),
    {
        let mut r: Vec<String> = Vec::new();
        let mut i: usize = 0;
        while i < self.votes.len()
            invariant
                i <= self.votes.len(),
                forall|n: Seq<char>|
                    name_seq(r@).contains(n) <==> exists|j: int|
                        0 <= j < i && free_named(#[trigger] self@.counts[j], n),
            decreases self.votes.len() - i,
        {
            let ghost before = name_seq(r@);
            assert(self@.counts[i as int] == self.votes@[i as int].1@);
            match &self.votes[i].1 {
                VoteCount::Free(name) => {
                    r.push(name.clone());
                    proof {
                        let after = name_seq(r@);
                        assert(after =~= before.push(name@));
                        assert forall|n: Seq<char>|
                            after.contains(n) <==> exists|j: int|
                                0 <= j < i + 1 && free_named(#[trigger] self@.counts[j], n) by {
                            if after.contains(n) {
                                let l = choose|l: int| 0 <= l < after.len() && after[l] == n;
                                if l < before.len() {
                                    assert(before[l] == n);
                                    assert(before.contains(n));
                                    let j = choose|j: int|
                                        0 <= j < i && free_named(#[trigger] self@.counts[j], n);
                                    assert(0 <= j < i + 1);
                                } else {
                                    assert(free_named(self@.counts[i as int], n));
                                }
                            }
                            if exists|j: int|
                                0 <= j < i + 1 && free_named(#[trigger] self@.counts[j], n) {
                                let j = choose|j: int|
                                    0 <= j < i + 1 && free_named(#[trigger] self@.counts[j], n);
                                if j < i {
                                    assert(before.contains(n));
                                    let l = choose|l: int| 0 <= l < before.len() && before[l] == n;
                                    assert(after[l] == n);
                                } else {
                                    assert(after[before.len() as int] == n);
                                }
                            }
                        }
                    }
                },
                VoteCount::Fixed(_) => {
                    proof {
                        assert forall|n: Seq<char>|
                            before.contains(n) <==> exists|j: int|
                                0 <= j < i + 1 && free_named(#[trigger] self@.counts[j], n) by {
                            if exists|j: int|
                                0 <= j < i + 1 && free_named(#[trigger] self@.counts[j], n) {
                                let j = choose|j: int|
                                    0 <= j < i + 1 && free_named(#[trigger] self@.counts[j], n);
                                assert(j < i);
                            }
                            if before.contains(n) {
                                let j = choose|j: int|
                                    0 <= j < i && free_named(#[trigger] self@.counts[j], n);
                                assert(0 <= j < i + 1);
                            }
                        }
                    }
                },
            }
            i += 1;
        }
        r
    }

    /// The statement that no ranking has a negative number of votes.
    pub fn vars_nonnegative(&self) -> (f: Formula)
        ensures
            forall|v: Valuation| #[trigger] holds(f, v) <==> self@.nonnegative(v),
    {
        let mut parts: Vec<Formula> = Vec::new();
        let mut i: usize = 0;
        while i < self.votes.len()
            invariant
                i <= self.votes.len(),
                parts@.len() == i,
                forall|j: int, v: Valuation|
                    0 <= j < i ==> (#[trigger] holds(parts@[j], v) <==> count_value(
                        self@.counts[j],
                        v,
                    ) >= 0),
            decreases self.votes.len() - i,
        {
            assert(self@.counts[i as int] == self.votes@[i as int].1@);
            let t = self.votes[i].1.term();
            let zero = int_lit(0);
            let part = int_ge(t, zero);
            proof {
                assert forall|v: Valuation| #[trigger]
                    holds(part, v) <==> count_value(self@.counts[i as int], v) >= 0 by {
                    assert(int_value(zero, v) == 0);
                    assert(int_value(t, v) == count_value(self@.counts[i as int], v));
                }
            }
            parts.push(part);
            i += 1;
        }
        let ghost ps = parts@;
        let f = all_of(parts);
        proof {
            assert forall|v: Valuation| #[trigger] holds(f, v) <==> self@.nonnegative(v) by {
                if holds(f, v) {
                    assert forall|j: int| 0 <= j < self@.counts.len() implies count_value(
                        #[trigger] self@.counts[j],
                        v,
                    ) >= 0 by {
                        assert(holds(ps[j], v));
                    }
                }
                if self@.nonnegative(v) {
                    assert forall|j: int| 0 <= j < ps.len() implies holds(#[trigger] ps[j], v) by {
                        assert(count_value(self@.counts[j], v) >= 0);
                    }
                }
            }
        }
        f
    }

    /// A term for the number of all votes.
    pub fn total_term(&self) -> (t: IntTerm)
        ensures
            forall|v: Valuation| #[trigger] int_value(t, v) == self@.total(v),
    {
        let mut parts: Vec<IntTerm> = Vec::new();
        let ghost one = |i: int| 1int;
        let mut i: usize = 0;
        while i < self.votes.len()
            invariant
                i <= self.votes.len(),
                parts@.len() == i,
                forall|v: Valuation|
                    #[trigger] int_sum(parts@, i as nat, v) == self@.tally(None, one, i as nat, v),
            decreases self.votes.len() - i,
        {
            assert(self@.counts[i as int] == self.votes@[i as int].1@);
            let t = self.votes[i].1.term();
            proof {
                assert forall|v: Valuation|
                    #[trigger] int_sum(parts@.push(t), (i + 1) as nat, v) == self@.tally(
                        None,
                        one,
                        (i + 1) as nat,
                        v,
                    ) by {
                    lemma_int_sum_push(parts@, t, v);
                    assert(int_sum(parts@, i as nat, v) == self@.tally(None, one, i as nat, v));
                    assert(int_value(t, v) == count_value(self@.counts[i as int], v));
                    assert(one(i as int) == 1);
                    self@.lemma_amount_plain(i as int, v);
                    assert(self@.rankings.len() == self.votes@.len());
                    assert(self@.tally(None, one, (i + 1) as nat, v) == self@.tally(
                        None,
                        one,
                        i as nat,
                        v,
                    ) + self@.amount(None, i as int, v) * one(i as int));
                }
            }
            parts.push(t);
            i += 1;
        }
        let ghost ps = parts@;
        let t = int_total(parts);
        proof {
            assert forall|v: Valuation| #[trigger] int_value(t, v) == self@.total(v) by {
                assert(int_sum(ps, i as nat, v) == self@.tally(None, one, i as nat, v));
            }
        }
        t
    }

    /// The statement that there is at least one vote in all.
    pub fn vars_sum_positive(&self) -> (f: Formula)
        ensures
            forall|v: Valuation| #[trigger] holds(f, v) <==> self@.total(v) > 0,
    {
        let sum = self.total_term();
        let zero = int_lit(0);
        let f = int_gt(sum, zero);
        proof {
            assert forall|v: Valuation| #[trigger] holds(f, v) <==> self@.total(v) > 0 by {
                assert(int_value(sum, v) == self@.total(v));
                assert(int_value(zero, v) == 0);
            }
        }
        f
    }
}

} // verus!
