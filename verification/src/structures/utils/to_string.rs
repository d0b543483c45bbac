//! The text form of the structures: a coalition is its members in
//! braces, a partition its coalitions in braces, an indifference class
//! its partitions with `~` between them, and a ranking its classes with
//! `>` between them.
use vstd::prelude::*;
use vstd::string::*;
use crate::order::{models, Keyed};
use crate::structures::candidate::{Candidate, Name};
use crate::structures::coalition::{Coalition, Group};
use crate::structures::partition::{Blocks, Partition};
use crate::structures::ranking::{Ranking, Tier, Tiers};

verus! {

/// A piece of text.
pub type Text = Seq<char>;

/// What stands between the members of a coalition and between the
/// coalitions of a partition.
pub open spec fn comma() -> Text {
    seq![',', ' ']
}

/// What stands between the partitions of an indifference class.
pub open spec fn tilde() -> Text {
    seq![' ', '~', ' ']
}

/// What stands between the classes of a ranking.
pub open spec fn arrow() -> Text {
    seq![' ', '>', ' ']
}

/// The items with `sep` between them.
pub open spec fn joined(items: Seq<Text>, sep: Text) -> Text
    decreases items.len(),
{
    if items.len() == 0 {
        Seq::empty()
    } else if items.len() == 1 {
        items[0]
    } else {
        items[0] + sep + joined(items.skip(1), sep)
    }
}

/// The text of a coalition: its members in braces, with commas.
pub open spec fn coalition_text(g: Group) -> Text {
    seq!['{'] + joined(g, comma()) + seq!['}']
}

/// The texts of the coalitions of `q`.
pub open spec fn coalition_texts(q: Blocks) -> Seq<Text> {
    Seq::new(q.len(), |k: int| coalition_text(q[k]))
}

/// The text of a partition: its coalitions in braces, with commas.
pub open spec fn partition_text(q: Blocks) -> Text {
    seq!['{'] + joined(coalition_texts(q), comma()) + seq!['}']
}

/// The texts of the partitions of `t`.
pub open spec fn partition_texts(t: Tier) -> Seq<Text> {
    Seq::new(t.len(), |k: int| partition_text(t[k]))
}

/// The text of an indifference class: its partitions with `~` between
/// them.
pub open spec fn class_text(t: Tier) -> Text {
    joined(partition_texts(t), tilde())
}

/// The texts of the classes of `r`.
pub open spec fn class_texts(r: Tiers) -> Seq<Text> {
    Seq::new(r.len(), |k: int| class_text(r[k]))
}

/// The text of a ranking: its classes with `>` between them.
pub open spec fn ranking_text(r: Tiers) -> Text {
    joined(class_texts(r), arrow())
}

/// The items from index `k` on, joined, stand behind the first `k`
/// items, each with a separator before it but the first.
pub open spec fn joined_upto(items: Seq<Text>, sep: Text, k: nat) -> Text
    decreases k,
{
    if k == 0 || k > items.len() {
        Seq::empty()
    } else if k == 1 {
        items[0]
    } else {
        joined_upto(items, sep, (k - 1) as nat) + sep + items[k - 1]
    }
}

/// Joining from the front and joining from the back give the same text.
pub proof fn lemma_joined_upto(items: Seq<Text>, sep: Text)
    ensures
        joined_upto(items, sep, items.len()) == joined(items, sep),
    decreases items.len(),
{
    if items.len() >= 2 {
        let rest = items.skip(1);
        lemma_joined_upto(rest, sep);
        lemma_joined_upto_skip(items, sep, items.len());
    }
}

proof fn lemma_joined_upto_skip(items: Seq<Text>, sep: Text, k: nat)
    requires
        2 <= k <= items.len(),
    ensures
        joined_upto(items, sep, k) == items[0] + sep + joined_upto(items.skip(1), sep, (k - 1) as nat),
    decreases k,
{
    let rest = items.skip(1);
    if k == 2 {
        assert(joined_upto(items, sep, 1) == items[0]);
        assert(joined_upto(rest, sep, 1) == rest[0]);
        assert(rest[0] == items[1]);
    } else {
        lemma_joined_upto_skip(items, sep, (k - 1) as nat);
        assert(rest[k - 2] == items[k - 1]);
        assert(joined_upto(items, sep, k) =~= items[0] + sep + joined_upto(
            rest,
            sep,
            (k - 1) as nat,
        ));
    }
}

/// The items with `sep` between them.
pub fn join(items: &Vec<String>, sep: &str) -> (s: String)
    ensures
        s@ == joined(Seq::new(items@.len(), |k: int| items@[k]@), sep@),
{
    let ghost texts = Seq::new(items@.len(), |k: int| items@[k]@);
    let mut s = String::new();
    let mut k: usize = 0;
    while k < items.len()
        invariant
            k <= items.len(),
            texts == Seq::new(items@.len(), |k: int| items@[k]@),
            s@ == joined_upto(texts, sep@, k as nat),
        decreases items.len() - k,
    {
        if k > 0 {
            s.append(sep);
        }
        s.append(items[k].as_str());
        k += 1;
    }
    proof {
        lemma_joined_upto(texts, sep@);
    }
    s
}

/// The text in braces.
pub fn braced(inner: String) -> (s: String)
    ensures
        s@ == seq!['{'] + inner@ + seq!['}'],
{
    proof {
        reveal_strlit("{");
        reveal_strlit("}");
    }
    let s = String::from_str("{").concat(inner.as_str()).concat("}");
    assert(s@ =~= seq!['{'] + inner@ + seq!['}']);
    s
}

impl Coalition {
    /// The coalition as text: its members in braces.
    pub fn to_string(&self) -> (s: String)
        ensures
            s@ == coalition_text(self@),
    {
        let mut names: Vec<String> = Vec::new();
        let mut i: usize = 0;
        while i < self.members.len()
            invariant
                i <= self.members.len(),
                names@.len() == i,
                forall|k: int| 0 <= k < i ==> (#[trigger] names@[k])@ == self@[k],
            decreases self.members.len() - i,
        {
            names.push(self.members[i].to_string());
            i += 1;
        }
        proof {
            reveal_strlit(", ");
            assert(Seq::new(names@.len(), |k: int| names@[k]@) =~= self@);
            assert(", "@ =~= comma());
        }
        braced(join(&names, ", "))
    }
}

impl Partition {
    /// The partition as text: its coalitions in braces.
    pub fn to_string(&self) -> (s: String)
        ensures
            s@ == partition_text(self@),
    {
        let mut parts: Vec<String> = Vec::new();
        let mut i: usize = 0;
        while i < self.coalitions.len()
            invariant
                i <= self.coalitions.len(),
                parts@.len() == i,
                forall|k: int| 0 <= k < i ==> (#[trigger] parts@[k])@ == coalition_text(self@[k]),
            decreases self.coalitions.len() - i,
        {
            assert(self.coalitions@[i as int]@ == self@[i as int]);
            parts.push(self.coalitions[i].to_string());
            i += 1;
        }
        proof {
            reveal_strlit(", ");
            assert(Seq::new(parts@.len(), |k: int| parts@[k]@) =~= coalition_texts(self@));
            assert(", "@ =~= comma());
        }
        braced(join(&parts, ", "))
    }
}

/// The class as text: its partitions with `~` between them.
pub fn class_to_string(class: &Vec<Partition>) -> (s: String)
    ensures
        s@ == class_text(models(class@)),
{
    let mut parts: Vec<String> = Vec::new();
    let mut i: usize = 0;
    while i < class.len()
        invariant
            i <= class.len(),
            parts@.len() == i,
            forall|k: int|
                0 <= k < i ==> (#[trigger] parts@[k])@ == partition_text(models(class@)[k]),
        decreases class.len() - i,
    {
        assert(class@[i as int]@ == models(class@)[i as int]);
        parts.push(class[i].to_string());
        i += 1;
    }
    proof {
        reveal_strlit(" ~ ");
        assert(Seq::new(parts@.len(), |k: int| parts@[k]@) =~= partition_texts(models(class@)));
        assert(" ~ "@ =~= tilde());
    }
    join(&parts, " ~ ")
}

impl Ranking {
    /// The ranking as text: its classes with `>` between them, the best
    /// class first.
    pub fn to_string(&self) -> (s: String)
        ensures
            s@ == ranking_text(self@),
    {
        let mut parts: Vec<String> = Vec::new();
        let mut i: usize = 0;
        while i < self.ranking.len()
            invariant
                i <= self.ranking.len(),
                parts@.len() == i,
                forall|k: int| 0 <= k < i ==> (#[trigger] parts@[k])@ == class_text(self@[k]),
            decreases self.ranking.len() - i,
        {
            assert(models(self.ranking@[i as int]@) == self@[i as int]);
            parts.push(class_to_string(&self.ranking[i]));
            i += 1;
        }
        proof {
            reveal_strlit(" > ");
            assert(Seq::new(parts@.len(), |k: int| parts@[k]@) =~= class_texts(self@));
            assert(" > "@ =~= arrow());
        }
        join(&parts, " > ")
    }
}

} // verus!
