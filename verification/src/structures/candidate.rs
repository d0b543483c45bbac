//! Candidates: the atoms of an election, told apart by their names.
use vstd::prelude::*;
use vstd::string::*;
use crate::order::{
    common_prefix, decided_at, increasing, lemma_lex_asymmetric, lemma_lex_strict_total, lex,
    models, order_of, strict_total, Keyed, Order,
};
use crate::sorted::{insert, lemma_ordered, lemma_sorted_unique, ordered, sorted};
use crate::structures::Structure;

verus! {

/// A candidate's name as a sequence of characters.
pub type Name = Seq<char>;

/// A candidate.
#[derive(Clone, Debug, PartialEq, Eq, PartialOrd, Ord, Hash)]
pub struct Candidate {
    pub name: String,
}

/// The order of characters: by code point.
pub open spec fn char_less() -> spec_fn(char, char) -> bool {
    |a: char, b: char| (a as int) < (b as int)
}

/// The letters that names are generated from.
pub open spec fn alphabet() -> Seq<char> {
    "abcdefghijklmnopqrstuvwxyz"@
}

/// The name of the candidate with index `i`: `i` written to base 26 with
/// the letters `a` to `z` as digits.
pub open spec fn label(i: nat) -> Name
    decreases i,
{
    if i < 26 {
        seq![alphabet()[i as int]]
    } else {
        label(i / 26) + seq![alphabet()[(i % 26) as int]]
    }
}

/// A letter or a digit of ASCII.
pub open spec fn alphanumeric(c: char) -> bool {
    ||| 'a' <= c <= 'z'
    ||| 'A' <= c <= 'Z'
    ||| '0' <= c <= '9'
}

impl View for Candidate {
    type V = Name;

    open spec fn view(&self) -> Name {
        self.name@
    }
}

/// The order of characters is a strict total order.
pub proof fn lemma_char_order()
    ensures
        strict_total(char_less()),
{
    assert forall|a: char, b: char| #[trigger] (char_less())(a, b) || a == b || (char_less())(b, a) by {
        if (a as int) == (b as int) {
            assert(a == b);
        }
    }
}

impl Keyed for Candidate {
    type Model = Name;

    open spec fn model(&self) -> Name {
        self.name@
    }

    open spec fn less() -> spec_fn(Name, Name) -> bool {
        lex(char_less())
    }

    proof fn lemma_order() {
        lemma_char_order();
        lemma_lex_strict_total(char_less());
    }

    fn compare(&self, other: &Self) -> (o: Order) {
        let a = self.name.as_str();
        let b = other.name.as_str();
        let n = a.unicode_len();
        let k = b.unicode_len();
        proof {
            lemma_char_order();
            lemma_lex_strict_total(char_less());
        }
        let mut i: usize = 0;
        while i < n && i < k
            invariant
                n == a@.len(),
                k == b@.len(),
                a@ == self.name@,
                b@ == other.name@,
                common_prefix(a@, b@, i as int),
                strict_total(char_less()),
                strict_total(lex(char_less())),
            decreases n - i,
        {
            let x = a.get_char(i);
            let y = b.get_char(i);
            if x < y {
                proof {
                    assert((char_less())(x, y));
                    assert(decided_at(char_less(), a@, b@, i as int));
                    lemma_lex_asymmetric(char_less(), a@, b@);
                }
                return Order::Less;
            }
            if y < x {
                proof {
                    assert((char_less())(y, x));
                    assert(decided_at(char_less(), b@, a@, i as int));
                    lemma_lex_asymmetric(char_less(), b@, a@);
                }
                return Order::Greater;
            }
            i += 1;
        }
        if i == n {
            if i == k {
                proof {
                    assert(a@ =~= b@);
                    assert(!(lex(char_less()))(a@, a@));
                }
                Order::Equal
            } else {
                proof {
                    assert(decided_at(char_less(), a@, b@, i as int));
                    lemma_lex_asymmetric(char_less(), a@, b@);
                }
                Order::Less
            }
        } else {
            proof {
                assert(decided_at(char_less(), b@, a@, i as int));
                lemma_lex_asymmetric(char_less(), b@, a@);
            }
            Order::Greater
        }
    }

    fn copy(&self) -> (r: Self) {
        Candidate { name: self.name.clone() }
    }
}

impl Candidate {
    /// The candidate with index `i`.
    pub fn with_index(i: usize) -> (c: Candidate)
        ensures
            c@ == label(i as nat),
    {
        let letters = "abcdefghijklmnopqrstuvwxyz";
        proof {
            reveal_strlit("abcdefghijklmnopqrstuvwxyz");
        }
        let mut name = String::new();
        let mut k: usize = i;
        while k >= 26
            invariant
                letters@ == alphabet(),
                letters@.len() == 26,
                label(i as nat) == label(k as nat) + name@,
            decreases k,
        {
            let d = k % 26;
            let digit = String::from_str(letters.substring_char(d, d + 1));
            proof {
                assert(digit@ =~= seq![alphabet()[d as int]]);
                assert(label(k as nat) == label((k / 26) as nat) + seq![alphabet()[d as int]]);
                assert(label(i as nat) =~= label((k / 26) as nat) + (digit@ + name@));
            }
            name = digit.concat(name.as_str());
            k = k / 26;
        }
        let digit = String::from_str(letters.substring_char(k, k + 1));
        proof {
            assert(digit@ =~= seq![alphabet()[k as int]]);
            assert(label(i as nat) =~= digit@ + name@);
        }
        Candidate { name: digit.concat(name.as_str()) }
    }

    /// The name as text.
    pub fn to_string(&self) -> (s: String)
        ensures
            s@ == self@,
    {
        self.name.clone()
    }
}

/// The letters of the alphabet are different from each other.
proof fn lemma_letters_differ(i: int, j: int)
    requires
        0 <= i < 26,
        0 <= j < 26,
        alphabet()[i] == alphabet()[j],
    ensures
        i == j,
{
    reveal_strlit("abcdefghijklmnopqrstuvwxyz");
    assert forall|k: int| 0 <= k < 26 implies (#[trigger] alphabet()[k]) as int == 97 + k by {
        let t = alphabet();
        assert(t[0] == 'a' && t[1] == 'b' && t[2] == 'c' && t[3] == 'd' && t[4] == 'e');
        assert(t[5] == 'f' && t[6] == 'g' && t[7] == 'h' && t[8] == 'i' && t[9] == 'j');
        assert(t[10] == 'k' && t[11] == 'l' && t[12] == 'm' && t[13] == 'n' && t[14] == 'o');
        assert(t[15] == 'p' && t[16] == 'q' && t[17] == 'r' && t[18] == 's' && t[19] == 't');
        assert(t[20] == 'u' && t[21] == 'v' && t[22] == 'w' && t[23] == 'x' && t[24] == 'y');
        assert(t[25] == 'z');
    }
}

/// A name has a letter, and more than one from the index 26 on.
proof fn lemma_label_length(i: nat)
    ensures
        label(i).len() >= 1,
        i >= 26 ==> label(i).len() >= 2,
    decreases i,
{
    if i >= 26 {
        lemma_label_length(i / 26);
    }
}

/// Candidates with different indices have different names.
pub proof fn lemma_label_injective(i: nat, j: nat)
    requires
        label(i) == label(j),
    ensures
        i == j,
    decreases i,
{
    lemma_label_length(i);
    lemma_label_length(j);
    if i < 26 && j < 26 {
        assert(label(i)[0] == alphabet()[i as int]);
        assert(label(j)[0] == alphabet()[j as int]);
        lemma_letters_differ(i as int, j as int);
    } else if i >= 26 && j >= 26 {
        let a = label(i / 26);
        let b = label(j / 26);
        assert(label(i).drop_last() =~= a);
        assert(label(j).drop_last() =~= b);
        assert(label(i).last() == alphabet()[(i % 26) as int]);
        assert(label(j).last() == alphabet()[(j % 26) as int]);
        lemma_label_injective(i / 26, j / 26);
        lemma_letters_differ((i % 26) as int, (j % 26) as int);
    }
}

/// The candidates of an election with `m` candidates, in order.
pub open spec fn candidate_seq(m: usize) -> Seq<Name> {
    choose|s: Seq<Name>|
        increasing(Candidate::less(), s) && forall|x: Name|
            s.contains(x) <==> Candidate::universe(m).contains(x)
}

/// A generated name consists of small letters.
pub proof fn lemma_label_letters(i: nat)
    ensures
        label(i).len() >= 1,
        forall|k: int| 0 <= k < label(i).len() ==> 'a' <= #[trigger] label(i)[k] <= 'z',
    decreases i,
{
    reveal_strlit("abcdefghijklmnopqrstuvwxyz");
    let t = alphabet();
    assert forall|d: int| 0 <= d < 26 implies 'a' <= #[trigger] t[d] <= 'z' by {
        assert(t[0] == 'a' && t[1] == 'b' && t[2] == 'c' && t[3] == 'd' && t[4] == 'e');
        assert(t[5] == 'f' && t[6] == 'g' && t[7] == 'h' && t[8] == 'i' && t[9] == 'j');
        assert(t[10] == 'k' && t[11] == 'l' && t[12] == 'm' && t[13] == 'n' && t[14] == 'o');
        assert(t[15] == 'p' && t[16] == 'q' && t[17] == 'r' && t[18] == 's' && t[19] == 't');
        assert(t[20] == 'u' && t[21] == 'v' && t[22] == 'w' && t[23] == 'x' && t[24] == 'y');
        assert(t[25] == 'z');
    }
    if i >= 26 {
        lemma_label_letters(i / 26);
        let a = label(i / 26);
        let d = t[(i % 26) as int];
        assert forall|k: int| 0 <= k < label(i).len() implies 'a' <= #[trigger] label(i)[k]
            <= 'z' by {
            if k < a.len() {
                assert(label(i)[k] == a[k]);
            } else {
                assert(label(i)[k] == d);
            }
        }
    } else {
        assert(label(i)[0] == t[i as int]);
    }
}

/// The candidates of an election are in increasing order, they are the
/// candidates with the indices below `m`, and there are `m` of them.
pub proof fn lemma_candidate_seq(m: usize)
    ensures
        increasing(Candidate::less(), candidate_seq(m)),
        forall|x: Name| candidate_seq(m).contains(x) <==> Candidate::universe(m).contains(x),
        candidate_seq(m).len() == m,
{
    let less = Candidate::less();
    Candidate::lemma_order();
    let s = Seq::new(m as nat, |i: int| label(i as nat));
    let t = ordered(less, s);
    lemma_ordered(less, s);
    assert forall|x: Name| t.contains(x) <==> Candidate::universe(m).contains(x) by {
        if t.contains(x) {
            assert(s.contains(x));
            let i = choose|i: int| 0 <= i < s.len() && s[i] == x;
            assert((i as nat) < m && x == label(i as nat));
        }
        if Candidate::universe(m).contains(x) {
            let i = choose|i: nat| i < m && x == label(i);
            assert(s[i as int] == x);
            assert(s.contains(x));
        }
    }
    let c = candidate_seq(m);
    assert(increasing(less, c) && forall|x: Name|
        c.contains(x) <==> Candidate::universe(m).contains(x));
    lemma_sorted_unique(less, c, t);
    assert forall|i: int, j: int| 0 <= i < s.len() && 0 <= j < s.len() && i != j implies s[i]
        != s[j] by {
        if label(i as nat) == label(j as nat) {
            lemma_label_injective(i as nat, j as nat);
        }
    }
    assert forall|i: int, j: int| 0 <= i < t.len() && 0 <= j < t.len() && i != j implies t[i]
        != t[j] by {
        if i < j {
            assert(less(t[i], t[j]));
        } else {
            assert(less(t[j], t[i]));
        }
    }
    assert(s.to_set() =~= t.to_set()) by {
        assert forall|x: Name| s.to_set().contains(x) <==> t.to_set().contains(x) by {
            assert(t.contains(x) <==> s.contains(x));
        }
    }
    s.unique_seq_to_set();
    t.unique_seq_to_set();
}

impl Structure for Candidate {
    open spec fn listable(m: usize) -> bool {
        true
    }

    open spec fn universe(m: usize) -> Set<Name> {
        Set::new(|n: Name| exists|i: nat| i < m && n == label(i))
    }

    open spec fn legal(&self, m: usize) -> bool {
        forall|i: int| 0 <= i < self@.len() ==> alphanumeric(self@[i])
    }

    fn all(m: usize) -> (r: Vec<Self>)
        ensures
            models(r@) == candidate_seq(m),
            r@.len() == m,
    {
        let mut r: Vec<Candidate> = Vec::new();
        let mut i: usize = 0;
        while i < m
            invariant
                i <= m,
                sorted(r@),
                r@.len() == i,
                forall|x: Name| models(r@).contains(x) <==> exists|j: nat| j < i && x == label(j),
            decreases m - i,
        {
            let ghost prev = models(r@);
            let c = Candidate::with_index(i);
            proof {
                if prev.contains(label(i as nat)) {
                    let j = choose|j: nat| j < i && label(i as nat) == label(j);
                    lemma_label_injective(i as nat, j);
                }
            }
            insert(&mut r, c);
            proof {
                assert forall|x: Name| models(r@).contains(x) <==> exists|j: nat|
                    j < i + 1 && x == label(j) by {
                    if models(r@).contains(x) {
                        if prev.contains(x) {
                            let j = choose|j: nat| j < i && x == label(j);
                            assert(j < i + 1 && x == label(j));
                        } else {
                            assert(x == label(i as nat));
                        }
                    }
                    if exists|j: nat| j < i + 1 && x == label(j) {
                        let j = choose|j: nat| j < i + 1 && x == label(j);
                        if j < i {
                            assert(prev.contains(x));
                        }
                    }
                }
            }
            i += 1;
        }
        proof {
            let s = models(r@);
            let c = candidate_seq(m);
            assert(increasing(Candidate::less(), s) && forall|x: Name|
                s.contains(x) <==> Candidate::universe(m).contains(x));
            Candidate::lemma_order();
            lemma_sorted_unique(Candidate::less(), s, c);
        }
        r
    }

    fn is_legal(&self, m: usize) -> (b: bool) {
        let s = self.name.as_str();
        let n = s.unicode_len();
        let mut i: usize = 0;
        while i < n
            invariant
                n == s@.len(),
                s@ == self@,
                i <= n,
                forall|j: int| 0 <= j < i ==> alphanumeric(self@[j]),
            decreases n - i,
        {
            let c = s.get_char(i);
            let ok = ('a' <= c && c <= 'z') || ('A' <= c && c <= 'Z') || ('0' <= c && c <= '9');
            if !ok {
                return false;
            }
            i += 1;
        }
        true
    }
}

} // verus!
