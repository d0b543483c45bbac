//! From text to structures: the inverse of the text form.
use vstd::prelude::*;
use vstd::string::*;
use crate::order::{increasing, models, Keyed};
use crate::sorted::{from_items, lemma_sorted_unique, sorted};
use crate::structures::candidate::{
    alphanumeric, candidate_seq, label, lemma_candidate_seq, lemma_label_letters, Candidate, Name,
};
use crate::utils::lemma_bell_positive;
use crate::structures::coalition::{Coalition, Group};
use crate::structures::partition::{Blocks, Partition};
use crate::structures::ranking::{is_ranking, lemma_ranking_size, Ranking, Tier, Tiers};
use crate::structures::Structure;
use crate::utils::structures::lemma_partition_sorted;
use crate::structures::utils::to_string::{
    arrow, class_text, class_texts, coalition_text, coalition_texts, comma, joined,
    partition_text, partition_texts, ranking_text, tilde, Text,
};

verus! {

/// The characters that a name can hold: all but those that the text form
/// uses for its own ends.
pub open spec fn is_name_char(c: char) -> bool {
    c != '{' && c != '}' && c != ',' && c != ' ' && c != '~' && c != '>'
}

/// A name that can be read back: it holds name characters only. The
/// name without characters is one.
pub open spec fn name_ok(n: Name) -> bool {
    forall|i: int| 0 <= i < n.len() ==> is_name_char(#[trigger] n[i])
}

/// All names of `g` can be read back.
pub open spec fn names_ok(g: Group) -> bool {
    forall|k: int| 0 <= k < g.len() ==> name_ok(#[trigger] g[k])
}

/// A coalition that can be read back: a set of names that can, with
/// at least one name. The text `{}` stands for the coalition of the
/// candidate whose name has no characters, so that no text is left for
/// a coalition without members.
pub open spec fn group_ok(g: Group) -> bool {
    g.len() >= 1 && increasing(Candidate::less(), g) && names_ok(g)
}

/// All coalitions of `q` can be read back.
pub open spec fn groups_ok(q: Blocks) -> bool {
    forall|k: int| 0 <= k < q.len() ==> group_ok(#[trigger] q[k])
}

/// A partition that can be read back: a set of coalitions that can.
pub open spec fn blocks_ok(q: Blocks) -> bool {
    increasing(Coalition::less(), q) && groups_ok(q)
}

/// All partitions of `t` can be read back.
pub open spec fn all_blocks_ok(t: Tier) -> bool {
    forall|k: int| 0 <= k < t.len() ==> blocks_ok(#[trigger] t[k])
}

/// An indifference class that can be read back.
pub open spec fn tier_ok(t: Tier) -> bool {
    increasing(Partition::less(), t) && all_blocks_ok(t)
}

/// A ranking that can be read back: all its classes can.
pub open spec fn tiers_ok(r: Tiers) -> bool {
    forall|k: int| 0 <= k < r.len() ==> tier_ok(#[trigger] r[k])
}

/// The text `p` stands in `s` at index `i`.
pub open spec fn starts_with(s: Text, i: int, p: Text) -> bool {
    0 <= i && i + p.len() <= s.len() && s.subrange(i, i + p.len()) == p
}

/// Where a text of two parts stands, both parts stand, one behind the
/// other.
pub proof fn lemma_starts_split(s: Text, i: int, a: Text, b: Text)
    requires
        starts_with(s, i, a + b),
    ensures
        starts_with(s, i, a),
        starts_with(s, i + a.len(), b),
{
    let p = a + b;
    let sub = s.subrange(i, i + p.len());
    assert(s.subrange(i, i + a.len()) =~= a) by {
        assert forall|k: int| 0 <= k < a.len() implies s.subrange(i, i + a.len())[k] == a[k] by {
            assert(sub[k] == p[k]);
        }
    }
    assert(s.subrange(i + a.len(), i + a.len() + b.len()) =~= b) by {
        assert forall|k: int| 0 <= k < b.len() implies s.subrange(
            i + a.len(),
            i + a.len() + b.len(),
        )[k] == b[k] by {
            assert(sub[a.len() + k] == p[a.len() + k]);
        }
    }
}

/// The character with index `k` of a text that stands at `i`.
pub proof fn lemma_starts_char(s: Text, i: int, p: Text, k: int)
    requires
        starts_with(s, i, p),
        0 <= k < p.len(),
    ensures
        s[i + k] == p[k],
{
    assert(s.subrange(i, i + p.len())[k] == p[k]);
}

/// The characters of a text.
pub fn chars_of(s: &str) -> (v: Vec<char>)
    ensures
        v@ == s@,
{
    let n = s.unicode_len();
    let mut v: Vec<char> = Vec::new();
    let mut i: usize = 0;
    while i < n
        invariant
            n == s@.len(),
            i <= n,
            v@ == s@.take(i as int),
        decreases n - i,
    {
        v.push(s.get_char(i));
        assert(v@ =~= s@.take(i + 1));
        i += 1;
    }
    assert(s@.take(n as int) =~= s@);
    v
}

fn is_name(c: char) -> (b: bool)
    ensures
        b == is_name_char(c),
{
    c != '{' && c != '}' && c != ',' && c != ' ' && c != '~' && c != '>'
}

/// The end of the name that starts at `i`: the first index from `i` on
/// at which no name character stands.
fn name_end(cs: &Vec<char>, i: usize) -> (j: usize)
    requires
        i <= cs@.len(),
    ensures
        i <= j <= cs@.len(),
        forall|k: int| i <= k < j ==> is_name_char(#[trigger] cs@[k]),
        j == cs@.len() || !is_name_char(cs@[j as int]),
{
    let mut j: usize = i;
    while j < cs.len() && is_name(cs[j])
        invariant
            i <= j <= cs@.len(),
            forall|k: int| i <= k < j ==> is_name_char(#[trigger] cs@[k]),
        decreases cs.len() - j,
    {
        j += 1;
    }
    j
}

/// Whether the three characters `a`, `b`, `c` stand at `i`.
fn at3(cs: &Vec<char>, i: usize, a: char, b: char, c: char) -> (r: bool)
    requires
        i <= cs@.len(),
    ensures
        r == starts_with(cs@, i as int, seq![a, b, c]),
{
    if cs.len() - i < 3 {
        return false;
    }
    let r = cs[i] == a && cs[i + 1] == b && cs[i + 2] == c;
    proof {
        let sub = cs@.subrange(i as int, i + 3);
        if r {
            assert(sub =~= seq![a, b, c]);
        } else {
            if sub == seq![a, b, c] {
                assert(sub[0] == a && sub[1] == b && sub[2] == c);
            }
        }
    }
    r
}

/// Whether `,` and a blank stand at `i`.
fn at_comma(cs: &Vec<char>, i: usize) -> (r: bool)
    requires
        i <= cs@.len(),
    ensures
        r == starts_with(cs@, i as int, comma()),
{
    if cs.len() - i < 2 {
        return false;
    }
    let r = cs[i] == ',' && cs[i + 1] == ' ';
    proof {
        let sub = cs@.subrange(i as int, i + 2);
        if r {
            assert(sub =~= comma());
        } else {
            if sub == comma() {
                assert(sub[0] == ',' && sub[1] == ' ');
            }
        }
    }
    r
}

/// The text of a name that can be read back, standing at `i` before a
/// character that no name holds, ends where `name_end` says.
proof fn lemma_name_end(cs: Text, i: int, n: Name, j: int)
    requires
        name_ok(n),
        starts_with(cs, i, n),
        i + n.len() < cs.len(),
        !is_name_char(cs[i + n.len()]),
        i <= j <= cs.len(),
        forall|k: int| i <= k < j ==> is_name_char(#[trigger] cs[k]),
        j == cs.len() || !is_name_char(cs[j]),
    ensures
        j == i + n.len(),
{
    if j < i + n.len() {
        lemma_starts_char(cs, i, n, j - i);
        assert(is_name_char(n[j - i]));
    }
    if j > i + n.len() {
        assert(is_name_char(cs[i + n.len()]));
    }
}

/// The names of a coalition from `i` on, up to the closing brace.
fn parse_name_list(s: &str, cs: &Vec<char>, i: usize) -> (r: Option<(Vec<Candidate>, usize)>)
    requires
        cs@ == s@,
        i <= cs@.len(),
    ensures
        r matches Some((v, _)) ==> v@.len() >= 1 && names_ok(models(v@)),
        r matches Some((_, j)) ==> i < j <= cs@.len(),
        forall|g: Group|
            #![trigger joined(g, comma())]
            g.len() >= 1 && names_ok(g) && starts_with(
                cs@,
                i as int,
                joined(g, comma()) + seq!['}'],
            ) ==> (r matches Some((v, j)) && models(v@) == g && j == i + joined(g, comma()).len()
                + 1),
    decreases cs@.len() - i,
{
    let j = name_end(cs, i);
    if j >= cs.len() {
        proof {
            assert forall|g: Group|
                #![trigger joined(g, comma())]
                g.len() >= 1 && names_ok(g) && starts_with(
                    cs@,
                    i as int,
                    joined(g, comma()) + seq!['}'],
                ) implies false by {
                lemma_first_name(cs@, i as int, g, j as int);
            }
        }
        return None;
    }
    let name = Candidate { name: String::from_str(s.substring_char(i, j)) };
    let ghost first = name@;
    proof {
        assert(first =~= cs@.subrange(i as int, j as int));
        assert forall|k: int| 0 <= k < first.len() implies is_name_char(#[trigger] first[k]) by {
            assert(first[k] == cs@[i + k]);
        }
        assert(name_ok(first));
    }
    if cs[j] == '}' {
        let mut v: Vec<Candidate> = Vec::new();
        v.push(name);
        proof {
            assert forall|g: Group|
                #![trigger joined(g, comma())]
                g.len() >= 1 && names_ok(g) && starts_with(
                    cs@,
                    i as int,
                    joined(g, comma()) + seq!['}'],
                ) implies models(v@) == g && j + 1 == i + joined(g, comma()).len() + 1 by {
                lemma_first_name(cs@, i as int, g, j as int);
                if g.len() > 1 {
                    let t = g[0] + comma() + joined(g.skip(1), comma());
                    lemma_starts_split(cs@, i as int, t, seq!['}']);
                    lemma_starts_split(cs@, i as int, g[0], comma() + joined(g.skip(1), comma()));
                    assert(t =~= g[0] + (comma() + joined(g.skip(1), comma())));
                    lemma_starts_split(
                        cs@,
                        i + g[0].len(),
                        comma(),
                        joined(g.skip(1), comma()),
                    );
                    lemma_starts_char(cs@, i + g[0].len(), comma(), 0);
                }
                assert(models(v@) =~= g);
            }
        }
        proof {
            assert forall|k: int| 0 <= k < models(v@).len() implies name_ok(
                #[trigger] models(v@)[k],
            ) by {
                assert(models(v@)[k] == first);
            }
        }
        return Some((v, j + 1));
    }
    if !at_comma(cs, j) {
        proof {
            assert forall|g: Group|
                #![trigger joined(g, comma())]
                g.len() >= 1 && names_ok(g) && starts_with(
                    cs@,
                    i as int,
                    joined(g, comma()) + seq!['}'],
                ) implies false by {
                lemma_first_name(cs@, i as int, g, j as int);
                if g.len() > 1 {
                    let t = g[0] + comma() + joined(g.skip(1), comma());
                    assert(t =~= g[0] + (comma() + joined(g.skip(1), comma())));
                    lemma_starts_split(cs@, i as int, t, seq!['}']);
                    lemma_starts_split(cs@, i as int, g[0], comma() + joined(g.skip(1), comma()));
                    lemma_starts_split(
                        cs@,
                        i + g[0].len(),
                        comma(),
                        joined(g.skip(1), comma()),
                    );
                } else {
                    lemma_starts_split(cs@, i as int, g[0], seq!['}']);
                    lemma_starts_char(cs@, i + g[0].len(), seq!['}'], 0);
                }
            }
        }
        return None;
    }
    match parse_name_list(s, cs, j + 2) {
        None => {
            proof {
                assert forall|g: Group|
                    #![trigger joined(g, comma())]
                    g.len() >= 1 && names_ok(g) && starts_with(
                        cs@,
                        i as int,
                        joined(g, comma()) + seq!['}'],
                    ) implies false by {
                    lemma_rest_names(cs@, i as int, g, j as int);
                    assert(names_ok(g.skip(1))) by {
                        assert forall|k: int| 0 <= k < g.skip(1).len() implies name_ok(
                            #[trigger] g.skip(1)[k],
                        ) by {
                            assert(g.skip(1)[k] == g[k + 1]);
                        }
                    }
                    let h = joined(g.skip(1), comma());
                }
            }
            None
        },
        Some((rest, end)) => {
            let mut v = rest;
            let ghost rm = models(v@);
            v.insert(0, name);
            proof {
                assert forall|g: Group|
                    #![trigger joined(g, comma())]
                    g.len() >= 1 && names_ok(g) && starts_with(
                        cs@,
                        i as int,
                        joined(g, comma()) + seq!['}'],
                    ) implies models(v@) == g && end == i + joined(g, comma()).len() + 1 by {
                    lemma_rest_names(cs@, i as int, g, j as int);
                    assert(names_ok(g.skip(1))) by {
                        assert forall|k: int| 0 <= k < g.skip(1).len() implies name_ok(
                            #[trigger] g.skip(1)[k],
                        ) by {
                            assert(g.skip(1)[k] == g[k + 1]);
                        }
                    }
                    let h = joined(g.skip(1), comma());
                    assert(rm == g.skip(1));
                    assert(models(v@) =~= seq![g[0]] + g.skip(1));
                    assert(seq![g[0]] + g.skip(1) =~= g);
                    assert(joined(g, comma()) == g[0] + comma() + h);
                }
            }
            proof {
                assert forall|k: int| 0 <= k < models(v@).len() implies name_ok(
                    #[trigger] models(v@)[k],
                ) by {
                    if k == 0 {
                        assert(models(v@)[0] == first);
                    } else {
                        assert(models(v@)[k] == rm[k - 1]);
                    }
                }
            }
            Some((v, end))
        },
    }
}

/// What the first name of a list that stands at `i` tells: it ends at
/// `j`, where `j` is the end that `name_end` finds, and it is the text
/// between the two.
proof fn lemma_first_name(cs: Text, i: int, g: Group, j: int)
    requires
        g.len() >= 1,
        names_ok(g),
        starts_with(cs, i, joined(g, comma()) + seq!['}']),
        i <= j <= cs.len(),
        forall|k: int| i <= k < j ==> is_name_char(#[trigger] cs[k]),
        j == cs.len() || !is_name_char(cs[j]),
    ensures
        j == i + g[0].len(),
        j < cs.len(),
        cs.subrange(i, j) == g[0],
        g.len() == 1 ==> cs[j] == '}',
        g.len() > 1 ==> cs[j] == ',',
{
    assert(name_ok(g[0]));
    if g.len() == 1 {
        assert(joined(g, comma()) == g[0]);
        lemma_starts_split(cs, i, g[0], seq!['}']);
        lemma_starts_char(cs, i + g[0].len(), seq!['}'], 0);
        lemma_name_end(cs, i, g[0], j);
    } else {
        let rest = comma() + joined(g.skip(1), comma());
        let t = g[0] + comma() + joined(g.skip(1), comma());
        assert(joined(g, comma()) == t);
        assert(t =~= g[0] + rest);
        lemma_starts_split(cs, i, t, seq!['}']);
        lemma_starts_split(cs, i, g[0], rest);
        lemma_starts_split(cs, i + g[0].len(), comma(), joined(g.skip(1), comma()));
        lemma_starts_char(cs, i + g[0].len(), comma(), 0);
        lemma_name_end(cs, i, g[0], j);
    }
}

/// Behind the first name of a list with more names and the separator
/// stand the other names and the closing brace.
proof fn lemma_rest_names(cs: Text, i: int, g: Group, j: int)
    requires
        g.len() >= 1,
        names_ok(g),
        starts_with(cs, i, joined(g, comma()) + seq!['}']),
        i <= j < cs.len(),
        forall|k: int| i <= k < j ==> is_name_char(#[trigger] cs[k]),
        !is_name_char(cs[j]),
        cs[j] != '}',
    ensures
        g.len() > 1,
        j == i + g[0].len(),
        cs.subrange(i, j) == g[0],
        starts_with(cs, j + 2, joined(g.skip(1), comma()) + seq!['}']),
        joined(g, comma()) == g[0] + comma() + joined(g.skip(1), comma()),
{
    lemma_first_name(cs, i, g, j);
    let h = joined(g.skip(1), comma());
    let t = g[0] + comma() + h;
    assert(joined(g, comma()) == t);
    assert(t + seq!['}'] =~= g[0] + (comma() + (h + seq!['}'])));
    lemma_starts_split(cs, i, g[0], comma() + (h + seq!['}']));
    lemma_starts_split(cs, i + g[0].len(), comma(), h + seq!['}']);
}

/// Where a list of items stands, its first item stands, and behind it
/// what follows: the end of the list, or the separator and the other
/// items.
pub proof fn lemma_list_head(cs: Text, i: int, items: Seq<Text>, sep: Text, tail: Text)
    requires
        items.len() >= 1,
        starts_with(cs, i, joined(items, sep) + tail),
    ensures
        starts_with(cs, i, items[0]),
        items.len() == 1 ==> starts_with(cs, i + items[0].len(), tail) && joined(items, sep).len()
            == items[0].len(),
        items.len() > 1 ==> starts_with(cs, i + items[0].len(), sep) && starts_with(
            cs,
            i + items[0].len() + sep.len(),
            joined(items.skip(1), sep) + tail,
        ) && joined(items, sep).len() == items[0].len() + sep.len() + joined(
            items.skip(1),
            sep,
        ).len(),
{
    if items.len() == 1 {
        assert(joined(items, sep) == items[0]);
        lemma_starts_split(cs, i, items[0], tail);
    } else {
        let h = joined(items.skip(1), sep);
        assert(joined(items, sep) == items[0] + sep + h);
        assert(items[0] + sep + h + tail =~= items[0] + (sep + (h + tail)));
        lemma_starts_split(cs, i, items[0], sep + (h + tail));
        lemma_starts_split(cs, i + items[0].len(), sep, h + tail);
    }
}

/// A coalition from `i` on.
fn parse_coalition(s: &str, cs: &Vec<char>, i: usize) -> (r: Option<(Coalition, usize)>)
    requires
        cs@ == s@,
        i <= cs@.len(),
    ensures
        r matches Some((c, _)) ==> group_ok(c.model()),
        r matches Some((_, j)) ==> i < j <= cs@.len(),
        forall|g: Group|
            #![trigger coalition_text(g)]
            group_ok(g) && starts_with(cs@, i as int, coalition_text(g)) ==> (r matches Some(
                (c, j),
            ) && c.model() == g && j == i + coalition_text(g).len()),
{
    if cs.len() - i < 2 || cs[i] != '{' {
        proof {
            assert forall|g: Group|
                #![trigger coalition_text(g)]
                group_ok(g) && starts_with(cs@, i as int, coalition_text(g)) implies false by {
                lemma_starts_char(cs@, i as int, coalition_text(g), 0);
            }
        }
        return None;
    }
    match parse_name_list(s, cs, i + 1) {
        None => {
            proof {
                assert forall|g: Group|
                    #![trigger coalition_text(g)]
                    group_ok(g) && starts_with(cs@, i as int, coalition_text(g)) implies false by {
                    let t = joined(g, comma()) + seq!['}'];
                    assert(coalition_text(g) =~= seq!['{'] + t);
                    lemma_starts_split(cs@, i as int, seq!['{'], t);
                    if g.len() == 0 {
                        lemma_starts_char(cs@, i + 1, t, 0);
                    }
                }
            }
            None
        },
        Some((v, j)) => {
            let ghost vm = models(v@);
            let c = Coalition::from_members(v);
            proof {
                assert forall|g: Group|
                    #![trigger coalition_text(g)]
                    group_ok(g) && starts_with(cs@, i as int, coalition_text(g)) implies c.model()
                    == g && j == i + coalition_text(g).len() by {
                    let t = joined(g, comma()) + seq!['}'];
                    assert(coalition_text(g) =~= seq!['{'] + t);
                    lemma_starts_split(cs@, i as int, seq!['{'], t);
                    if g.len() == 0 {
                        lemma_starts_char(cs@, i + 1, t, 0);
                    }
                    assert(vm == g);
                    Candidate::lemma_order();
                    assert(c@ == c.model());
                    lemma_sorted_unique(Candidate::less(), c.model(), g);
                }
            }
            proof {
                let g = c.model();
                assert(c@ == g);
                assert forall|k: int| 0 <= k < g.len() implies name_ok(#[trigger] g[k]) by {
                    assert(c@.contains(g[k]));
                    assert(vm.contains(g[k]));
                    let t = choose|t: int| 0 <= t < vm.len() && vm[t] == g[k];
                    assert(name_ok(vm[t]));
                }
                assert(vm.contains(vm[0]));
                assert(c@.contains(vm[0]));
                assert(group_ok(g));
            }
            Some((c, j))
        },
    }
}

/// The coalitions of a partition from `i` on, up to the closing brace.
fn parse_coalition_list(s: &str, cs: &Vec<char>, i: usize) -> (r: Option<(Vec<Coalition>, usize)>)
    requires
        cs@ == s@,
        i <= cs@.len(),
    ensures
        r matches Some((v, _)) ==> groups_ok(models(v@)),
        r matches Some((_, j)) ==> i < j <= cs@.len(),
        forall|q: Blocks|
            #![trigger coalition_texts(q)]
            q.len() >= 1 && groups_ok(q) && starts_with(
                cs@,
                i as int,
                joined(coalition_texts(q), comma()) + seq!['}'],
            ) ==> (r matches Some((v, j)) && models(v@) == q && j == i + joined(
                coalition_texts(q),
                comma(),
            ).len() + 1),
    decreases cs@.len() - i,
{
    let (c, j) = match parse_coalition(s, cs, i) {
        None => {
            proof {
                assert forall|q: Blocks|
                    #![trigger coalition_texts(q)]
                    q.len() >= 1 && groups_ok(q) && starts_with(
                        cs@,
                        i as int,
                        joined(coalition_texts(q), comma()) + seq!['}'],
                    ) implies false by {
                    lemma_list_head(cs@, i as int, coalition_texts(q), comma(), seq!['}']);
                    assert(coalition_texts(q)[0] == coalition_text(q[0]));
                    assert(group_ok(q[0]));
                }
            }
            return None;
        },
        Some(x) => x,
    };
    if j < cs.len() && cs[j] == '}' {
        let mut v: Vec<Coalition> = Vec::new();
        let ghost first = c.model();
        v.push(c);
        proof {
            assert forall|q: Blocks|
                #![trigger coalition_texts(q)]
                q.len() >= 1 && groups_ok(q) && starts_with(
                    cs@,
                    i as int,
                    joined(coalition_texts(q), comma()) + seq!['}'],
                ) implies models(v@) == q && j + 1 == i + joined(coalition_texts(q), comma()).len()
                + 1 by {
                lemma_list_head(cs@, i as int, coalition_texts(q), comma(), seq!['}']);
                assert(coalition_texts(q)[0] == coalition_text(q[0]));
                assert(group_ok(q[0]));
                if q.len() > 1 {
                    lemma_starts_char(cs@, j as int, comma(), 0);
                }
                assert(models(v@) =~= q);
            }
        }
        proof {
            assert forall|k: int| 0 <= k < models(v@).len() implies group_ok(
                #[trigger] models(v@)[k],
            ) by {
                assert(models(v@)[k] == first);
            }
        }
        return Some((v, j + 1));
    }
    if !at_comma(cs, j) {
        proof {
            assert forall|q: Blocks|
                #![trigger coalition_texts(q)]
                q.len() >= 1 && groups_ok(q) && starts_with(
                    cs@,
                    i as int,
                    joined(coalition_texts(q), comma()) + seq!['}'],
                ) implies false by {
                lemma_list_head(cs@, i as int, coalition_texts(q), comma(), seq!['}']);
                assert(coalition_texts(q)[0] == coalition_text(q[0]));
                assert(group_ok(q[0]));
                if q.len() == 1 {
                    lemma_starts_char(cs@, j as int, seq!['}'], 0);
                }
            }
        }
        return None;
    }
    match parse_coalition_list(s, cs, j + 2) {
        None => {
            proof {
                assert forall|q: Blocks|
                    #![trigger coalition_texts(q)]
                    q.len() >= 1 && groups_ok(q) && starts_with(
                        cs@,
                        i as int,
                        joined(coalition_texts(q), comma()) + seq!['}'],
                    ) implies false by {
                    lemma_list_head(cs@, i as int, coalition_texts(q), comma(), seq!['}']);
                    assert(coalition_texts(q)[0] == coalition_text(q[0]));
                    assert(group_ok(q[0]));
                    if q.len() == 1 {
                        lemma_starts_char(cs@, j as int, seq!['}'], 0);
                    }
                    assert(coalition_texts(q).skip(1) =~= coalition_texts(q.skip(1)));
                    assert(groups_ok(q.skip(1))) by {
                        assert forall|k: int| 0 <= k < q.skip(1).len() implies group_ok(
                            #[trigger] q.skip(1)[k],
                        ) by {
                            assert(q.skip(1)[k] == q[k + 1]);
                        }
                    }
                }
            }
            None
        },
        Some((rest, end)) => {
            let mut v = rest;
            let ghost rm = models(v@);
            let ghost cm = c.model();
            v.insert(0, c);
            proof {
                assert forall|q: Blocks|
                    #![trigger coalition_texts(q)]
                    q.len() >= 1 && groups_ok(q) && starts_with(
                        cs@,
                        i as int,
                        joined(coalition_texts(q), comma()) + seq!['}'],
                    ) implies models(v@) == q && end == i + joined(
                    coalition_texts(q),
                    comma(),
                ).len() + 1 by {
                    lemma_list_head(cs@, i as int, coalition_texts(q), comma(), seq!['}']);
                    assert(coalition_texts(q)[0] == coalition_text(q[0]));
                    assert(group_ok(q[0]));
                    if q.len() == 1 {
                        lemma_starts_char(cs@, j as int, seq!['}'], 0);
                    }
                    assert(coalition_texts(q).skip(1) =~= coalition_texts(q.skip(1)));
                    assert(groups_ok(q.skip(1))) by {
                        assert forall|k: int| 0 <= k < q.skip(1).len() implies group_ok(
                            #[trigger] q.skip(1)[k],
                        ) by {
                            assert(q.skip(1)[k] == q[k + 1]);
                        }
                    }
                    assert(rm == q.skip(1));
                    assert(cm == q[0]);
                    assert(models(v@) =~= seq![q[0]] + q.skip(1));
                    assert(seq![q[0]] + q.skip(1) =~= q);
                }
            }
            proof {
                assert forall|k: int| 0 <= k < models(v@).len() implies group_ok(
                    #[trigger] models(v@)[k],
                ) by {
                    if k == 0 {
                        assert(models(v@)[0] == cm);
                    } else {
                        assert(models(v@)[k] == rm[k - 1]);
                    }
                }
            }
            Some((v, end))
        },
    }
}

/// A partition from `i` on.
fn parse_partition(s: &str, cs: &Vec<char>, i: usize) -> (r: Option<(Partition, usize)>)
    requires
        cs@ == s@,
        i <= cs@.len(),
    ensures
        r matches Some((p, _)) ==> blocks_ok(p.model()),
        r matches Some((_, j)) ==> i < j <= cs@.len(),
        forall|q: Blocks|
            #![trigger partition_text(q)]
            blocks_ok(q) && starts_with(cs@, i as int, partition_text(q)) ==> (r matches Some(
                (p, j),
            ) && p.model() == q && j == i + partition_text(q).len()),
{
    if cs.len() - i < 2 || cs[i] != '{' {
        proof {
            assert forall|q: Blocks|
                #![trigger partition_text(q)]
                blocks_ok(q) && starts_with(cs@, i as int, partition_text(q)) implies false by {
                lemma_starts_char(cs@, i as int, partition_text(q), 0);
            }
        }
        return None;
    }
    if cs[i + 1] == '}' {
        let p = Partition { coalitions: Vec::new() };
        proof {
            assert forall|q: Blocks|
                #![trigger partition_text(q)]
                blocks_ok(q) && starts_with(cs@, i as int, partition_text(q)) implies p.model() == q
                && i + 2 == i + partition_text(q).len() by {
                lemma_starts_char(cs@, i as int, partition_text(q), 1);
                if q.len() >= 1 {
                    let t = joined(coalition_texts(q), comma()) + seq!['}'];
                    assert(partition_text(q) =~= seq!['{'] + t);
                    lemma_starts_split(cs@, i as int, seq!['{'], t);
                    lemma_list_head(cs@, i + 1, coalition_texts(q), comma(), seq!['}']);
                    assert(coalition_texts(q)[0] == coalition_text(q[0]));
                    lemma_starts_char(cs@, i + 1, coalition_text(q[0]), 0);
                }
                assert(q =~= Seq::<Group>::empty());
                assert(p.model() =~= q);
                assert(coalition_texts(q) =~= Seq::<Text>::empty());
                assert(joined(coalition_texts(q), comma()).len() == 0);
            }
        }
        proof {
            assert(p.model() =~= Seq::<Group>::empty());
            assert(blocks_ok(p.model()));
        }
        return Some((p, i + 2));
    }
    match parse_coalition_list(s, cs, i + 1) {
        None => {
            proof {
                assert forall|q: Blocks|
                    #![trigger partition_text(q)]
                    blocks_ok(q) && starts_with(cs@, i as int, partition_text(q)) implies false by {
                    let t = joined(coalition_texts(q), comma()) + seq!['}'];
                    assert(partition_text(q) =~= seq!['{'] + t);
                    lemma_starts_split(cs@, i as int, seq!['{'], t);
                    if q.len() == 0 {
                        assert(coalition_texts(q) =~= Seq::<Text>::empty());
                        lemma_starts_char(cs@, i + 1, t, 0);
                    }
                }
            }
            None
        },
        Some((v, j)) => {
            let ghost vm = models(v@);
            let p = Partition::from_coalitions(v);
            proof {
                assert forall|q: Blocks|
                    #![trigger partition_text(q)]
                    blocks_ok(q) && starts_with(cs@, i as int, partition_text(q)) implies p.model()
                    == q && j == i + partition_text(q).len() by {
                    let t = joined(coalition_texts(q), comma()) + seq!['}'];
                    assert(partition_text(q) =~= seq!['{'] + t);
                    lemma_starts_split(cs@, i as int, seq!['{'], t);
                    if q.len() == 0 {
                        assert(coalition_texts(q) =~= Seq::<Text>::empty());
                        lemma_starts_char(cs@, i + 1, t, 0);
                    }
                    assert(vm == q);
                    Coalition::lemma_order();
                    assert(p@ == p.model());
                    lemma_sorted_unique(Coalition::less(), p.model(), q);
                }
            }
            proof {
                let q = p.model();
                assert(p@ == q);
                assert forall|k: int| 0 <= k < q.len() implies group_ok(#[trigger] q[k]) by {
                    assert(p@.contains(q[k]));
                    assert(vm.contains(q[k]));
                    let t = choose|t: int| 0 <= t < vm.len() && vm[t] == q[k];
                    assert(group_ok(vm[t]));
                }
                assert(blocks_ok(q));
            }
            Some((p, j))
        },
    }
}

/// The separator of partitions does not stand where the separator of
/// classes stands.
proof fn lemma_arrow_is_no_tilde(cs: Text, j: int)
    requires
        starts_with(cs, j, arrow()),
    ensures
        !starts_with(cs, j, tilde()),
{
    lemma_starts_char(cs, j, arrow(), 1);
    if starts_with(cs, j, tilde()) {
        lemma_starts_char(cs, j, tilde(), 1);
    }
}

/// The partitions of an indifference class from `i` on.
fn parse_partition_list(s: &str, cs: &Vec<char>, i: usize) -> (r: Option<(Vec<Partition>, usize)>)
    requires
        cs@ == s@,
        i <= cs@.len(),
    ensures
        r matches Some((v, _)) ==> all_blocks_ok(models(v@)),
        r matches Some((_, j)) ==> i < j <= cs@.len(),
        forall|t: Tier|
            #![trigger partition_texts(t)]
            t.len() >= 1 && all_blocks_ok(t) && starts_with(cs@, i as int, class_text(t))
                && !starts_with(cs@, i + class_text(t).len(), tilde()) ==> (r matches Some(
                (v, j),
            ) && models(v@) == t && j == i + class_text(t).len()),
    decreases cs@.len() - i,
{
    let (p, j) = match parse_partition(s, cs, i) {
        None => {
            proof {
                assert forall|t: Tier|
                    #![trigger partition_texts(t)]
                    t.len() >= 1 && all_blocks_ok(t) && starts_with(
                        cs@,
                        i as int,
                        class_text(t),
                    ) implies false by {
                    assert(class_text(t) + Seq::<char>::empty() =~= class_text(t));
                    lemma_list_head(
                        cs@,
                        i as int,
                        partition_texts(t),
                        tilde(),
                        Seq::<char>::empty(),
                    );
                    assert(partition_texts(t)[0] == partition_text(t[0]));
                    assert(blocks_ok(t[0]));
                }
            }
            return None;
        },
        Some(x) => x,
    };
    if !at3(cs, j, ' ', '~', ' ') {
        let mut v: Vec<Partition> = Vec::new();
        let ghost first = p.model();
        v.push(p);
        proof {
            assert(seq![' ', '~', ' '] =~= tilde());
            assert forall|t: Tier|
                #![trigger partition_texts(t)]
                t.len() >= 1 && all_blocks_ok(t) && starts_with(cs@, i as int, class_text(t))
                    && !starts_with(cs@, i + class_text(t).len(), tilde()) implies models(v@) == t
                && j == i + class_text(t).len() by {
                assert(class_text(t) + Seq::<char>::empty() =~= class_text(t));
                lemma_list_head(cs@, i as int, partition_texts(t), tilde(), Seq::<char>::empty());
                assert(partition_texts(t)[0] == partition_text(t[0]));
                assert(blocks_ok(t[0]));
                assert(models(v@) =~= t);
            }
        }
        proof {
            assert forall|k: int| 0 <= k < models(v@).len() implies blocks_ok(
                #[trigger] models(v@)[k],
            ) by {
                assert(models(v@)[k] == first);
            }
        }
        return Some((v, j));
    }
    assert(j + 3 <= cs.len());
    match parse_partition_list(s, cs, j + 3) {
        None => {
            proof {
                assert(seq![' ', '~', ' '] =~= tilde());
                assert forall|t: Tier|
                    #![trigger partition_texts(t)]
                    t.len() >= 1 && all_blocks_ok(t) && starts_with(cs@, i as int, class_text(t))
                        && !starts_with(cs@, i + class_text(t).len(), tilde()) implies false by {
                    lemma_tier_step(cs@, i as int, t, j as int);
                }
            }
            None
        },
        Some((rest, end)) => {
            let mut v = rest;
            let ghost rm = models(v@);
            let ghost pm = p.model();
            v.insert(0, p);
            proof {
                assert(seq![' ', '~', ' '] =~= tilde());
                assert forall|t: Tier|
                    #![trigger partition_texts(t)]
                    t.len() >= 1 && all_blocks_ok(t) && starts_with(cs@, i as int, class_text(t))
                        && !starts_with(cs@, i + class_text(t).len(), tilde()) implies models(v@)
                    == t && end == i + class_text(t).len() by {
                    lemma_tier_step(cs@, i as int, t, j as int);
                    assert(partition_texts(t)[0] == partition_text(t[0]));
                    assert(blocks_ok(t[0]));
                    assert(rm == t.skip(1));
                    assert(pm == t[0]);
                    assert(models(v@) =~= seq![t[0]] + t.skip(1));
                    assert(seq![t[0]] + t.skip(1) =~= t);
                }
            }
            proof {
                assert forall|k: int| 0 <= k < models(v@).len() implies blocks_ok(
                    #[trigger] models(v@)[k],
                ) by {
                    if k == 0 {
                        assert(models(v@)[0] == pm);
                    } else {
                        assert(models(v@)[k] == rm[k - 1]);
                    }
                }
            }
            Some((v, end))
        },
    }
}

/// Where the first partition of a class ends at `j` and the separator
/// stands there, the class has more partitions, and they stand behind
/// the separator.
proof fn lemma_tier_step(cs: Text, i: int, t: Tier, j: int)
    requires
        t.len() >= 1,
        all_blocks_ok(t),
        starts_with(cs, i, class_text(t)),
        !starts_with(cs, i + class_text(t).len(), tilde()),
        starts_with(cs, j, tilde()),
        forall|q: Blocks|
            #![trigger partition_text(q)]
            blocks_ok(q) && starts_with(cs, i, partition_text(q)) ==> j == i + partition_text(
                q,
            ).len(),
    ensures
        t.len() > 1,
        blocks_ok(t[0]),
        starts_with(cs, i, partition_text(t[0])),
        all_blocks_ok(t.skip(1)),
        t.skip(1).len() >= 1,
        starts_with(cs, j + 3, class_text(t.skip(1))),
        !starts_with(cs, j + 3 + class_text(t.skip(1)).len(), tilde()),
        class_text(t).len() == (j - i) + 3 + class_text(t.skip(1)).len(),
{
    assert(class_text(t) + Seq::<char>::empty() =~= class_text(t));
    lemma_list_head(cs, i, partition_texts(t), tilde(), Seq::<char>::empty());
    assert(partition_texts(t)[0] == partition_text(t[0]));
    assert(blocks_ok(t[0]));
    assert(j == i + partition_text(t[0]).len());
    if t.len() == 1 {
        assert(class_text(t).len() == partition_text(t[0]).len());
    }
    assert(partition_texts(t).skip(1) =~= partition_texts(t.skip(1)));
    assert(joined(partition_texts(t.skip(1)), tilde()) + Seq::<char>::empty() =~= class_text(
        t.skip(1),
    ));
    assert forall|k: int| 0 <= k < t.skip(1).len() implies blocks_ok(#[trigger] t.skip(1)[k]) by {
        assert(t.skip(1)[k] == t[k + 1]);
    }
}

/// An indifference class from `i` on: its partitions, or none where no
/// partition starts at `i`.
fn parse_class(s: &str, cs: &Vec<char>, i: usize) -> (r: Option<(Vec<Partition>, usize)>)
    requires
        cs@ == s@,
        i <= cs@.len(),
    ensures
        r matches Some((v, _)) ==> tier_ok(models(v@)),
        r matches Some((_, j)) ==> i <= j <= cs@.len(),
        forall|t: Tier|
            #![trigger class_text(t)]
            tier_ok(t) && starts_with(cs@, i as int, class_text(t)) && !starts_with(
                cs@,
                i + class_text(t).len(),
                tilde(),
            ) && (t.len() == 0 ==> (i == cs@.len() || cs@[i as int] != '{')) ==> (r matches Some(
                (v, j),
            ) && models(v@) == t && j == i + class_text(t).len()),
{
    if i < cs.len() && cs[i] == '{' {
        match parse_partition_list(s, cs, i) {
            None => {
                proof {
                    assert forall|t: Tier|
                        #![trigger class_text(t)]
                        tier_ok(t) && starts_with(cs@, i as int, class_text(t)) && !starts_with(
                            cs@,
                            i + class_text(t).len(),
                            tilde(),
                        ) && (t.len() == 0 ==> (i == cs@.len() || cs@[i as int]
                            != '{')) implies false by {
                        let x = partition_texts(t);
                    }
                }
                None
            },
            Some((v, j)) => {
                let ghost vm = models(v@);
                let class = from_items(v);
                proof {
                    assert forall|t: Tier|
                        #![trigger class_text(t)]
                        tier_ok(t) && starts_with(cs@, i as int, class_text(t)) && !starts_with(
                            cs@,
                            i + class_text(t).len(),
                            tilde(),
                        ) && (t.len() == 0 ==> (i == cs@.len() || cs@[i as int]
                            != '{')) implies models(class@) == t && j == i + class_text(
                        t,
                    ).len() by {
                        let x = partition_texts(t);
                        assert(vm == t);
                        Partition::lemma_order();
                        lemma_sorted_unique(Partition::less(), models(class@), t);
                    }
                }
                proof {
                    let t = models(class@);
                    assert forall|k: int| 0 <= k < t.len() implies blocks_ok(#[trigger] t[k]) by {
                        assert(t.contains(t[k]));
                        assert(vm.contains(t[k]));
                        let a = choose|a: int| 0 <= a < vm.len() && vm[a] == t[k];
                        assert(blocks_ok(vm[a]));
                    }
                    assert(tier_ok(t));
                }
                Some((class, j))
            },
        }
    } else {
        let v: Vec<Partition> = Vec::new();
        proof {
            assert forall|t: Tier|
                #![trigger class_text(t)]
                tier_ok(t) && starts_with(cs@, i as int, class_text(t)) && !starts_with(
                    cs@,
                    i + class_text(t).len(),
                    tilde(),
                ) && (t.len() == 0 ==> (i == cs@.len() || cs@[i as int] != '{')) implies models(v@)
                == t && i == i + class_text(t).len() by {
                if t.len() >= 1 {
                    assert(class_text(t) + Seq::<char>::empty() =~= class_text(t));
                    lemma_list_head(
                        cs@,
                        i as int,
                        partition_texts(t),
                        tilde(),
                        Seq::<char>::empty(),
                    );
                    assert(partition_texts(t)[0] == partition_text(t[0]));
                    lemma_starts_char(cs@, i as int, partition_text(t[0]), 0);
                }
                assert(t =~= Seq::<Blocks>::empty());
                assert(models(v@) =~= t);
                assert(partition_texts(t) =~= Seq::<Text>::empty());
            }
        }
        proof {
            assert(tier_ok(models(v@)));
        }
        Some((v, i))
    }
}

/// The classes of a ranking from `i` on, up to the end of the text.
fn parse_class_list(s: &str, cs: &Vec<char>, i: usize) -> (r: Option<(Vec<Vec<Partition>>, usize)>)
    requires
        cs@ == s@,
        i <= cs@.len(),
    ensures
        r matches Some((v, _)) ==> v@.len() >= 1 && tiers_ok(models(v@)),
        forall|r0: Tiers|
            #![trigger class_texts(r0)]
            r0.len() >= 1 && tiers_ok(r0) && cs@.subrange(i as int, cs@.len() as int)
                == ranking_text(r0) ==> (r matches Some((v, _)) && models(v@) == r0),
    decreases cs@.len() - i,
{
    let (class, j) = match parse_class(s, cs, i) {
        None => {
            proof {
                assert forall|r0: Tiers|
                    #![trigger class_texts(r0)]
                    r0.len() >= 1 && tiers_ok(r0) && cs@.subrange(i as int, cs@.len() as int)
                        == ranking_text(r0) implies false by {
                    lemma_ranking_head(cs@, i as int, r0);
                }
            }
            return None;
        },
        Some(x) => x,
    };
    if j == cs.len() {
        let mut v: Vec<Vec<Partition>> = Vec::new();
        let ghost cm = models(class@);
        v.push(class);
        proof {
            assert forall|r0: Tiers|
                #![trigger class_texts(r0)]
                r0.len() >= 1 && tiers_ok(r0) && cs@.subrange(i as int, cs@.len() as int)
                    == ranking_text(r0) implies models(v@) == r0 by {
                lemma_ranking_head(cs@, i as int, r0);
                assert(cm == r0[0]);
                if r0.len() > 1 {
                    assert(starts_with(cs@, i + class_text(r0[0]).len(), arrow()));
                }
                assert(models(v@) =~= r0);
            }
        }
        proof {
            assert forall|k: int| 0 <= k < models(v@).len() implies tier_ok(
                #[trigger] models(v@)[k],
            ) by {
                assert(models(v@)[k] == cm);
            }
        }
        return Some((v, j));
    }
    if !at3(cs, j, ' ', '>', ' ') {
        proof {
            assert(seq![' ', '>', ' '] =~= arrow());
            assert forall|r0: Tiers|
                #![trigger class_texts(r0)]
                r0.len() >= 1 && tiers_ok(r0) && cs@.subrange(i as int, cs@.len() as int)
                    == ranking_text(r0) implies false by {
                lemma_ranking_head(cs@, i as int, r0);
            }
        }
        return None;
    }
    assert(j + 3 <= cs.len());
    match parse_class_list(s, cs, j + 3) {
        None => {
            proof {
                assert(seq![' ', '>', ' '] =~= arrow());
                assert forall|r0: Tiers|
                    #![trigger class_texts(r0)]
                    r0.len() >= 1 && tiers_ok(r0) && cs@.subrange(i as int, cs@.len() as int)
                        == ranking_text(r0) implies false by {
                    lemma_ranking_head(cs@, i as int, r0);
                    let x = class_texts(r0.skip(1));
                }
            }
            None
        },
        Some((rest, end)) => {
            let mut v = rest;
            let ghost rm = models(v@);
            let ghost cm = models(class@);
            v.insert(0, class);
            proof {
                assert(seq![' ', '>', ' '] =~= arrow());
                assert forall|r0: Tiers|
                    #![trigger class_texts(r0)]
                    r0.len() >= 1 && tiers_ok(r0) && cs@.subrange(i as int, cs@.len() as int)
                        == ranking_text(r0) implies models(v@) == r0 by {
                    lemma_ranking_head(cs@, i as int, r0);
                    let x = class_texts(r0.skip(1));
                    assert(cm == r0[0]);
                    assert(rm == r0.skip(1));
                    assert(models(v@) =~= seq![r0[0]] + r0.skip(1));
                    assert(seq![r0[0]] + r0.skip(1) =~= r0);
                }
            }
            proof {
                assert forall|k: int| 0 <= k < models(v@).len() implies tier_ok(
                    #[trigger] models(v@)[k],
                ) by {
                    if k == 0 {
                        assert(models(v@)[0] == cm);
                    } else {
                        assert(models(v@)[k] == rm[k - 1]);
                    }
                }
            }
            Some((v, end))
        },
    }
}

/// What the text of a ranking that stands from `i` to the end tells of
/// its first class: the class stands at `i`, no separator of partitions
/// stands behind it, an empty class is followed by no brace; and either
/// the class ends the text, or the separator of classes and the other
/// classes follow.
proof fn lemma_ranking_head(cs: Text, i: int, r0: Tiers)
    requires
        r0.len() >= 1,
        tiers_ok(r0),
        0 <= i <= cs.len(),
        cs.subrange(i, cs.len() as int) == ranking_text(r0),
    ensures
        tier_ok(r0[0]),
        starts_with(cs, i, class_text(r0[0])),
        !starts_with(cs, i + class_text(r0[0]).len(), tilde()),
        r0[0].len() == 0 ==> (i == cs.len() || cs[i] != '{'),
        r0.len() == 1 ==> i + class_text(r0[0]).len() == cs.len(),
        r0.len() > 1 ==> starts_with(cs, i + class_text(r0[0]).len(), arrow()) && i + class_text(
            r0[0],
        ).len() != cs.len() && r0.skip(1).len() >= 1 && tiers_ok(r0.skip(1)) && cs.subrange(
            i + class_text(r0[0]).len() + 3,
            cs.len() as int,
        ) == ranking_text(r0.skip(1)),
{
    let texts = class_texts(r0);
    let whole = ranking_text(r0);
    assert(starts_with(cs, i, whole));
    assert(whole + Seq::<char>::empty() =~= whole);
    lemma_list_head(cs, i, texts, arrow(), Seq::<char>::empty());
    assert(texts[0] == class_text(r0[0]));
    let e = i + class_text(r0[0]).len();
    if r0.len() == 1 {
        assert(whole == texts[0]);
        assert(e == cs.len());
        if r0[0].len() == 0 {
            assert(partition_texts(r0[0]) =~= Seq::<Text>::empty());
        }
    } else {
        lemma_arrow_is_no_tilde(cs, e);
        let h = joined(texts.skip(1), arrow());
        assert(texts.skip(1) =~= class_texts(r0.skip(1)));
        assert(h + Seq::<char>::empty() =~= h);
        assert(whole.len() == texts[0].len() + 3 + h.len());
        assert(cs.subrange(e + 3, cs.len() as int) =~= h) by {
            assert(starts_with(cs, e + 3, h));
            assert(e + 3 + h.len() == cs.len());
        }
        if r0[0].len() == 0 {
            assert(partition_texts(r0[0]) =~= Seq::<Text>::empty());
            lemma_starts_char(cs, e, arrow(), 0);
        }
        assert forall|k: int| 0 <= k < r0.skip(1).len() implies tier_ok(
            #[trigger] r0.skip(1)[k],
        ) by {
            assert(r0.skip(1)[k] == r0[k + 1]);
        }
    }
}

/// Every legal ranking in canonical form can be read back from its
/// text: it has a class, its coalitions have members, and the names of
/// its candidates hold letters and digits only.
pub proof fn lemma_legal_readable(r: Ranking, m: usize)
    requires
        r.legal(m),
        r.wf(),
    ensures
        r@.len() >= 1,
        tiers_ok(r@),
{
    let x = r@;
    lemma_bell_positive(m as nat);
    assert(x.len() >= 1);
    assert forall|k: int| 0 <= k < x.len() implies tier_ok(#[trigger] x[k]) by {
        let class = r.ranking@[k];
        assert(x[k] == models(class@));
        assert(sorted(class@));
        assert forall|i: int| 0 <= i < x[k].len() implies blocks_ok(#[trigger] x[k][i]) by {
            let p = class@[i];
            let q = x[k][i];
            assert(q == p@);
            assert(p.legal(m) && p.wf());
            assert(sorted(p.coalitions@));
            assert forall|a: int| 0 <= a < q.len() implies group_ok(#[trigger] q[a]) by {
                let c = p.coalitions@[a];
                assert(q[a] == c@);
                assert(c.legal(m) && c.wf());
                assert(sorted(c.members@));
                assert forall|b: int| 0 <= b < q[a].len() implies name_ok(#[trigger] q[a][b]) by {
                    let n = c.members@[b];
                    assert(q[a][b] == n@);
                    assert(n.legal(m));
                    assert forall|j: int| 0 <= j < n@.len() implies is_name_char(
                        #[trigger] n@[j],
                    ) by {
                        assert(alphanumeric(n@[j]));
                    }
                }
            }
        }
    }
}

/// Every ranking of the partitions of `m` candidates can be read back
/// from its text: it has a class, its structures are in canonical form,
/// and the names of its candidates hold letters only.
pub proof fn lemma_ranking_readable(x: Tiers, m: usize)
    requires
        is_ranking(x, m),
    ensures
        x.len() >= 1,
        tiers_ok(x),
{
    let c = candidate_seq(m);
    lemma_ranking_size(x, m);
    lemma_candidate_seq(m);
    Candidate::lemma_order();
    assert forall|k: int| 0 <= k < x.len() implies tier_ok(#[trigger] x[k]) by {
        assert forall|i: int| 0 <= i < x[k].len() implies blocks_ok(#[trigger] x[k][i]) by {
            let q = x[k][i];
            assert(Partition::universe(m).contains(q));
            lemma_partition_sorted(Candidate::less(), q, c);
            assert forall|a: int| 0 <= a < q.len() implies group_ok(#[trigger] q[a]) by {
                assert forall|b: int| 0 <= b < q[a].len() implies name_ok(#[trigger] q[a][b]) by {
                    let n = q[a][b];
                    assert(c.contains(q[a][b]));
                    assert(Candidate::universe(m).contains(n));
                    let t = choose|t: nat| t < m && n == label(t);
                    lemma_label_letters(t);
                    assert forall|j: int| 0 <= j < n.len() implies is_name_char(
                        #[trigger] n[j],
                    ) by {
                        assert('a' <= label(t)[j] <= 'z');
                    }
                }
            }
        }
    }
}

/// Why a text is not read.
#[derive(Clone, Copy, Debug, PartialEq, Eq, Structural)]
pub enum TextError {
    /// The text is not the text of a structure in canonical form.
    Unreadable,
}

impl Candidate {
    /// The candidate with the name `s`, taken as it is: blanks around it
    /// are part of the name.
    pub fn from_str(s: &str) -> (c: Candidate)
        ensures
            c@ == s@,
    {
        Candidate { name: String::from_str(s) }
    }
}

impl Coalition {
    /// The coalition that the text `s` stands for: `s` is read only
    /// where it is the text of a coalition in canonical form that has a
    /// member and whose names are free of the characters of the text
    /// form, and then as that coalition. `{}` is the coalition of the
    /// candidate whose name has no characters. Text with the members
    /// out of order or one of them twice, or with blanks around it, is
    /// refused.
    pub fn from_str(s: &str) -> (r: Result<Coalition, TextError>)
        ensures
            r matches Ok(c) ==> group_ok(c@) && s@ == coalition_text(c@),
            forall|g: Group|
                #![trigger coalition_text(g)]
                group_ok(g) && s@ == coalition_text(g) ==> (r matches Ok(c) && c@ == g),
    {
        match Coalition::read(s) {
            Some(c) => {
                let text = c.to_string();
                if text == String::from_str(s) {
                    Ok(c)
                } else {
                    Err(TextError::Unreadable)
                }
            },
            None => Err(TextError::Unreadable),
        }
    }

    /// The coalition that is read from the text `s`, where something can
    /// be read.
    fn read(s: &str) -> (r: Option<Coalition>)
        ensures
            r matches Some(c) ==> group_ok(c@),
            forall|g: Group|
                #![trigger coalition_text(g)]
                group_ok(g) && s@ == coalition_text(g) ==> (r matches Some(c) && c@ == g),
    {
        let cs = chars_of(s);
        match parse_coalition(s, &cs, 0) {
            Some((c, j)) => {
                if j == cs.len() {
                    proof {
                        assert forall|g: Group|
                            #![trigger coalition_text(g)]
                            group_ok(g) && s@ == coalition_text(g) implies c@ == g by {
                            assert(cs@.subrange(0, coalition_text(g).len() as int) =~= cs@);
                            assert(c@ == c.model());
                        }
                    }
                    Some(c)
                } else {
                    proof {
                        assert forall|g: Group|
                            #![trigger coalition_text(g)]
                            group_ok(g) && s@ == coalition_text(g) implies false by {
                            assert(cs@.subrange(0, coalition_text(g).len() as int) =~= cs@);
                        }
                    }
                    None
                }
            },
            None => {
                proof {
                    assert forall|g: Group|
                        #![trigger coalition_text(g)]
                        group_ok(g) && s@ == coalition_text(g) implies false by {
                        assert(cs@.subrange(0, coalition_text(g).len() as int) =~= cs@);
                    }
                }
                None
            },
        }
    }
}

impl Partition {
    /// The partition that the text `s` stands for: `s` is read only
    /// where it is the text of a partition in canonical form whose
    /// coalitions can be read, and then as that partition. Text with
    /// the coalitions or their members out of order or one of them
    /// twice, or with blanks around it, is refused.
    pub fn from_str(s: &str) -> (r: Result<Partition, TextError>)
        ensures
            r matches Ok(p) ==> blocks_ok(p@) && s@ == partition_text(p@),
            forall|q: Blocks|
                #![trigger partition_text(q)]
                blocks_ok(q) && s@ == partition_text(q) ==> (r matches Ok(p) && p@ == q),
    {
        match Partition::read(s) {
            Some(p) => {
                let text = p.to_string();
                if text == String::from_str(s) {
                    Ok(p)
                } else {
                    Err(TextError::Unreadable)
                }
            },
            None => Err(TextError::Unreadable),
        }
    }

    /// The partition that is read from the text `s`, where something can
    /// be read.
    fn read(s: &str) -> (r: Option<Partition>)
        ensures
            r matches Some(p) ==> blocks_ok(p@),
            forall|q: Blocks|
                #![trigger partition_text(q)]
                blocks_ok(q) && s@ == partition_text(q) ==> (r matches Some(p) && p@ == q),
    {
        let cs = chars_of(s);
        match parse_partition(s, &cs, 0) {
            Some((p, j)) => {
                if j == cs.len() {
                    proof {
                        assert forall|q: Blocks|
                            #![trigger partition_text(q)]
                            blocks_ok(q) && s@ == partition_text(q) implies p@ == q by {
                            assert(cs@.subrange(0, partition_text(q).len() as int) =~= cs@);
                            assert(p@ == p.model());
                        }
                    }
                    Some(p)
                } else {
                    proof {
                        assert forall|q: Blocks|
                            #![trigger partition_text(q)]
                            blocks_ok(q) && s@ == partition_text(q) implies false by {
                            assert(cs@.subrange(0, partition_text(q).len() as int) =~= cs@);
                        }
                    }
                    None
                }
            },
            None => {
                proof {
                    assert forall|q: Blocks|
                        #![trigger partition_text(q)]
                        blocks_ok(q) && s@ == partition_text(q) implies false by {
                        assert(cs@.subrange(0, partition_text(q).len() as int) =~= cs@);
                    }
                }
                None
            },
        }
    }
}

impl Ranking {
    /// The ranking that the text `s` stands for: `s` is read only where
    /// it is the text of a ranking whose structures are in canonical
    /// form, whose coalitions have members and whose names are free of
    /// the characters of the text form, and then as that ranking. The
    /// text of every legal ranking in canonical form is such a text, and
    /// so is the text of every ranking of the partitions of some number
    /// of candidates. Text with partitions, coalitions or members out of
    /// order or one of them twice, or with blanks around it, is refused.
    pub fn from_str(s: &str) -> (r: Result<Ranking, TextError>)
        ensures
            r matches Ok(x) ==> x@.len() >= 1 && tiers_ok(x@) && s@ == ranking_text(x@),
            forall|r0: Tiers|
                #![trigger ranking_text(r0)]
                r0.len() >= 1 && tiers_ok(r0) && s@ == ranking_text(r0) ==> (r matches Ok(x)
                    && x@ == r0),
            forall|r0: Tiers, m: usize| #[trigger]
                is_ranking(r0, m) && s@ == ranking_text(r0) ==> (r matches Ok(x) && x@ == r0),
            forall|x0: Ranking, m: usize| #[trigger]
                x0.legal(m) && x0.wf() && s@ == ranking_text(x0@) ==> (r matches Ok(x) && x@
                    == x0@),
    {
        proof {
            assert forall|x0: Ranking, m: usize| #[trigger] x0.legal(m) && x0.wf() implies x0@.len()
                >= 1 && tiers_ok(x0@) by {
                lemma_legal_readable(x0, m);
            }
            assert forall|r0: Tiers, m: usize| #[trigger] is_ranking(r0, m) implies r0.len() >= 1
                && tiers_ok(r0) by {
                lemma_ranking_readable(r0, m);
            }
        }
        match Ranking::read(s) {
            Some(x) => {
                let text = x.to_string();
                if text == String::from_str(s) {
                    Ok(x)
                } else {
                    Err(TextError::Unreadable)
                }
            },
            None => Err(TextError::Unreadable),
        }
    }

    /// The ranking that is read from the text `s`, where something can be
    /// read.
    fn read(s: &str) -> (r: Option<Ranking>)
        ensures
            r matches Some(x) ==> x@.len() >= 1 && tiers_ok(x@),
            forall|r0: Tiers|
                #![trigger ranking_text(r0)]
                r0.len() >= 1 && tiers_ok(r0) && s@ == ranking_text(r0) ==> (r matches Some(x)
                    && x@ == r0),
    {
        let cs = chars_of(s);
        match parse_class_list(s, &cs, 0) {
            Some((v, _)) => {
                let x = Ranking { ranking: v };
                proof {
                    assert forall|r0: Tiers|
                        #![trigger ranking_text(r0)]
                        r0.len() >= 1 && tiers_ok(r0) && s@ == ranking_text(r0) implies x@
                        == r0 by {
                        assert(cs@.subrange(0, cs@.len() as int) =~= cs@);
                        let t = class_texts(r0);
                    }
                }
                Some(x)
            },
            None => {
                proof {
                    assert forall|r0: Tiers|
                        #![trigger ranking_text(r0)]
                        r0.len() >= 1 && tiers_ok(r0) && s@ == ranking_text(r0) implies false by {
                        assert(cs@.subrange(0, cs@.len() as int) =~= cs@);
                        let t = class_texts(r0);
                    }
                }
                None
            },
        }
    }
}

} // verus!
