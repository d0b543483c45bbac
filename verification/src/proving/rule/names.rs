//! The voting rules by name.
use vstd::prelude::*;
use crate::utils::text::{eq_ignore_case, lowered};

verus! {

/// The voting rules that the library knows.
#[derive(Clone, Copy, Debug, PartialEq, Eq, Structural)]
pub enum RuleKind {
    Borda,
    Copeland,
}

/// All of them, in the order in which a name is looked up.
pub open spec fn kinds() -> Seq<RuleKind> {
    seq![
        RuleKind::Borda,
        RuleKind::Copeland,
    ]
}

/// The short name.
pub open spec fn short_text(kind: RuleKind) -> Seq<char> {
    match kind {
        RuleKind::Borda => "borda"@,
        RuleKind::Copeland => "copeland"@,
    }
}

/// The full name.
pub open spec fn full_text(kind: RuleKind) -> Seq<char> {
    match kind {
        RuleKind::Borda => "borda"@,
        RuleKind::Copeland => "copeland"@,
    }
}

/// `name` is the short or the full name, whatever the case of its
/// letters.
pub open spec fn names(kind: RuleKind, name: Seq<char>) -> bool {
    lowered(name) == lowered(short_text(kind)) || lowered(name) == lowered(full_text(kind))
}

/// The short name.
pub fn short_name(kind: RuleKind) -> (s: &'static str)
    ensures
        s@ == short_text(kind),
{
    match kind {
        RuleKind::Borda => "borda",
        RuleKind::Copeland => "copeland",
    }
}

/// The full name.
pub fn full_name(kind: RuleKind) -> (s: &'static str)
    ensures
        s@ == full_text(kind),
{
    match kind {
        RuleKind::Borda => "borda",
        RuleKind::Copeland => "copeland",
    }
}

/// All of them, in the order in which a name is looked up.
pub fn all_kinds() -> (r: Vec<RuleKind>)
    ensures
        r@ == kinds(),
{
    let mut r: Vec<RuleKind> = Vec::new();
    r.push(RuleKind::Borda);
    r.push(RuleKind::Copeland);
    assert(r@ =~= kinds());
    r
}

/// The one with the short or full name `name`, whatever the case of its
/// letters: the first such in the order of `kinds`, or none.
pub fn kind_of(name: &str) -> (r: Option<RuleKind>)
    ensures
        match r {
            Some(kind) => exists|i: int|
                0 <= i < kinds().len() && #[trigger] kinds()[i] == kind && names(kind, name@)
                    && forall|j: int| 0 <= j < i ==> !names(#[trigger] kinds()[j], name@),
            None => forall|i: int| 0 <= i < kinds().len() ==> !names(#[trigger] kinds()[i], name@),
        },
{
    let all = all_kinds();
    let mut i: usize = 0;
    while i < all.len()
        invariant
            i <= all.len(),
            all@ == kinds(),
            forall|j: int| 0 <= j < i ==> !names(#[trigger] kinds()[j], name@),
        decreases all.len() - i,
    {
        if eq_ignore_case(name, short_name(all[i])) || eq_ignore_case(name, full_name(all[i])) {
            assert(kinds()[i as int] == all@[i as int]);
            return Some(all[i]);
        }
        i += 1;
    }
    None
}

/// The names of all rules.
pub fn all_rule_names() -> (r: Vec<&'static str>)
    ensures
        r@.len() == kinds().len(),
        forall|i: int| 0 <= i < r@.len() ==> (#[trigger] r@[i])@ == short_text(kinds()[i]),
{
    let all = all_kinds();
    let mut r: Vec<&'static str> = Vec::new();
    let mut i: usize = 0;
    while i < all.len()
        invariant
            i <= all.len(),
            all@ == kinds(),
            r@.len() == i,
            forall|j: int| 0 <= j < i ==> (#[trigger] r@[j])@ == short_text(kinds()[j]),
        decreases all.len() - i,
    {
        r.push(short_name(all[i]));
        i += 1;
    }
    r
}

/// The name of the rule that `rule` names, if it names one.
pub fn get_rule_name(rule: &str) -> (r: Option<&'static str>)
    ensures
        r is None <==> forall|i: int| 0 <= i < kinds().len() ==> !names(#[trigger] kinds()[i], rule@),
        r matches Some(s) ==> exists|i: int|
            0 <= i < kinds().len() && names(#[trigger] kinds()[i], rule@) && s@ == short_text(
                kinds()[i],
            ),
{
    match kind_of(rule) {
        Some(kind) => Some(short_name(kind)),
        None => None,
    }
}

} // verus!
