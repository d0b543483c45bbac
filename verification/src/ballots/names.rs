//! The ballot formats by name.
use vstd::prelude::*;
use crate::utils::text::{eq_ignore_case, lowered};

verus! {

/// The ballot formats that the library knows.
#[derive(Clone, Copy, Debug, PartialEq, Eq, Structural)]
pub enum BallotKind {
    Cs,
    Fcs,
    Fcw,
    Fp,
    Pa,
    Ps,
}

/// All of them, in the order in which a name is looked up.
pub open spec fn kinds() -> Seq<BallotKind> {
    seq![
        BallotKind::Cs,
        BallotKind::Fcs,
        BallotKind::Fcw,
        BallotKind::Fp,
        BallotKind::Pa,
        BallotKind::Ps,
    ]
}

/// The short name.
pub open spec fn short_text(kind: BallotKind) -> Seq<char> {
    match kind {
        BallotKind::Cs => "CS"@,
        BallotKind::Fcs => "FCS"@,
        BallotKind::Fcw => "FCW"@,
        BallotKind::Fp => "FP"@,
        BallotKind::Pa => "PA"@,
        BallotKind::Ps => "PS"@,
    }
}

/// The full name.
pub open spec fn full_text(kind: BallotKind) -> Seq<char> {
    match kind {
        BallotKind::Cs => "Coalition Scores"@,
        BallotKind::Fcs => "Favorite Coalition Strict"@,
        BallotKind::Fcw => "Favorite Coalition Weak"@,
        BallotKind::Fp => "Favorite Partition"@,
        BallotKind::Pa => "Partition Approval"@,
        BallotKind::Ps => "Pairwise Score"@,
    }
}

/// `name` is the short or the full name, whatever the case of its
/// letters.
pub open spec fn names(kind: BallotKind, name: Seq<char>) -> bool {
    lowered(name) == lowered(short_text(kind)) || lowered(name) == lowered(full_text(kind))
}

/// The short name.
pub fn short_name(kind: BallotKind) -> (s: &'static str)
    ensures
        s@ == short_text(kind),
{
    match kind {
        BallotKind::Cs => "CS",
        BallotKind::Fcs => "FCS",
        BallotKind::Fcw => "FCW",
        BallotKind::Fp => "FP",
        BallotKind::Pa => "PA",
        BallotKind::Ps => "PS",
    }
}

/// The full name.
pub fn full_name(kind: BallotKind) -> (s: &'static str)
    ensures
        s@ == full_text(kind),
{
    match kind {
        BallotKind::Cs => "Coalition Scores",
        BallotKind::Fcs => "Favorite Coalition Strict",
        BallotKind::Fcw => "Favorite Coalition Weak",
        BallotKind::Fp => "Favorite Partition",
        BallotKind::Pa => "Partition Approval",
        BallotKind::Ps => "Pairwise Score",
    }
}

/// All of them, in the order in which a name is looked up.
pub fn all_kinds() -> (r: Vec<BallotKind>)
    ensures
        r@ == kinds(),
{
    let mut r: Vec<BallotKind> = Vec::new();
    r.push(BallotKind::Cs);
    r.push(BallotKind::Fcs);
    r.push(BallotKind::Fcw);
    r.push(BallotKind::Fp);
    r.push(BallotKind::Pa);
    r.push(BallotKind::Ps);
    assert(r@ =~= kinds());
    r
}

/// The one with the short or full name `name`, whatever the case of its
/// letters: the first such in the order of `kinds`, or none.
pub fn kind_of(name: &str) -> (r: Option<BallotKind>)
    ensures
        match r {
            Some(kind) => exists|i: int|
                0 <= i < kinds().len() && #[trigger] kinds()[i] == kind && names(kind, name@)
                    && forall|j: int| 0 <= j < i ==> !names(#[trigger] kinds()[j], name@),
            None => forall|i: int| 0 <= i < kinds().len() ==> !names(#[trigger] kinds()[i], name@),
        },
{
    let all = all_kinds();
    let mut i: usize = 0;
    while i < all.len()
        invariant
            i <= all.len(),
            all@ == kinds(),
            forall|j: int| 0 <= j < i ==> !names(#[trigger] kinds()[j], name@),
        decreases all.len() - i,
    {
        if eq_ignore_case(name, short_name(all[i])) || eq_ignore_case(name, full_name(all[i])) {
            assert(kinds()[i as int] == all@[i as int]);
            return Some(all[i]);
        }
        i += 1;
    }
    None
}

/// The short and the full name of every ballot format.
pub fn all_ballot_names() -> (r: Vec<(&'static str, &'static str)>)
    ensures
        r@.len() == kinds().len(),
        forall|i: int|
            0 <= i < r@.len() ==> (#[trigger] r@[i]).0@ == short_text(kinds()[i]) && r@[i].1@
                == full_text(kinds()[i]),
{
    let all = all_kinds();
    let mut r: Vec<(&'static str, &'static str)> = Vec::new();
    let mut i: usize = 0;
    while i < all.len()
        invariant
            i <= all.len(),
            all@ == kinds(),
            r@.len() == i,
            forall|j: int|
                0 <= j < i ==> (#[trigger] r@[j]).0@ == short_text(kinds()[j]) && r@[j].1@
                    == full_text(kinds()[j]),
        decreases all.len() - i,
    {
        r.push((short_name(all[i]), full_name(all[i])));
        i += 1;
    }
    r
}

/// The full name of the ballot format that `name` names, if it names one.
pub fn name_to_full_name(name: &str) -> (r: Option<&'static str>)
    ensures
        r is None <==> forall|i: int| 0 <= i < kinds().len() ==> !names(#[trigger] kinds()[i], name@),
        r matches Some(s) ==> exists|i: int|
            0 <= i < kinds().len() && names(#[trigger] kinds()[i], name@) && s@ == full_text(
                kinds()[i],
            ),
{
    match kind_of(name) {
        Some(kind) => Some(full_name(kind)),
        None => None,
    }
}

} // verus!
