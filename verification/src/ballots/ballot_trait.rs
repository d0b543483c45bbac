//! What every ballot format offers.
use vstd::prelude::*;
use crate::ballots::names::{full_text, short_text, BallotKind};
use crate::structures::ranking::{Ranking, Tiers};

verus! {

/// A ballot format: every ballot of it stands for one ranking.
pub trait Ballot: Sized {
    /// The ranking that the ballot stands for.
    spec fn induced(&self) -> Tiers;

    /// Which of the formats this is.
    spec fn kind() -> BallotKind;

    /// The short name of the format.
    fn get_name() -> (s: String)
        ensures
            s@ == short_text(Self::kind()),
    ;

    /// The full name of the format.
    fn get_full_name() -> (s: String)
        ensures
            s@ == full_text(Self::kind()),
    ;

    /// The ranking that the ballot stands for.
    fn get_ranking(&self) -> (r: Ranking)
        ensures
            r@ == self.induced(),
    ;
}

} // verus!
