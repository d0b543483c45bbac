//! Candidates, coalitions, partitions and rankings.
pub mod candidate;
pub mod coalition;
pub mod partition;
pub mod ranking;
pub mod utils;

pub use candidate::Candidate;
pub use coalition::Coalition;
pub use partition::Partition;
pub use ranking::Ranking;

use vstd::prelude::*;
use crate::order::Keyed;
use crate::sorted::sorted;
use crate::order::models;

verus! {

/// A kind of structure that can be listed in full for a number of candidates.
pub trait Structure: Keyed {
    /// The sizes for which `all` can list the structures.
    spec fn listable(m: usize) -> bool;

    /// The structures of size `m`: `all` lists no others.
    spec fn universe(m: usize) -> Set<Self::Model>;

    /// What `is_legal` decides.
    spec fn legal(&self, m: usize) -> bool;

    /// All structures of this kind for `m` candidates, as a set.
    fn all(m: usize) -> (r: Vec<Self>)
        requires
            Self::listable(m),
        ensures
            sorted(r@),
            forall|x: Self::Model| models(r@).contains(x) ==> Self::universe(m).contains(x),
    ;

    /// Whether `self` is a legal structure for `m` candidates.
    fn is_legal(&self, m: usize) -> (b: bool)
        ensures
            b == self.legal(m),
    ;
}

} // verus!
