//! Ballot formats: what a voter hands in, and the ranking it stands for.
pub mod ballot_trait;
pub mod cs;
pub mod fcs;
pub mod fcw;
pub mod fp;
pub mod names;
pub mod pa;
pub mod ps;
pub mod utils;

pub use ballot_trait::Ballot;
pub use cs::Cs;
pub use fcs::Fcs;
pub use fcw::Fcw;
pub use fp::Fp;
pub use pa::Pa;
pub use ps::Ps;
