//! Elections whose outcome is a partition of the candidates: the
//! combinatorial structures, the ballot formats, the voting rules and the
//! axioms that a rule may satisfy, each axiom as a family of formulas over
//! the vote counts of a profile.
#![verifier::loop_isolation(false)]

pub mod order;
pub mod sorted;
pub mod structures;
pub mod utils;
pub mod proving;
pub mod ballots;
