//! Profiles, voting rules, axioms, and the search for proofs and
//! counterexamples.
pub mod formula;
pub mod profile;
pub mod rule;
pub mod axioms;
pub mod engine;
