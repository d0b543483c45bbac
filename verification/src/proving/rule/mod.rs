//! Voting rules: how the partitions score in a profile.
pub mod borda;
pub mod copeland;
pub mod names;
pub mod rule_trait;
pub mod scoring;

pub use borda::Borda;
pub use copeland::Copeland;
pub use rule_trait::VotingRule;
pub use scoring::Scoring;
