//! Structures as text, and back.
pub mod parsing;
pub mod to_string;
