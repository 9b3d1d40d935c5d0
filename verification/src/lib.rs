//! Turning a phrase into a PascalCase identifier: the rules that read, check
//! and build names, and the decisions of the searches that ask language
//! models for them.

pub mod text;
pub mod pattern;
pub mod naming;
pub mod inference;
pub mod setup;
