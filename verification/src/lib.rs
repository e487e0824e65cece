//! Offline questions about thirteen years of nixpkgs: which revisions satisfy
//! a set of version constraints, and which revisions a lock file of pins
//! should name.

pub mod change_laws;
pub mod cli;
pub mod constraint;
pub mod date;
pub mod edit;
pub mod error;
pub mod failure_laws;
pub mod greedy_laws;
pub mod index;
pub mod index_laws;
pub mod lock;
pub mod lock_laws;
pub mod map;
pub mod output;
pub mod pin;
pub mod plan;
pub mod plan_laws;
pub mod resolve;
pub mod solve;
pub mod span;
pub mod status;
pub mod status_laws;
pub mod text;
pub mod version;
pub mod version_laws;
pub mod wording_laws;
