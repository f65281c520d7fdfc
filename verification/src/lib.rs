//! A BDD-style test framework: a tree of `describe`/`it` specs with lifecycle
//! hooks, focus/pending markers, label filters, and a runner that reports what
//! passed, failed, was skipped or is pending.
use vstd::prelude::*;

pub mod text;
pub mod filter;
pub mod tree;
pub mod trials;
pub mod fixtures;
pub mod context;
pub mod runner;
pub mod walk;
pub mod session;
pub mod config;

verus! {

} // verus!
