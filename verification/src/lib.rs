//! Transforms the output of `cargo metadata` into a graph, [`krates::Krates`],
//! where crates and their features are nodes and dependency links are edges.
//!
//! The [`builder::Builder`] decides which crates the graph holds: those
//! reached from the roots through the dependencies that its filters keep
//! (dependency kinds, targets, exclusions, workspace crates).
use vstd::prelude::*;

pub mod text;
pub mod search;
pub mod set;
pub mod version;
pub mod paths;
pub mod cm;
pub mod features;
pub mod errors;
pub mod pkgspec;
pub mod graph;
pub mod krates;
pub mod cfg;
pub mod builder;
pub mod construct;
pub mod index;

verus! {

} // verus!
