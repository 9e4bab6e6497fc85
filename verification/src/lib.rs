//! Dependency-graph validation and hierarchy layering.
//!
//! Callers register named elements together with the names they depend on,
//! in any order and with later registrations replacing earlier ones.
//! Building the registered table checks that every dependency names a
//! registered element and that the dependency relation is acyclic; the
//! validated graph can then be divided into tranches, an ordered sequence of
//! groups in which every element's dependencies sit in strictly earlier
//! groups, so the members of one tranche can be provisioned in parallel.
//!
//! The mathematical model lives in [`model`]: the registered state is a map
//! from element name to dependency list, and every public contract is stated
//! over it. [`deps`] holds the builder, the validator and the tranche
//! generator; [`laws`] states and proves the laws that relate them; the
//! cycle check calls into petgraph through the trusted boundary in
//! [`graph`].

pub mod deps;
pub mod errors;
pub mod graph;
pub mod laws;
pub mod model;
