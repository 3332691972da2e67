//! Reduced ordered binary decision diagrams.
//!
//! A session ([`raw::Context`]) hands out diagrams ([`raw::Bdd`]) over the
//! variables of one ordered type. Within a session two diagrams are the same
//! handle exactly when they stand for the same boolean function.
//!
//! - [`variable`]: what a type needs to serve as the variables.
//! - [`tree`]: the decision tree that a diagram unfolds to, its value under
//!   an assignment, and the uniqueness of the reduced ordered form.
//! - [`counting`]: the models of a tree over a list of variables, and their
//!   number.
//! - [`arena`]: the allocator that holds the node records.
//! - [`raw`]: sessions and diagrams: constants, variables, negation,
//!   conjunction, disjunction, exclusive disjunction, and the count of
//!   models.
//! - [`laws`]: the laws of boolean algebra, stated of the diagrams of a
//!   session.
//! - [`queens`], [`pigeonhole`]: two problems put as diagrams.

pub mod arena;
pub mod counting;
pub mod laws;
pub mod pigeonhole;
pub mod queens;
pub mod raw;
pub mod tree;
pub mod variable;
