//! A miniature logic-programming engine.
//!
//! Clauses are asserted into an ordered knowledge base; a question is a
//! goal that the engine tries to derive from it, depth first, binding the
//! variables of the question on the way.
//!
//! - `term`: atoms, variables, predicates, lists and clauses.
//! - `store`: the source of fresh variable identifiers and the binding
//!   cells of the variables, kept as a trail that a failed attempt is
//!   rewound on.
//! - `rename`: renaming a clause apart before it is used.
//! - `unify`: unification, without occurs check.
//! - `derive`: the proof search.
//! - `resolve`: reading a term through the bindings.
//! - `parser`, `chars`: reading a line as an assertion or a question.
//! - `display`: writing terms and clauses as the parser reads them.
//! - `roundtrip`: what was written is read back as it was.
//!
//! Unification and derivation take a depth. Without an occurs check a
//! variable can be bound to a term that holds it, and a knowledge base can
//! send the search down an endless branch; the depth bounds how far terms
//! and proofs are followed, and `DepthExceeded` tells that the bound was
//! met. An outcome other than that is the same at every greater depth.

pub mod chars;
pub mod derive;
pub mod display;
pub mod error;
pub mod parser;
pub mod rename;
pub mod resolve;
pub mod roundtrip;
pub mod store;
pub mod term;
pub mod unify;
