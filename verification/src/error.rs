//! Why a unification or a derivation did not succeed.

use vstd::prelude::*;
use vstd::string::StringExecFns;

verus! {

#[derive(Debug, Clone, Copy, PartialEq, Eq, Structural)]
pub enum DeriveError {
    /// Two predicates with different names.
    NameMismatch,
    /// Two argument lists of different lengths.
    ArityMismatch,
    /// Two terms of different kinds, such as a list and a predicate.
    TypeMismatch,
    /// No clause of the knowledge base proves the goal.
    NoMatchingClause,
    /// The search or the terms nest deeper than the given depth allows.
    DepthExceeded,
    /// No fresh identifiers are left to rename a clause.
    IdsExhausted,
}

impl DeriveError {
    /// Whether the error tells of a limit that was reached, rather than of
    /// terms that do not match or a goal that has no proof.
    pub open spec fn is_limit(self) -> bool {
        self == DeriveError::DepthExceeded || self == DeriveError::IdsExhausted
    }

    /// The words that tell of the error.
    pub open spec fn text(self) -> Seq<char> {
        match self {
            DeriveError::NameMismatch => "predicate name mismatch"@,
            DeriveError::ArityMismatch => "arity mismatch"@,
            DeriveError::TypeMismatch => "type mismatch"@,
            DeriveError::NoMatchingClause => "no matching clause"@,
            DeriveError::DepthExceeded => "depth exceeded"@,
            DeriveError::IdsExhausted => "identifiers exhausted"@,
        }
    }

    pub fn message(&self) -> (r: String)
        ensures
            r@ == self.text(),
    {
        match self {
            DeriveError::NameMismatch => String::from_str("predicate name mismatch"),
            DeriveError::ArityMismatch => String::from_str("arity mismatch"),
            DeriveError::TypeMismatch => String::from_str("type mismatch"),
            DeriveError::NoMatchingClause => String::from_str("no matching clause"),
            DeriveError::DepthExceeded => String::from_str("depth exceeded"),
            DeriveError::IdsExhausted => String::from_str("identifiers exhausted"),
        }
    }

    pub fn limit(&self) -> (r: bool)
        ensures
            r == self.is_limit(),
    {
        match self {
            DeriveError::DepthExceeded => true,
            DeriveError::IdsExhausted => true,
            _ => false,
        }
    }
}

} // verus!
