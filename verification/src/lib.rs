//! Local graph-rewriting rules for ZX-calculus diagrams.
//!
//! Each rewrite rule comes as a triple: a read-only applicability check
//! `check_X`, an unchecked mutator `X_unchecked` whose precondition is exactly
//! what the check established, and a checked composition `X` that either
//! applies the rule and returns `true`, or leaves the diagram untouched and
//! returns `false`.

pub mod graph;
pub mod param;
pub mod phase;
pub mod rules;
pub mod scalar;

pub use graph::EType;
pub use graph::Graph;
pub use graph::V;
pub use graph::VData;
pub use graph::VType;
pub use param::Expr;
pub use param::Parity;
pub use phase::Phase;
pub use scalar::Scalar4;
