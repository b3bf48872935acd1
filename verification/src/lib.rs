//! A compiler and evaluator for a minimal untyped functional language of
//! combinators.  A source program is a list of named top-level definitions;
//! the pipeline anonymizes names into positional references, lifts inner
//! lambdas to fresh top-level definitions parameterized by their maximal
//! free expressions, eliminates the remaining top lambdas, compresses the
//! resulting supercombinator program, attaches host primitives, and finally
//! reduces a chosen entry point by normal-order tree reduction.

pub mod structures;

pub mod error;

pub mod syntax;

pub mod anonymize;

pub mod lambda_elim;

pub mod lambda_lift;

pub mod sc_compress;

pub mod sc_attach_prim;

pub mod tree_reducer;
