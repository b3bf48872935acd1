//! The error taxonomy of the pipeline: structural input errors found while
//! anonymizing, pipeline contract violations, linking errors, and runtime
//! primitive errors.

use vstd::prelude::*;
use crate::structures::Ident;
use crate::structures::Name;

verus! {

/// Everything that can go wrong while compiling or reducing a program.
#[allow(inconsistent_fields)]
#[non_exhaustive]
#[derive(Debug)]
pub enum Error {
    /// Two top-level definitions share one name.
    TopLevelNameCollision { name: Ident },
    /// Two parameters of one definition share one name.
    ScParamNameCollision { def_name: Ident, param_name: Ident },
    /// An identifier is neither a bound variable, a parameter, nor a
    /// top-level name.
    UndefinedIdent { def_name: Ident, undefined_name: Ident },
    /// Lambda elimination found a lambda outside the allowed prefix of a
    /// definition body.
    UnexpectedLambda { def_name: Name },
    /// A strict primitive argument failed to reduce to a bare integer.
    UnexpectedPrimApp { prim_name: Ident, arg: String },
    /// A body-less definition has no matching host callback.
    UnknownPrimop { def_name: Ident },
    /// A host callback reported failure.
    PrimopFailure { def_name: Ident, arg: String },
    /// A body-less definition carries a generated name, so no callback can
    /// be looked up for it.
    UnnamedPrimop { def_no: usize },
    /// The step budget handed to the reducer ran out before a normal form
    /// was reached.
    OutOfFuel,
}

/// The mathematical shape of a [`Name`]: its characters, or its counter.
pub enum NameView {
    Named(Seq<char>),
    Unnamed(nat),
}

impl View for Name {
    type V = NameView;

    open spec fn view(&self) -> NameView {
        match *self {
            Name::Named(s) => NameView::Named(s@),
            Name::Unnamed(i) => NameView::Unnamed(i as nat),
        }
    }
}

/// The mathematical shape of an [`Error`]: the same taxonomy over character
/// sequences.  The free-text `arg` payloads are left out; contracts do not
/// constrain them.
#[allow(inconsistent_fields)]
pub enum ErrorView {
    TopLevelNameCollision { name: Seq<char> },
    ScParamNameCollision { def_name: Seq<char>, param_name: Seq<char> },
    UndefinedIdent { def_name: Seq<char>, undefined_name: Seq<char> },
    UnexpectedLambda { def_name: NameView },
    UnexpectedPrimApp { prim_name: Seq<char> },
    UnknownPrimop { def_name: Seq<char> },
    PrimopFailure { def_name: Seq<char> },
    UnnamedPrimop { def_no: nat },
    OutOfFuel,
}

impl View for Error {
    type V = ErrorView;

    open spec fn view(&self) -> ErrorView {
        match *self {
            Error::TopLevelNameCollision { name } => ErrorView::TopLevelNameCollision {
                name: name@,
            },
            Error::ScParamNameCollision { def_name, param_name } => ErrorView::ScParamNameCollision {
                def_name: def_name@,
                param_name: param_name@,
            },
            Error::UndefinedIdent { def_name, undefined_name } => ErrorView::UndefinedIdent {
                def_name: def_name@,
                undefined_name: undefined_name@,
            },
            Error::UnexpectedLambda { def_name } => ErrorView::UnexpectedLambda {
                def_name: def_name@,
            },
            Error::UnexpectedPrimApp { prim_name, arg: _ } => ErrorView::UnexpectedPrimApp {
                prim_name: prim_name@,
            },
            Error::UnknownPrimop { def_name } => ErrorView::UnknownPrimop { def_name: def_name@ },
            Error::PrimopFailure { def_name, arg: _ } => ErrorView::PrimopFailure {
                def_name: def_name@,
            },
            Error::UnnamedPrimop { def_no } => ErrorView::UnnamedPrimop { def_no: def_no as nat },
            Error::OutOfFuel => ErrorView::OutOfFuel,
        }
    }
}

} // verus!
