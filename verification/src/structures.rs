//! Core data types of the pipeline: the named source AST, the anonymized
//! AST with de Bruijn indices, the supercombinator AST, and the shapes a
//! program takes once host primitives are attached.

use vstd::prelude::*;

verus! {

/// A source-level identifier.
pub type Ident = String;

/// Named source expression: identifiers, integer literals, applications and
/// multi-parameter lambdas.
#[derive(Debug)]
pub enum Expr {
    Id(Ident),
    Prim(i64),
    App(Box<Expr>, Box<Expr>),
    Lam(Vec<Ident>, Box<Expr>),
}

/// A top-level definition. `body == None` declares a primitive whose arity
/// is `params.len()`.
#[derive(Debug)]
pub struct Def {
    pub name: Ident,
    pub params: Vec<Ident>,
    pub body: Option<Expr>,
}

/// An ordered sequence of definitions; the order assigns top-level indices.
#[derive(Debug)]
pub struct Program {
    pub defs: Vec<Def>,
}

/// Anonymized expression: names are gone, replaced by positional references.
/// `DefId` points into the program, `ArgId` into the enclosing definition's
/// parameters, and `DeBruijn` counts enclosing unary lambdas (0 = innermost).
#[derive(Debug)]
pub enum AnonExpr {
    DefId(usize),
    ArgId(usize),
    DeBruijn(usize),
    Prim(i64),
    App(Box<AnonExpr>, Box<AnonExpr>),
    Lam(Box<AnonExpr>),
}

/// The name of a definition after anonymization: user-given, or a counter
/// assigned to combinators created by lambda lifting.
#[derive(Debug, PartialEq, Eq, Hash)]
pub enum Name {
    Named(String),
    Unnamed(usize),
}

/// An anonymized definition; `params` is the arity of the outer
/// supercombinator, and the body may still contain nested lambdas until
/// lifting has run.
#[derive(Debug)]
pub struct AnonDef {
    pub name: Name,
    pub params: usize,
    pub body: Option<AnonExpr>,
}

/// A whole anonymized program.
#[derive(Debug)]
pub struct AnonProgram {
    pub defs: Vec<AnonDef>,
}

/// Supercombinator expression: as [`AnonExpr`] but with `DeBruijn` and `Lam`
/// removed by construction.
#[derive(Debug, PartialEq, Eq, Hash)]
pub enum ScExpr {
    DefId(usize),
    ArgId(usize),
    Prim(i64),
    App(Box<ScExpr>, Box<ScExpr>),
}

/// A supercombinator definition: lambda-free body, or `None` for a
/// primitive declaration.
#[derive(Debug)]
pub struct ScDef {
    pub name: Name,
    pub params: usize,
    pub body: Option<ScExpr>,
}

/// A supercombinator program.
#[derive(Debug)]
pub struct ScProgram {
    pub defs: Vec<ScDef>,
}

/// The head of an evaluation node: a supercombinator index or a bare
/// integer.
#[derive(Debug, Clone, Copy)]
pub enum Atom {
    Sc(usize),
    Prim(i64),
}

/// A host-provided primitive callback.  The reducer hands it the fully
/// evaluated integer arguments of one application together with the number
/// of definitions of the running program; any returned supercombinator
/// reference must point into that program.  A callback may be stateful and
/// may perform its own I/O.
pub trait Primop {
    fn call(&mut self, args: &Vec<i64>, num_defs: usize) -> (r: Option<Atom>)
        ensures
            (match r {
                Some(a) => atom_wf(a, num_defs as nat),
                None => true,
            }),
    ;
}

/// The body of a definition once primitives are attached: an ordinary
/// supercombinator body, or a host callback.
pub enum ScBody<P> {
    Body(ScExpr),
    Prim(P),
}

/// A definition with its primitive attached.
pub struct ScPrimDef<P> {
    pub name: Name,
    pub params: usize,
    pub body: ScBody<P>,
}

/// A runnable program: every body-less definition has been bound to a host
/// callback.
pub struct ScPrimProgram<P> {
    pub defs: Vec<ScPrimDef<P>>,
}

/// Whether an atom's supercombinator reference stays inside a program of
/// `ndefs` definitions.
pub open spec fn atom_wf(a: Atom, ndefs: nat) -> bool {
    match a {
        Atom::Sc(i) => i < ndefs,
        Atom::Prim(_) => true,
    }
}

/// Well-formedness of an anonymized expression: definition references stay
/// inside the program, argument references inside the parameter list, and
/// every de Bruijn index is covered by the lambdas above it plus `depth`.
pub open spec fn anon_expr_wf(e: AnonExpr, ndefs: nat, nparams: nat, depth: nat) -> bool
    decreases e,
{
    match e {
        AnonExpr::DefId(i) => i < ndefs,
        AnonExpr::ArgId(i) => i < nparams,
        AnonExpr::DeBruijn(i) => i < depth,
        AnonExpr::Prim(_) => true,
        AnonExpr::App(e1, e2) => anon_expr_wf(*e1, ndefs, nparams, depth) && anon_expr_wf(
            *e2,
            ndefs,
            nparams,
            depth,
        ),
        AnonExpr::Lam(e1) => anon_expr_wf(*e1, ndefs, nparams, depth + 1),
    }
}

/// Well-formedness of one anonymized definition within a program of `ndefs`
/// definitions.
pub open spec fn anon_def_wf(d: AnonDef, ndefs: nat) -> bool {
    match d.body {
        Some(b) => anon_expr_wf(b, ndefs, d.params as nat, 0),
        None => true,
    }
}

/// Well-formedness of a sequence of anonymized definitions.
pub open spec fn anon_defs_wf(defs: Seq<AnonDef>) -> bool {
    forall|i: int| 0 <= i < defs.len() ==> anon_def_wf(#[trigger] defs[i], defs.len())
}

/// Whether an anonymized expression contains no lambda at all.
pub open spec fn lam_free(e: AnonExpr) -> bool
    decreases e,
{
    match e {
        AnonExpr::App(e1, e2) => lam_free(*e1) && lam_free(*e2),
        AnonExpr::Lam(_) => false,
        _ => true,
    }
}

/// Whether an anonymized expression is a (possibly empty) prefix of lambdas
/// over a lambda-free expression, so that no lambda sits underneath an
/// application.
pub open spec fn lam_prefix_form(e: AnonExpr) -> bool
    decreases e,
{
    match e {
        AnonExpr::Lam(e1) => lam_prefix_form(*e1),
        _ => lam_free(e),
    }
}

/// Well-formedness of a supercombinator expression.
pub open spec fn sc_expr_wf(e: ScExpr, ndefs: nat, nparams: nat) -> bool
    decreases e,
{
    match e {
        ScExpr::DefId(i) => i < ndefs,
        ScExpr::ArgId(i) => i < nparams,
        ScExpr::Prim(_) => true,
        ScExpr::App(e1, e2) => sc_expr_wf(*e1, ndefs, nparams) && sc_expr_wf(*e2, ndefs, nparams),
    }
}

/// Well-formedness of one supercombinator definition.
pub open spec fn sc_def_wf(d: ScDef, ndefs: nat) -> bool {
    match d.body {
        Some(b) => sc_expr_wf(b, ndefs, d.params as nat),
        None => true,
    }
}

/// Well-formedness of a sequence of supercombinator definitions.
pub open spec fn sc_defs_wf(defs: Seq<ScDef>) -> bool {
    forall|i: int| 0 <= i < defs.len() ==> sc_def_wf(#[trigger] defs[i], defs.len())
}

impl Name {
    /// Whether this is a user-given name.
    pub open spec fn is_named(&self) -> bool {
        match *self {
            Name::Named(_) => true,
            Name::Unnamed(_) => false,
        }
    }
}

impl Clone for AnonExpr {
    /// A deep copy that provably preserves the value.
    fn clone(&self) -> (r: Self)
        ensures
            r == *self,
        decreases self,
    {
        match self {
            AnonExpr::DefId(i) => AnonExpr::DefId(*i),
            AnonExpr::ArgId(i) => AnonExpr::ArgId(*i),
            AnonExpr::DeBruijn(i) => AnonExpr::DeBruijn(*i),
            AnonExpr::Prim(n) => AnonExpr::Prim(*n),
            AnonExpr::App(e1, e2) => AnonExpr::App(Box::new((**e1).clone()), Box::new((**e2).clone())),
            AnonExpr::Lam(e1) => AnonExpr::Lam(Box::new((**e1).clone())),
        }
    }
}

impl ScExpr {
    /// A deep copy that provably preserves the value.
    pub fn duplicate(&self) -> (r: Self)
        ensures
            r == *self,
        decreases self,
    {
        match self {
            ScExpr::DefId(i) => ScExpr::DefId(*i),
            ScExpr::ArgId(i) => ScExpr::ArgId(*i),
            ScExpr::Prim(n) => ScExpr::Prim(*n),
            ScExpr::App(e1, e2) => ScExpr::App(Box::new(e1.duplicate()), Box::new(e2.duplicate())),
        }
    }

    /// Structural equality, usable from verified code.
    pub fn same_as(&self, other: &ScExpr) -> (r: bool)
        ensures
            r == (*self == *other),
        decreases self,
    {
        match (self, other) {
            (ScExpr::DefId(i), ScExpr::DefId(j)) => i == j,
            (ScExpr::ArgId(i), ScExpr::ArgId(j)) => i == j,
            (ScExpr::Prim(n), ScExpr::Prim(m)) => n == m,
            (ScExpr::App(a1, a2), ScExpr::App(b1, b2)) => a1.same_as(b1) && a2.same_as(b2),
            _ => false,
        }
    }
}

} // verus!
