//! An alternative front-end AST, kept alongside [`crate::structures`]: the
//! same named source language, with the integer literal variant spelled
//! `Int`.

use vstd::prelude::*;

verus! {

/// A source-level identifier.
pub type Ident = String;

/// Named source expression.
#[derive(Debug)]
pub enum Expr {
    Id(Ident),
    Int(i64),
    App(Box<Expr>, Box<Expr>),
    Lam(Vec<Ident>, Box<Expr>),
}

/// A top-level definition; `body == None` declares a primitive.
#[derive(Debug)]
pub struct Def {
    pub name: Ident,
    pub params: Vec<Ident>,
    pub body: Option<Expr>,
}

/// An ordered sequence of definitions.
#[derive(Debug)]
pub struct Program {
    pub defs: Vec<Def>,
}

} // verus!
