//! Lambda lifting with maximal-free-expression extraction.  Every lambda
//! is replaced by a fresh top-level combinator applied to its maximal free
//! expressions: the largest subterms that use enclosing variables but not
//! the variable of the lambda being lifted.  Extracted subterms are
//! weakened (every de Bruijn index drops by one) because they move out of
//! one binder.
//!
//! A lambda body that does not mention its own variable at all but does
//! mention outer ones is extracted whole, so that every new combinator body
//! closes over its parameters alone.

use vstd::prelude::*;
use crate::structures::AnonDef;
use crate::structures::AnonExpr;
use crate::structures::AnonProgram;
use crate::structures::Ident;
use crate::structures::Name;
use crate::structures::anon_def_wf;
use crate::structures::anon_defs_wf;
use crate::structures::anon_expr_wf;
use crate::structures::lam_free;
use crate::structures::lam_prefix_form;
use crate::lambda_elim::count_lams;
use crate::lambda_elim::debruijn_closed;
use crate::lambda_elim::elim_defs_spec;
use crate::lambda_elim::strip_lams;
use crate::lambda_elim::to_sc_spec;

verus! {

/// A lambda body in mid-extraction: as [`AnonExpr`] without lambdas, plus
/// `MfeId`, a reference to an extracted maximal free expression.  `ArgId`
/// still refers to the enclosing definition's parameters.
#[derive(Debug)]
pub enum MfeExpr {
    DefId(usize),
    ArgId(usize),
    DeBruijn(usize),
    MfeId(usize),
    Prim(i64),
    App(Box<MfeExpr>, Box<MfeExpr>),
}

/// A definition in mid-extraction, kept alongside [`MfeExpr`].
#[derive(Debug)]
pub struct LiftDef {
    pub name: Ident,
    pub params: usize,
    pub body: Option<MfeExpr>,
}

/// A program of [`LiftDef`]s.
#[derive(Debug)]
pub struct LiftProgram {
    pub defs: Vec<LiftDef>,
}

/// Whether a subterm mentions the variable of the lambda being lifted
/// (`Bound`), only outer variables (`Free`), or no variable at all
/// (`NoVar`).
#[derive(Clone, Copy)]
pub enum VarState {
    NoVar,
    Free,
    Bound,
}

/// How many lambda nodes occur anywhere in the expression.
pub open spec fn count_all_lams(e: AnonExpr) -> nat
    decreases e,
{
    match e {
        AnonExpr::App(e1, e2) => count_all_lams(*e1) + count_all_lams(*e2),
        AnonExpr::Lam(e1) => 1 + count_all_lams(*e1),
        _ => 0,
    }
}

/// How many lambda nodes occur in all the bodies of a definition sequence.
pub open spec fn defs_lams(defs: Seq<AnonDef>) -> nat
    decreases defs.len(),
{
    if defs.len() == 0 {
        0
    } else {
        defs_lams(defs.drop_last()) + (match defs.last().body {
            Some(b) => count_all_lams(b),
            None => 0nat,
        })
    }
}

/// Well-formedness of a mid-extraction expression: each reference kind
/// stays below its bound.
spec fn mfe_wf(e: MfeExpr, ndefs: nat, nparams: nat, depth: nat, nmfe: nat) -> bool
    decreases e,
{
    match e {
        MfeExpr::DefId(i) => i < ndefs,
        MfeExpr::ArgId(i) => i < nparams,
        MfeExpr::DeBruijn(i) => i < depth,
        MfeExpr::MfeId(i) => i < nmfe,
        MfeExpr::Prim(_) => true,
        MfeExpr::App(e1, e2) => mfe_wf(*e1, ndefs, nparams, depth, nmfe) && mfe_wf(
            *e2,
            ndefs,
            nparams,
            depth,
            nmfe,
        ),
    }
}

/// Every de Bruijn index in `e` is at least `k`.
pub open spec fn mfe_db_at_least(e: MfeExpr, k: nat) -> bool
    decreases e,
{
    match e {
        MfeExpr::DeBruijn(i) => i >= k,
        MfeExpr::App(e1, e2) => mfe_db_at_least(*e1, k) && mfe_db_at_least(*e2, k),
        _ => true,
    }
}

/// Every de Bruijn index in `e` is below `k`.
pub open spec fn mfe_db_below(e: MfeExpr, k: nat) -> bool
    decreases e,
{
    match e {
        MfeExpr::DeBruijn(i) => i < k,
        MfeExpr::App(e1, e2) => mfe_db_below(*e1, k) && mfe_db_below(*e2, k),
        _ => true,
    }
}

/// `e` contains no `MfeId`.
pub open spec fn mfe_no_mfeid(e: MfeExpr) -> bool
    decreases e,
{
    match e {
        MfeExpr::MfeId(_) => false,
        MfeExpr::App(e1, e2) => mfe_no_mfeid(*e1) && mfe_no_mfeid(*e2),
        _ => true,
    }
}

/// `e` contains no `ArgId`.
spec fn mfe_no_argid(e: MfeExpr) -> bool
    decreases e,
{
    match e {
        MfeExpr::ArgId(_) => false,
        MfeExpr::App(e1, e2) => mfe_no_argid(*e1) && mfe_no_argid(*e2),
        _ => true,
    }
}

/// `e` with every de Bruijn index decreased by one.
pub open spec fn mfe_weaken_spec(e: MfeExpr) -> MfeExpr
    decreases e,
{
    match e {
        MfeExpr::DeBruijn(i) => MfeExpr::DeBruijn((i - 1) as usize),
        MfeExpr::App(e1, e2) => MfeExpr::App(
            Box::new(mfe_weaken_spec(*e1)),
            Box::new(mfe_weaken_spec(*e2)),
        ),
        _ => e,
    }
}

/// `e` read back as an anonymized expression: `MfeId(j)` becomes the new
/// combinator's argument `ArgId(j)`.
pub open spec fn mfe_to_anon_spec(e: MfeExpr) -> AnonExpr
    decreases e,
{
    match e {
        MfeExpr::DefId(i) => AnonExpr::DefId(i),
        MfeExpr::ArgId(i) => AnonExpr::ArgId(i),
        MfeExpr::DeBruijn(i) => AnonExpr::DeBruijn(i),
        MfeExpr::MfeId(i) => AnonExpr::ArgId(i),
        MfeExpr::Prim(n) => AnonExpr::Prim(n),
        MfeExpr::App(e1, e2) => AnonExpr::App(
            Box::new(mfe_to_anon_spec(*e1)),
            Box::new(mfe_to_anon_spec(*e2)),
        ),
    }
}

/// What extraction computes for one lambda-free lambda body: the
/// rewritten expression, its classification, and the accumulator of
/// maximal free expressions after appending the ones extracted here.  A
/// free-and-bound application extracts its free side, weakened by one
/// binder; every other combination only propagates the classification of
/// the sides.  (The `Lam` arm is arbitrary: extraction is only applied to
/// lambda-free expressions.)
pub open spec fn extract_spec(e: AnonExpr, acc: Seq<AnonExpr>) -> (MfeExpr, VarState, Seq<
    AnonExpr,
>)
    decreases e,
{
    match e {
        AnonExpr::DefId(i) => (MfeExpr::DefId(i), VarState::NoVar, acc),
        AnonExpr::Prim(n) => (MfeExpr::Prim(n), VarState::NoVar, acc),
        AnonExpr::ArgId(i) => (MfeExpr::ArgId(i), VarState::Free, acc),
        AnonExpr::DeBruijn(i) => if i == 0 {
            (MfeExpr::DeBruijn(i), VarState::Bound, acc)
        } else {
            (MfeExpr::DeBruijn(i), VarState::Free, acc)
        },
        AnonExpr::App(e1, e2) => {
            let (m1, s1, a1) = extract_spec(*e1, acc);
            let (m2, s2, a2) = extract_spec(*e2, a1);
            match (s1, s2) {
                (VarState::NoVar, VarState::NoVar) => (
                    MfeExpr::App(Box::new(m1), Box::new(m2)),
                    VarState::NoVar,
                    a2,
                ),
                (VarState::NoVar, VarState::Free)
                | (VarState::Free, VarState::NoVar)
                | (VarState::Free, VarState::Free) => (
                    MfeExpr::App(Box::new(m1), Box::new(m2)),
                    VarState::Free,
                    a2,
                ),
                (VarState::NoVar, VarState::Bound)
                | (VarState::Bound, VarState::NoVar)
                | (VarState::Bound, VarState::Bound) => (
                    MfeExpr::App(Box::new(m1), Box::new(m2)),
                    VarState::Bound,
                    a2,
                ),
                (VarState::Free, VarState::Bound) => (
                    MfeExpr::App(Box::new(MfeExpr::MfeId(a2.len() as usize)), Box::new(m2)),
                    VarState::Bound,
                    a2.push(mfe_to_anon_spec(mfe_weaken_spec(m1))),
                ),
                (VarState::Bound, VarState::Free) => (
                    MfeExpr::App(Box::new(m1), Box::new(MfeExpr::MfeId(a2.len() as usize))),
                    VarState::Bound,
                    a2.push(mfe_to_anon_spec(mfe_weaken_spec(m2))),
                ),
            }
        },
        AnonExpr::Lam(_) => (MfeExpr::Prim(0), VarState::NoVar, acc),
    }
}

/// What lifting computes for one expression: the rewritten expression and
/// the emitted combinators, numbered from `next`.  Every lambda becomes a
/// fresh combinator — over its extracted maximal free expressions, or over
/// its whole body when that body never uses the lambda's own variable but
/// does use outer ones — applied to those expressions at the lambda's old
/// position.
pub open spec fn lift_spec(e: AnonExpr, next: nat) -> (AnonExpr, Seq<AnonDef>)
    decreases e,
{
    match e {
        AnonExpr::App(e1, e2) => {
            let (f1, d1) = lift_spec(*e1, next);
            let (f2, d2) = lift_spec(*e2, next + d1.len());
            (AnonExpr::App(Box::new(f1), Box::new(f2)), d1 + d2)
        },
        AnonExpr::Lam(e1) => {
            let (f, d) = lift_spec(*e1, next);
            let (m, st, mfes0) = extract_spec(f, Seq::empty());
            let (m2, mfes) = (match st {
                VarState::Free => (
                    MfeExpr::MfeId(mfes0.len() as usize),
                    mfes0.push(mfe_to_anon_spec(mfe_weaken_spec(m))),
                ),
                _ => (m, mfes0),
            });
            let cur = next + d.len();
            let newdef = AnonDef {
                name: Name::Unnamed(cur as usize),
                params: mfes.len() as usize,
                body: Some(AnonExpr::Lam(Box::new(mfe_to_anon_spec(m2)))),
            };
            (apply_args_spec(AnonExpr::DefId(cur as usize), mfes), d.push(newdef))
        },
        _ => (e, Seq::empty()),
    }
}

/// What lifting computes for one definition: the body is lifted, the name,
/// arity and primitive-ness are kept.
pub open spec fn lift_def_spec(d: AnonDef, next: nat) -> (AnonDef, Seq<AnonDef>) {
    match d.body {
        None => (AnonDef { name: d.name, params: d.params, body: None }, Seq::empty()),
        Some(b) => {
            let (b2, ds) = lift_spec(b, next);
            (AnonDef { name: d.name, params: d.params, body: Some(b2) }, ds)
        },
    }
}

/// What lifting computes for a definition sequence: each definition in
/// turn, threading the next free combinator number through, collecting the
/// emitted combinators.
pub open spec fn lift_defs_spec(defs: Seq<AnonDef>, next: nat) -> (Seq<AnonDef>, Seq<AnonDef>)
    decreases defs.len(),
{
    if defs.len() == 0 {
        (Seq::empty(), Seq::empty())
    } else {
        let (ts, es) = lift_defs_spec(defs.drop_last(), next);
        let (t, e) = lift_def_spec(defs.last(), next + es.len());
        (ts.push(t), es + e)
    }
}

/// What lifting computes for a whole program: the rewritten definitions
/// followed by every emitted combinator, numbered from the original
/// program's length.
pub open spec fn lift_program_spec(defs: Seq<AnonDef>) -> Seq<AnonDef> {
    let (ts, es) = lift_defs_spec(defs, defs.len() as nat);
    ts + es
}

/// The shape every combinator created by lifting has: a generated name
/// equal to its index, and a body of exactly one lambda over a lambda-free
/// expression.
pub open spec fn new_def_shape_ok(d: AnonDef, id: nat) -> bool {
    &&& d.name == Name::Unnamed(id as usize)
    &&& (d.body matches Some(b) && count_lams(b) == 1 && lam_prefix_form(b))
}

/// Everything `AnonExpr::lambda_lift` guarantees: the rewritten expression
/// is lambda-free, one combinator is emitted per lambda, the emitted
/// combinators are numbered consecutively from `next`, and, whenever the
/// input was well formed in some context, the outputs are well formed in
/// that context extended with the new combinators.
pub open spec fn lift_out_ok(orig: AnonExpr, next: nat, r_e: AnonExpr, r_defs: Seq<AnonDef>) -> bool {
    &&& lam_free(r_e)
    &&& r_defs.len() == count_all_lams(orig)
    &&& (forall|k: int| 0 <= k < r_defs.len() ==> new_def_shape_ok(#[trigger] r_defs[k], (next + k) as nat))
    &&& (forall|nd: nat, np: nat, dep: nat|
        (#[trigger] anon_expr_wf(orig, nd, np, dep)) && nd <= next ==> {
            &&& anon_expr_wf(r_e, (next + r_defs.len()) as nat, np, dep)
            &&& (forall|k: int|
                0 <= k < r_defs.len() ==> anon_def_wf(
                    #[trigger] r_defs[k],
                    (next + r_defs.len()) as nat,
                ))
        })
}

proof fn lemma_anon_wf_mono(e: AnonExpr, nd: nat, np: nat, dep: nat, nd2: nat, dep2: nat)
    requires
        anon_expr_wf(e, nd, np, dep),
        nd <= nd2,
        dep <= dep2,
    ensures
        anon_expr_wf(e, nd2, np, dep2),
    decreases e,
{
    match e {
        AnonExpr::App(e1, e2) => {
            lemma_anon_wf_mono(*e1, nd, np, dep, nd2, dep2);
            lemma_anon_wf_mono(*e2, nd, np, dep, nd2, dep2);
        },
        AnonExpr::Lam(e1) => {
            lemma_anon_wf_mono(*e1, nd, np, dep + 1, nd2, dep2 + 1);
        },
        _ => {},
    }
}

proof fn lemma_mfe_db_below_mono(e: MfeExpr, k1: nat, k2: nat)
    requires
        mfe_db_below(e, k1),
        k1 <= k2,
    ensures
        mfe_db_below(e, k2),
    decreases e,
{
    match e {
        MfeExpr::App(e1, e2) => {
            lemma_mfe_db_below_mono(*e1, k1, k2);
            lemma_mfe_db_below_mono(*e2, k1, k2);
        },
        _ => {},
    }
}

proof fn lemma_mfe_no_db_at_least(e: MfeExpr, k: nat)
    requires
        mfe_db_below(e, 0),
    ensures
        mfe_db_at_least(e, k),
    decreases e,
{
    match e {
        MfeExpr::App(e1, e2) => {
            lemma_mfe_no_db_at_least(*e1, k);
            lemma_mfe_no_db_at_least(*e2, k);
        },
        _ => {},
    }
}

proof fn lemma_mfe_wf_mono(e: MfeExpr, nd: nat, np: nat, dep: nat, nm: nat, nm2: nat)
    requires
        mfe_wf(e, nd, np, dep, nm),
        nm <= nm2,
    ensures
        mfe_wf(e, nd, np, dep, nm2),
    decreases e,
{
    match e {
        MfeExpr::App(e1, e2) => {
            lemma_mfe_wf_mono(*e1, nd, np, dep, nm, nm2);
            lemma_mfe_wf_mono(*e2, nd, np, dep, nm, nm2);
        },
        _ => {},
    }
}

proof fn lemma_weaken_wf(e: MfeExpr, nd: nat, np: nat, dep: nat, nm: nat)
    requires
        mfe_wf(e, nd, np, dep, nm),
        mfe_db_at_least(e, 1),
        dep >= 1,
    ensures
        mfe_wf(mfe_weaken_spec(e), nd, np, (dep - 1) as nat, nm),
        mfe_no_mfeid(e) ==> mfe_no_mfeid(mfe_weaken_spec(e)),
    decreases e,
{
    match e {
        MfeExpr::App(e1, e2) => {
            lemma_weaken_wf(*e1, nd, np, dep, nm);
            lemma_weaken_wf(*e2, nd, np, dep, nm);
        },
        _ => {},
    }
}

proof fn lemma_mfe_to_anon_wf(e: MfeExpr, nd: nat, np: nat, dep: nat, nm: nat)
    requires
        mfe_wf(e, nd, np, dep, nm),
        mfe_no_mfeid(e),
    ensures
        anon_expr_wf(mfe_to_anon_spec(e), nd, np, dep),
    decreases e,
{
    match e {
        MfeExpr::App(e1, e2) => {
            lemma_mfe_to_anon_wf(*e1, nd, np, dep, nm);
            lemma_mfe_to_anon_wf(*e2, nd, np, dep, nm);
        },
        _ => {},
    }
}

proof fn lemma_mfe_to_anon_wf_body(e: MfeExpr, total: nat, np: nat, dep: nat, nparams: nat)
    requires
        mfe_wf(e, total, np, dep, nparams),
        mfe_no_argid(e),
        mfe_db_below(e, 1),
    ensures
        anon_expr_wf(mfe_to_anon_spec(e), total, nparams, 1),
    decreases e,
{
    match e {
        MfeExpr::App(e1, e2) => {
            lemma_mfe_to_anon_wf_body(*e1, total, np, dep, nparams);
            lemma_mfe_to_anon_wf_body(*e2, total, np, dep, nparams);
        },
        _ => {},
    }
}

proof fn lemma_mfe_to_anon_lam_free(e: MfeExpr)
    ensures
        lam_free(mfe_to_anon_spec(e)),
    decreases e,
{
    match e {
        MfeExpr::App(e1, e2) => {
            lemma_mfe_to_anon_lam_free(*e1);
            lemma_mfe_to_anon_lam_free(*e2);
        },
        _ => {},
    }
}

impl MfeExpr {
    fn weaken(self) -> (r: MfeExpr)
        requires
            mfe_db_at_least(self, 1),
        ensures
            r == mfe_weaken_spec(self),
        decreases self,
    {
        match self {
            MfeExpr::DeBruijn(i) => MfeExpr::DeBruijn(i - 1),
            MfeExpr::App(e1, e2) => MfeExpr::App(
                Box::new((*e1).weaken()),
                Box::new((*e2).weaken()),
            ),
            other => other,
        }
    }

    fn into_anon(self) -> (r: AnonExpr)
        ensures
            r == mfe_to_anon_spec(self),
        decreases self,
    {
        match self {
            MfeExpr::DefId(i) => AnonExpr::DefId(i),
            MfeExpr::ArgId(i) => AnonExpr::ArgId(i),
            MfeExpr::DeBruijn(i) => AnonExpr::DeBruijn(i),
            MfeExpr::MfeId(i) => AnonExpr::ArgId(i),
            MfeExpr::Prim(n) => AnonExpr::Prim(n),
            MfeExpr::App(e1, e2) => AnonExpr::App(
                Box::new((*e1).into_anon()),
                Box::new((*e2).into_anon()),
            ),
        }
    }
}

impl AnonExpr {
    fn extract_mfe(self, args: &mut Vec<AnonExpr>) -> (r: (MfeExpr, VarState))
        requires
            lam_free(self),
        ensures
            r.0 == extract_spec(self, old(args)@).0,
            r.1 == extract_spec(self, old(args)@).1,
            final(args)@ == extract_spec(self, old(args)@).2,
            old(args)@.is_prefix_of(final(args)@),
            (match r.1 {
                VarState::NoVar => {
                    &&& final(args)@ == old(args)@
                    &&& mfe_no_argid(r.0)
                    &&& mfe_db_below(r.0, 0)
                    &&& mfe_no_mfeid(r.0)
                },
                VarState::Free => {
                    &&& final(args)@ == old(args)@
                    &&& mfe_db_at_least(r.0, 1)
                    &&& mfe_no_mfeid(r.0)
                },
                VarState::Bound => {
                    &&& mfe_no_argid(r.0)
                    &&& mfe_db_below(r.0, 1)
                },
            }),
            (forall|k: int|
                old(args)@.len() <= k < final(args)@.len() ==> lam_free(
                    #[trigger] final(args)@[k],
                )),
            (forall|nd: nat, np: nat, dep: nat|
                (#[trigger] anon_expr_wf(self, nd, np, dep)) && dep >= 1 ==> {
                    &&& mfe_wf(r.0, nd, np, dep, final(args)@.len() as nat)
                    &&& (forall|k: int|
                        old(args)@.len() <= k < final(args)@.len() ==> anon_expr_wf(
                            #[trigger] final(args)@[k],
                            nd,
                            np,
                            (dep - 1) as nat,
                        ))
                }),
        decreases self,
    {
        match self {
            AnonExpr::DefId(i) => (MfeExpr::DefId(i), VarState::NoVar),
            AnonExpr::Prim(n) => (MfeExpr::Prim(n), VarState::NoVar),
            AnonExpr::ArgId(i) => (MfeExpr::ArgId(i), VarState::Free),
            AnonExpr::DeBruijn(i) => {
                if i == 0 {
                    (MfeExpr::DeBruijn(i), VarState::Bound)
                } else {
                    (MfeExpr::DeBruijn(i), VarState::Free)
                }
            },
            AnonExpr::App(e1, e2) => {
                proof {
                    assert(self == AnonExpr::App(e1, e2));
                }
                let ghost pre = args@;
                let (m1, s1) = (*e1).extract_mfe(args);
                let ghost mid = args@;
                let (m2, s2) = (*e2).extract_mfe(args);
                let ghost post = args@;
                proof {
                    assert forall|nd: nat, np: nat, dep: nat|
                        (#[trigger] anon_expr_wf(self, nd, np, dep)) && dep >= 1 implies {
                        &&& mfe_wf(m1, nd, np, dep, post.len() as nat)
                        &&& mfe_wf(m2, nd, np, dep, post.len() as nat)
                        &&& (forall|k: int|
                            pre.len() <= k < post.len() ==> anon_expr_wf(
                                #[trigger] post[k],
                                nd,
                                np,
                                (dep - 1) as nat,
                            ))
                    } by {
                        assert(anon_expr_wf(*e1, nd, np, dep));
                        assert(anon_expr_wf(*e2, nd, np, dep));
                        lemma_mfe_wf_mono(m1, nd, np, dep, mid.len() as nat, post.len() as nat);
                        assert(mid =~= post.take(mid.len() as int));
                        assert forall|k: int|
                            pre.len() <= k < post.len() implies anon_expr_wf(
                            #[trigger] post[k],
                            nd,
                            np,
                            (dep - 1) as nat,
                        ) by {
                            if k < mid.len() {
                                assert(mid =~= post.take(mid.len() as int));
                                assert(post[k] == mid[k]);
                            }
                        }
                    }
                }
                proof {
                    assert forall|k: int|
                        pre.len() <= k < post.len() implies lam_free(#[trigger] post[k]) by {
                        if k < mid.len() {
                            assert(mid =~= post.take(mid.len() as int));
                            assert(post[k] == mid[k]);
                        }
                    }
                    match s1 {
                        VarState::NoVar => {
                            lemma_mfe_no_db_at_least(m1, 1);
                            lemma_mfe_db_below_mono(m1, 0, 1);
                        },
                        _ => {},
                    }
                    match s2 {
                        VarState::NoVar => {
                            lemma_mfe_no_db_at_least(m2, 1);
                            lemma_mfe_db_below_mono(m2, 0, 1);
                        },
                        _ => {},
                    }
                }
                match (s1, s2) {
                    (VarState::NoVar, VarState::NoVar) => {
                        (MfeExpr::App(Box::new(m1), Box::new(m2)), VarState::NoVar)
                    },
                    (VarState::NoVar, VarState::Free)
                    | (VarState::Free, VarState::NoVar)
                    | (VarState::Free, VarState::Free) => {
                        (MfeExpr::App(Box::new(m1), Box::new(m2)), VarState::Free)
                    },
                    (VarState::NoVar, VarState::Bound)
                    | (VarState::Bound, VarState::NoVar)
                    | (VarState::Bound, VarState::Bound) => {
                        (MfeExpr::App(Box::new(m1), Box::new(m2)), VarState::Bound)
                    },
                    (VarState::Free, VarState::Bound) => {
                        let j = args.len();
                        let w = m1.weaken();
                        let pushed = w.into_anon();
                        args.push(pushed);
                        let ghost fin = args@;
                        proof {
                            assert(fin =~= post.push(pushed));
                            assert(j == post.len());
                            assert(fin.len() == post.len() + 1);
                            assert(mfe_no_argid(MfeExpr::MfeId(j)));
                            assert(mfe_db_below(MfeExpr::MfeId(j), 1));
                            lemma_mfe_to_anon_lam_free(w);
                            assert forall|k: int|
                                pre.len() <= k < fin.len() implies lam_free(#[trigger] fin[k]) by {
                                if k < post.len() {
                                    assert(fin[k] == post[k]);
                                } else {
                                    assert(fin[k] == pushed);
                                }
                            }
                            assert forall|nd: nat, np: nat, dep: nat|
                                (#[trigger] anon_expr_wf(self, nd, np, dep)) && dep >= 1 implies {
                                &&& mfe_wf(
                                    MfeExpr::App(Box::new(MfeExpr::MfeId(j)), Box::new(m2)),
                                    nd,
                                    np,
                                    dep,
                                    fin.len() as nat,
                                )
                                &&& (forall|k: int|
                                    pre.len() <= k < fin.len() ==> anon_expr_wf(
                                        #[trigger] fin[k],
                                        nd,
                                        np,
                                        (dep - 1) as nat,
                                    ))
                            } by {
                                assert(anon_expr_wf(self, nd, np, dep));
                                assert(mfe_wf(MfeExpr::MfeId(j), nd, np, dep, fin.len() as nat));
                                assert(mfe_wf(m1, nd, np, dep, post.len() as nat));
                                lemma_weaken_wf(m1, nd, np, dep, post.len() as nat);
                                lemma_mfe_to_anon_wf(
                                    mfe_weaken_spec(m1),
                                    nd,
                                    np,
                                    (dep - 1) as nat,
                                    post.len() as nat,
                                );
                                lemma_mfe_wf_mono(m2, nd, np, dep, post.len() as nat, fin.len() as nat);
                                assert forall|k: int|
                                    pre.len() <= k < fin.len() implies anon_expr_wf(
                                    #[trigger] fin[k],
                                    nd,
                                    np,
                                    (dep - 1) as nat,
                                ) by {
                                    if k < post.len() {
                                        assert(fin[k] == post[k]);
                                    } else {
                                        assert(fin[k] == pushed);
                                    }
                                }
                            }
                        }
                        (
                            MfeExpr::App(Box::new(MfeExpr::MfeId(j)), Box::new(m2)),
                            VarState::Bound,
                        )
                    },
                    (VarState::Bound, VarState::Free) => {
                        let j = args.len();
                        let w = m2.weaken();
                        let pushed = w.into_anon();
                        args.push(pushed);
                        let ghost fin = args@;
                        proof {
                            assert(fin =~= post.push(pushed));
                            assert(j == post.len());
                            assert(fin.len() == post.len() + 1);
                            assert(mfe_no_argid(MfeExpr::MfeId(j)));
                            assert(mfe_db_below(MfeExpr::MfeId(j), 1));
                            lemma_mfe_to_anon_lam_free(w);
                            assert forall|k: int|
                                pre.len() <= k < fin.len() implies lam_free(#[trigger] fin[k]) by {
                                if k < post.len() {
                                    assert(fin[k] == post[k]);
                                } else {
                                    assert(fin[k] == pushed);
                                }
                            }
                            assert forall|nd: nat, np: nat, dep: nat|
                                (#[trigger] anon_expr_wf(self, nd, np, dep)) && dep >= 1 implies {
                                &&& mfe_wf(
                                    MfeExpr::App(Box::new(m1), Box::new(MfeExpr::MfeId(j))),
                                    nd,
                                    np,
                                    dep,
                                    fin.len() as nat,
                                )
                                &&& (forall|k: int|
                                    pre.len() <= k < fin.len() ==> anon_expr_wf(
                                        #[trigger] fin[k],
                                        nd,
                                        np,
                                        (dep - 1) as nat,
                                    ))
                            } by {
                                assert(anon_expr_wf(self, nd, np, dep));
                                assert(mfe_wf(MfeExpr::MfeId(j), nd, np, dep, fin.len() as nat));
                                assert(mfe_wf(m2, nd, np, dep, post.len() as nat));
                                lemma_weaken_wf(m2, nd, np, dep, post.len() as nat);
                                lemma_mfe_to_anon_wf(
                                    mfe_weaken_spec(m2),
                                    nd,
                                    np,
                                    (dep - 1) as nat,
                                    post.len() as nat,
                                );
                                lemma_mfe_wf_mono(m1, nd, np, dep, post.len() as nat, fin.len() as nat);
                                assert forall|k: int|
                                    pre.len() <= k < fin.len() implies anon_expr_wf(
                                    #[trigger] fin[k],
                                    nd,
                                    np,
                                    (dep - 1) as nat,
                                ) by {
                                    if k < post.len() {
                                        assert(fin[k] == post[k]);
                                    } else {
                                        assert(fin[k] == pushed);
                                    }
                                }
                            }
                        }
                        (
                            MfeExpr::App(Box::new(m1), Box::new(MfeExpr::MfeId(j))),
                            VarState::Bound,
                        )
                    },
                }
            },
            AnonExpr::Lam(_) => {
                proof {
                    assert(false);
                }
                vstd::pervasive::unreached()
            },
        }
    }
}

/// `head` applied to every expression of `s`, left to right.
pub open spec fn apply_args_spec(head: AnonExpr, s: Seq<AnonExpr>) -> AnonExpr
    decreases s.len(),
{
    if s.len() == 0 {
        head
    } else {
        AnonExpr::App(Box::new(apply_args_spec(head, s.drop_last())), Box::new(s.last()))
    }
}

proof fn lemma_apply_args_lam_free(head: AnonExpr, s: Seq<AnonExpr>)
    requires
        lam_free(head),
        forall|k: int| 0 <= k < s.len() ==> lam_free(#[trigger] s[k]),
    ensures
        lam_free(apply_args_spec(head, s)),
    decreases s.len(),
{
    if s.len() > 0 {
        lemma_apply_args_lam_free(head, s.drop_last());
    }
}

proof fn lemma_apply_args_wf(head: AnonExpr, s: Seq<AnonExpr>, nd: nat, np: nat, dep: nat)
    requires
        anon_expr_wf(head, nd, np, dep),
        forall|k: int| 0 <= k < s.len() ==> anon_expr_wf(#[trigger] s[k], nd, np, dep),
    ensures
        anon_expr_wf(apply_args_spec(head, s), nd, np, dep),
    decreases s.len(),
{
    if s.len() > 0 {
        lemma_apply_args_wf(head, s.drop_last(), nd, np, dep);
    }
}

fn apply_args(head: AnonExpr, mfes: Vec<AnonExpr>) -> (r: AnonExpr)
    ensures
        r == apply_args_spec(head, mfes@),
{
    let ghost mseq = mfes@;
    let mut cur = head;
    let mut rest = mfes;
    let ghost done = 0int;
    proof {
        assert(mseq.take(0) =~= Seq::<AnonExpr>::empty());
        assert(mseq.skip(0) =~= rest@);
    }
    while rest.len() > 0
        invariant
            0 <= done <= mseq.len(),
            done + rest@.len() == mseq.len(),
            mseq.skip(done) =~= rest@,
            cur == apply_args_spec(head, mseq.take(done)),
        decreases rest@.len(),
    {
        let m = rest.remove(0);
        proof {
            assert(mseq[done] == m);
            assert(mseq.take(done + 1).drop_last() =~= mseq.take(done));
            assert(mseq.take(done + 1).last() == mseq[done]);
        }
        cur = AnonExpr::App(Box::new(cur), Box::new(m));
        proof {
            done = done + 1;
            assert(mseq.skip(done) =~= rest@);
        }
    }
    proof {
        assert(mseq.take(done) =~= mseq);
    }
    cur
}

impl AnonExpr {
    /// Replaces every lambda in the expression by a fresh combinator
    /// applied to its maximal free expressions.  The combinators are
    /// returned alongside, numbered consecutively from `next_def_id`.
    pub fn lambda_lift(self, next_def_id: usize) -> (r: (AnonExpr, Vec<AnonDef>))
        requires
            next_def_id + count_all_lams(self) <= usize::MAX,
        ensures
            r.0 == lift_spec(self, next_def_id as nat).0,
            r.1@ == lift_spec(self, next_def_id as nat).1,
            lift_out_ok(self, next_def_id as nat, r.0, r.1@),
        decreases self,
    {
        match self {
            AnonExpr::DefId(i) => {
                proof {
                    assert forall|nd: nat, np: nat, dep: nat|
                        (#[trigger] anon_expr_wf(self, nd, np, dep)) && nd <= next_def_id
                        implies anon_expr_wf(self, next_def_id as nat, np, dep) by {
                        lemma_anon_wf_mono(self, nd, np, dep, next_def_id as nat, dep);
                    }
                }
                (AnonExpr::DefId(i), Vec::new())
            },
            AnonExpr::ArgId(i) => (AnonExpr::ArgId(i), Vec::new()),
            AnonExpr::DeBruijn(i) => (AnonExpr::DeBruijn(i), Vec::new()),
            AnonExpr::Prim(n) => (AnonExpr::Prim(n), Vec::new()),
            AnonExpr::App(e1, e2) => {
                proof {
                    assert(self == AnonExpr::App(e1, e2));
                }
                let (f1, mut defs1) = (*e1).lambda_lift(next_def_id);
                let n1 = defs1.len();
                let ghost d1 = defs1@;
                let (f2, mut defs2) = (*e2).lambda_lift(next_def_id + n1);
                let ghost d2 = defs2@;
                defs1.append(&mut defs2);
                let ghost dall = defs1@;
                let out = AnonExpr::App(Box::new(f1), Box::new(f2));
                proof {
                    assert(dall =~= d1 + d2);
                    let next = next_def_id as nat;
                    let total = (next + dall.len()) as nat;
                    assert forall|k: int| 0 <= k < dall.len() implies new_def_shape_ok(
                        #[trigger] dall[k],
                        (next + k) as nat,
                    ) by {
                        if k < d1.len() {
                            assert(dall[k] == d1[k]);
                        } else {
                            assert(dall[k] == d2[k - d1.len()]);
                        }
                    }
                    assert forall|nd: nat, np: nat, dep: nat|
                        (#[trigger] anon_expr_wf(self, nd, np, dep)) && nd <= next_def_id
                        implies {
                        &&& anon_expr_wf(out, total, np, dep)
                        &&& (forall|k: int|
                            0 <= k < dall.len() ==> anon_def_wf(#[trigger] dall[k], total))
                    } by {
                        assert(anon_expr_wf(*e1, nd, np, dep));
                        assert(anon_expr_wf(*e2, nd, np, dep));
                        lemma_anon_wf_mono(
                            f1,
                            (next + d1.len()) as nat,
                            np,
                            dep,
                            total,
                            dep,
                        );
                        assert forall|k: int| 0 <= k < dall.len() implies anon_def_wf(
                            #[trigger] dall[k],
                            total,
                        ) by {
                            if k < d1.len() {
                                assert(dall[k] == d1[k]);
                                assert(anon_def_wf(d1[k], (next + d1.len()) as nat));
                                lemma_anon_def_wf_mono(d1[k], (next + d1.len()) as nat, total);
                            } else {
                                assert(dall[k] == d2[k - d1.len()]);
                            }
                        }
                    }
                }
                (out, defs1)
            },
            AnonExpr::Lam(e1) => {
                proof {
                    assert(self == AnonExpr::Lam(e1));
                }
                let (f, mut defs) = (*e1).lambda_lift(next_def_id);
                let ghost dseq = defs@;
                let mut mfes: Vec<AnonExpr> = Vec::new();
                let (m, st) = f.extract_mfe(&mut mfes);
                let ghost m_pre = mfes@;
                let m2 = match st {
                    VarState::Free => {
                        let j = mfes.len();
                        let w = m.weaken();
                        let pushed = w.into_anon();
                        proof {
                            lemma_mfe_to_anon_lam_free(w);
                        }
                        mfes.push(pushed);
                        MfeExpr::MfeId(j)
                    },
                    _ => m,
                };
                let ghost m_fin = mfes@;
                let cur_def_id = next_def_id + defs.len();
                let body_inner = m2.into_anon();
                proof {
                    lemma_mfe_to_anon_lam_free(m2);
                }
                let new_def = AnonDef {
                    name: Name::Unnamed(cur_def_id),
                    params: mfes.len(),
                    body: Some(AnonExpr::Lam(Box::new(body_inner))),
                };
                defs.push(new_def);
                let ghost dall = defs@;
                let new_e = apply_args(AnonExpr::DefId(cur_def_id), mfes);
                proof {
                    let next = next_def_id as nat;
                    let total = (next + dall.len()) as nat;
                    assert(dall =~= dseq.push(new_def));
                    assert(lam_free(body_inner));
                    lemma_lam_free_count0(body_inner);
                    assert(count_lams(AnonExpr::Lam(Box::new(body_inner))) == 1 + count_lams(
                        body_inner,
                    ));
                    assert(lam_prefix_form(AnonExpr::Lam(Box::new(body_inner))));
                    assert forall|k: int| 0 <= k < dall.len() implies new_def_shape_ok(
                        #[trigger] dall[k],
                        (next + k) as nat,
                    ) by {
                        if k < dseq.len() {
                            assert(dall[k] == dseq[k]);
                        } else {
                            assert(dall[k] == new_def);
                        }
                    }
                    assert forall|k: int| 0 <= k < m_fin.len() implies lam_free(
                        #[trigger] m_fin[k],
                    ) by {
                        if k < m_pre.len() {
                            assert(m_fin[k] == m_pre[k]);
                        }
                    }
                    lemma_apply_args_lam_free(AnonExpr::DefId(cur_def_id), m_fin);
                    assert forall|nd: nat, np: nat, dep: nat|
                        (#[trigger] anon_expr_wf(self, nd, np, dep)) && nd <= next_def_id
                        implies {
                        &&& anon_expr_wf(new_e, total, np, dep)
                        &&& (forall|k: int|
                            0 <= k < dall.len() ==> anon_def_wf(#[trigger] dall[k], total))
                    } by {
                        assert(anon_expr_wf(*e1, nd, np, dep + 1));
                        let mid_total = (next + dseq.len()) as nat;
                        assert(anon_expr_wf(f, mid_total, np, dep + 1));
                        assert(mfe_wf(m, mid_total, np, dep + 1, m_pre.len() as nat));
                        // the final shape of the extraction result
                        let nparams = m_fin.len() as nat;
                        assert(mfe_wf(m2, mid_total, np, dep + 1, nparams) && mfe_no_argid(m2)
                            && mfe_db_below(m2, 1)) by {
                            match st {
                                VarState::Free => {
                                    assert(m2 == MfeExpr::MfeId(m_pre.len() as usize));
                                },
                                VarState::NoVar => {
                                    lemma_mfe_db_below_mono(m, 0, 1);
                                    lemma_mfe_wf_mono(
                                        m,
                                        mid_total,
                                        np,
                                        dep + 1,
                                        m_pre.len() as nat,
                                        nparams,
                                    );
                                },
                                VarState::Bound => {
                                    lemma_mfe_wf_mono(
                                        m,
                                        mid_total,
                                        np,
                                        dep + 1,
                                        m_pre.len() as nat,
                                        nparams,
                                    );
                                },
                            }
                        }
                        lemma_mfe_to_anon_wf_body(m2, mid_total, np, dep + 1, nparams);
                        assert(anon_expr_wf(body_inner, mid_total, nparams, 1));
                        lemma_anon_wf_mono(body_inner, mid_total, nparams, 1, total, 1);
                        assert(anon_def_wf(new_def, total));
                        // the pushed maximal free expressions are well formed one binder out
                        assert forall|k: int| 0 <= k < m_fin.len() implies anon_expr_wf(
                            #[trigger] m_fin[k],
                            total,
                            np,
                            dep,
                        ) by {
                            if k < m_pre.len() {
                                assert(m_fin[k] == m_pre[k]);
                                assert(anon_expr_wf(m_pre[k], mid_total, np, dep));
                                lemma_anon_wf_mono(m_pre[k], mid_total, np, dep, total, dep);
                            } else {
                                assert(st is Free);
                                assert(m_fin[k] == mfe_to_anon_spec(mfe_weaken_spec(m)));
                                lemma_weaken_wf(m, mid_total, np, dep + 1, m_pre.len() as nat);
                                lemma_mfe_to_anon_wf(
                                    mfe_weaken_spec(m),
                                    mid_total,
                                    np,
                                    dep,
                                    m_pre.len() as nat,
                                );
                                lemma_anon_wf_mono(m_fin[k], mid_total, np, dep, total, dep);
                            }
                        }
                        assert(anon_expr_wf(AnonExpr::DefId(cur_def_id), total, np, dep));
                        lemma_apply_args_wf(AnonExpr::DefId(cur_def_id), m_fin, total, np, dep);
                        assert forall|k: int| 0 <= k < dall.len() implies anon_def_wf(
                            #[trigger] dall[k],
                            total,
                        ) by {
                            if k < dseq.len() {
                                assert(dall[k] == dseq[k]);
                                assert(anon_def_wf(dseq[k], mid_total));
                                lemma_anon_def_wf_mono(dseq[k], mid_total, total);
                            } else {
                                assert(dall[k] == new_def);
                            }
                        }
                    }
                }
                (new_e, defs)
            },
        }
    }
}

proof fn lemma_lam_free_count0(e: AnonExpr)
    requires
        lam_free(e),
    ensures
        count_lams(e) == 0,
        lam_prefix_form(e),
{
    match e {
        AnonExpr::Lam(_) => {
            assert(false);
        },
        _ => {},
    }
}

proof fn lemma_anon_def_wf_mono(d: AnonDef, nd: nat, nd2: nat)
    requires
        anon_def_wf(d, nd),
        nd <= nd2,
    ensures
        anon_def_wf(d, nd2),
{
    match d.body {
        Some(b) => {
            lemma_anon_wf_mono(b, nd, d.params as nat, 0, nd2, 0);
        },
        None => {},
    }
}


/// Everything `AnonDef::lambda_lift` guarantees: name, parameter count and
/// primitive-ness are kept, and the body (if any) is lifted as
/// [`lift_out_ok`] describes.
pub open spec fn lift_def_out_ok(orig: AnonDef, next: nat, r_d: AnonDef, r_defs: Seq<AnonDef>) -> bool {
    &&& r_d.name == orig.name
    &&& r_d.params == orig.params
    &&& (match (orig.body, r_d.body) {
        (Option::None, Option::None) => r_defs.len() == 0,
        (Option::Some(b), Option::Some(b2)) => lift_out_ok(b, next, b2, r_defs),
        _ => false,
    })
}

impl AnonDef {
    /// Lifts every lambda out of this definition's body; the extracted
    /// combinators are returned alongside, numbered from `next_def_id`.
    pub fn lambda_lift(self, next_def_id: usize) -> (r: (AnonDef, Vec<AnonDef>))
        requires
            next_def_id + (match self.body {
                Some(b) => count_all_lams(b),
                None => 0nat,
            }) <= usize::MAX,
        ensures
            r.0 == lift_def_spec(self, next_def_id as nat).0,
            r.1@ == lift_def_spec(self, next_def_id as nat).1,
            lift_def_out_ok(self, next_def_id as nat, r.0, r.1@),
    {
        let AnonDef { name, params, body } = self;
        match body {
            None => (AnonDef { name, params, body: None }, Vec::new()),
            Some(b) => {
                let (b2, defs) = b.lambda_lift(next_def_id);
                (AnonDef { name, params, body: Some(b2) }, defs)
            },
        }
    }
}

impl AnonProgram {
    /// Lifts every lambda of every definition body into a fresh top-level
    /// combinator, appended after the original definitions and named
    /// `Unnamed(i)` for its own index `i`.  Afterwards no lambda sits
    /// underneath an application: original bodies are lambda-free and each
    /// new combinator's body is exactly one lambda over a lambda-free
    /// expression.
    pub fn lambda_lift(self) -> (r: AnonProgram)
        requires
            self.defs@.len() + defs_lams(self.defs@) <= usize::MAX,
        ensures
            r.defs@ == lift_program_spec(self.defs@),
            r.defs@.len() == self.defs@.len() + defs_lams(self.defs@),
            forall|i: int|
                0 <= i < self.defs@.len() ==> {
                    &&& (#[trigger] r.defs@[i]).name == self.defs@[i].name
                    &&& r.defs@[i].params == self.defs@[i].params
                    &&& (r.defs@[i].body is None <==> self.defs@[i].body is None)
                    &&& (r.defs@[i].body matches Some(b) ==> lam_free(b))
                },
            forall|i: int|
                self.defs@.len() <= i < r.defs@.len() ==> new_def_shape_ok(
                    #[trigger] r.defs@[i],
                    i as nat,
                ),
            forall|i: int|
                0 <= i < r.defs@.len() ==> (match (#[trigger] r.defs@[i]).body {
                    Some(b) => lam_prefix_form(b),
                    None => true,
                }),
            anon_defs_wf(self.defs@) ==> anon_defs_wf(r.defs@),
    {
        let ghost odefs = self.defs@;
        let n = self.defs.len();
        let mut next_def_id = n;
        let mut transformed: Vec<AnonDef> = Vec::new();
        let mut extracted: Vec<AnonDef> = Vec::new();
        let mut remaining = self.defs;
        let ghost processed = 0int;
        proof {
            assert(odefs.take(0) =~= Seq::<AnonDef>::empty());
            assert(odefs.skip(0) =~= remaining@);
        }
        while remaining.len() > 0
            invariant
                0 <= processed <= odefs.len(),
                processed + remaining@.len() == odefs.len(),
                odefs.skip(processed) =~= remaining@,
                transformed@.len() == processed,
                n == odefs.len(),
                odefs == self.defs@,
                n + defs_lams(odefs) <= usize::MAX,
                next_def_id == n + defs_lams(odefs.take(processed)),
                extracted@.len() == defs_lams(odefs.take(processed)),
                lift_defs_spec(odefs.take(processed), n as nat) == (transformed@, extracted@),
                forall|i: int|
                    0 <= i < processed ==> {
                        &&& (#[trigger] transformed@[i]).name == odefs[i].name
                        &&& transformed@[i].params == odefs[i].params
                        &&& (transformed@[i].body is None <==> odefs[i].body is None)
                        &&& (transformed@[i].body matches Some(b) ==> lam_free(b))
                    },
                forall|k: int|
                    0 <= k < extracted@.len() ==> new_def_shape_ok(
                        #[trigger] extracted@[k],
                        (n + k) as nat,
                    ),
                anon_defs_wf(odefs) ==> {
                    &&& (forall|i: int|
                        0 <= i < processed ==> anon_def_wf(
                            #[trigger] transformed@[i],
                            next_def_id as nat,
                        ))
                    &&& (forall|k: int|
                        0 <= k < extracted@.len() ==> anon_def_wf(
                            #[trigger] extracted@[k],
                            next_def_id as nat,
                        ))
                },
            decreases remaining@.len(),
        {
            let d = remaining.remove(0);
            proof {
                assert(odefs[processed] == d);
                assert(odefs.take(processed + 1).drop_last() =~= odefs.take(processed));
                assert(odefs.take(processed + 1).last() == odefs[processed]);
                lemma_defs_lams_bound(odefs, processed + 1);
            }
            let ghost old_next = next_def_id;
            let ghost old_transformed = transformed@;
            let ghost old_extracted = extracted@;
            let ghost dsnap = d;
            let (td, mut eds) = d.lambda_lift(next_def_id);
            let ghost tdsnap = td;
            let ghost edseq = eds@;
            next_def_id = next_def_id + eds.len();
            transformed.push(td);
            extracted.append(&mut eds);
            proof {
                processed = processed + 1;
                assert(odefs.skip(processed) =~= remaining@);
                assert(transformed@ =~= old_transformed.push(tdsnap));
                assert(extracted@ =~= old_extracted + edseq);
                assert(lift_defs_spec(odefs.take(processed), n as nat) == (
                    transformed@,
                    extracted@,
                )) by {
                    assert(odefs.take(processed).drop_last() =~= odefs.take(processed - 1));
                    assert(odefs.take(processed).last() == odefs[processed - 1]);
                }
                let dl = defs_lams(odefs.take(processed));
                assert(dl == defs_lams(odefs.take(processed - 1)) + (match dsnap.body {
                    Some(b) => count_all_lams(b),
                    None => 0nat,
                }));
                match dsnap.body {
                    Some(b) => {
                        assert(tdsnap.body matches Some(b2) && lift_out_ok(
                            b,
                            old_next as nat,
                            b2,
                            edseq,
                        ));
                    },
                    None => {},
                }
                assert forall|k: int| 0 <= k < extracted@.len() implies new_def_shape_ok(
                    #[trigger] extracted@[k],
                    (n + k) as nat,
                ) by {
                    if k < old_extracted.len() {
                        assert(extracted@[k] == old_extracted[k]);
                    } else {
                        assert(extracted@[k] == edseq[k - old_extracted.len()]);
                    }
                }
                if anon_defs_wf(odefs) {
                    assert(anon_def_wf(odefs[processed - 1], odefs.len() as nat));
                    match dsnap.body {
                        Some(b) => {
                            assert(anon_expr_wf(b, odefs.len() as nat, dsnap.params as nat, 0));
                            assert(odefs.len() <= old_next);
                        },
                        None => {},
                    }
                    assert forall|i: int| 0 <= i < processed implies anon_def_wf(
                        #[trigger] transformed@[i],
                        next_def_id as nat,
                    ) by {
                        if i < processed - 1 {
                            assert(transformed@[i] == old_transformed[i]);
                            lemma_anon_def_wf_mono(
                                old_transformed[i],
                                old_next as nat,
                                next_def_id as nat,
                            );
                        } else {
                            assert(transformed@[i] == tdsnap);
                        }
                    }
                    assert forall|k: int| 0 <= k < extracted@.len() implies anon_def_wf(
                        #[trigger] extracted@[k],
                        next_def_id as nat,
                    ) by {
                        if k < old_extracted.len() {
                            assert(extracted@[k] == old_extracted[k]);
                            lemma_anon_def_wf_mono(
                                old_extracted[k],
                                old_next as nat,
                                next_def_id as nat,
                            );
                        } else {
                            assert(extracted@[k] == edseq[k - old_extracted.len()]);
                        }
                    }
                }
            }
        }
        proof {
            assert(odefs.take(processed) =~= odefs);
        }
        let ghost tseq = transformed@;
        let ghost eseq = extracted@;
        transformed.append(&mut extracted);
        proof {
            assert(transformed@ =~= tseq + eseq);
            assert(transformed@ == lift_program_spec(odefs));
            assert forall|i: int|
                n <= i < transformed@.len() implies new_def_shape_ok(
                #[trigger] transformed@[i],
                i as nat,
            ) by {
                assert(transformed@[i] == eseq[i - n]);
            }
            assert forall|i: int|
                0 <= i < transformed@.len() implies (match (#[trigger] transformed@[i]).body {
                Some(b) => lam_prefix_form(b),
                None => true,
            }) by {
                if i < n {
                    assert(transformed@[i] == tseq[i]);
                    match transformed@[i].body {
                        Some(b) => {
                            lemma_lam_free_count0(b);
                        },
                        None => {},
                    }
                } else {
                    assert(transformed@[i] == eseq[i - n]);
                    assert(new_def_shape_ok(eseq[i - n], i as nat));
                }
            }
            if anon_defs_wf(odefs) {
                assert forall|i: int| 0 <= i < transformed@.len() implies anon_def_wf(
                    #[trigger] transformed@[i],
                    transformed@.len() as nat,
                ) by {
                    if i < n {
                        assert(transformed@[i] == tseq[i]);
                    } else {
                        assert(transformed@[i] == eseq[i - n]);
                    }
                }
            }
        }
        AnonProgram { defs: transformed }
    }
}

proof fn lemma_defs_lams_bound(s: Seq<AnonDef>, m: int)
    requires
        0 <= m <= s.len(),
    ensures
        defs_lams(s.take(m)) <= defs_lams(s),
    decreases s.len() - m,
{
    if m < s.len() {
        assert(s.take(m + 1).drop_last() =~= s.take(m));
        assert(s.take(m + 1).last() == s[m]);
        lemma_defs_lams_bound(s, m + 1);
    } else {
        assert(s.take(m) =~= s);
    }
}

proof fn lemma_to_sc_total(e: AnonExpr, bound: nat)
    requires
        lam_free(e),
    ensures
        to_sc_spec(e, bound) is Ok,
    decreases e,
{
    match e {
        AnonExpr::App(e1, e2) => {
            lemma_to_sc_total(*e1, bound);
            lemma_to_sc_total(*e2, bound);
        },
        _ => {},
    }
}

proof fn lemma_prefix_strip_lam_free(e: AnonExpr)
    requires
        lam_prefix_form(e),
    ensures
        lam_free(strip_lams(e)),
    decreases e,
{
    match e {
        AnonExpr::Lam(e1) => {
            lemma_prefix_strip_lam_free(*e1);
        },
        _ => {},
    }
}

/// Lambda elimination is total on lifted programs: once every definition
/// body is a prefix of lambdas over a lambda-free expression — the shape
/// `lambda_lift` guarantees — elimination never reports a lambda, so the
/// resulting program contains neither lambdas nor de Bruijn indices, by
/// the type of its expressions.
pub proof fn lemma_lifted_elim_total(defs: Seq<AnonDef>)
    requires
        forall|i: int|
            0 <= i < defs.len() ==> (match (#[trigger] defs[i]).body {
                Some(b) => lam_prefix_form(b),
                None => true,
            }),
    ensures
        elim_defs_spec(defs) is Ok,
    decreases defs.len(),
{
    if defs.len() > 0 {
        lemma_lifted_elim_total(defs.drop_last());
        match defs.last().body {
            Some(b) => {
                lemma_prefix_strip_lam_free(b);
                lemma_to_sc_total(
                    strip_lams(b),
                    (defs.last().params + count_lams(b)) as nat,
                );
            },
            None => {},
        }
    }
}



/// `e` contains the innermost lambda's own variable, `DeBruijn(0)`.
pub open spec fn anon_has_db0(e: AnonExpr) -> bool
    decreases e,
{
    match e {
        AnonExpr::DeBruijn(i) => i == 0,
        AnonExpr::App(e1, e2) => anon_has_db0(*e1) || anon_has_db0(*e2),
        AnonExpr::Lam(e1) => anon_has_db0(*e1),
        _ => false,
    }
}

/// `e` contains an outer variable: a parameter reference or a de Bruijn
/// index above zero.
pub open spec fn anon_has_outer(e: AnonExpr) -> bool
    decreases e,
{
    match e {
        AnonExpr::ArgId(_) => true,
        AnonExpr::DeBruijn(i) => i >= 1,
        AnonExpr::App(e1, e2) => anon_has_outer(*e1) || anon_has_outer(*e2),
        AnonExpr::Lam(e1) => anon_has_outer(*e1),
        _ => false,
    }
}

/// The classification extraction returns follows the variable content of
/// the input alone: `Bound` exactly when the lambda's own variable occurs,
/// `Free` exactly when only outer variables occur, `NoVar` otherwise —
/// whatever the accumulator holds.
pub proof fn lemma_extract_classification(e: AnonExpr, acc: Seq<AnonExpr>)
    requires
        lam_free(e),
    ensures
        extract_spec(e, acc).1 is Bound <==> anon_has_db0(e),
        extract_spec(e, acc).1 is Free <==> (!anon_has_db0(e) && anon_has_outer(e)),
        extract_spec(e, acc).1 is NoVar <==> (!anon_has_db0(e) && !anon_has_outer(e)),
    decreases e,
{
    match e {
        AnonExpr::App(e1, e2) => {
            lemma_extract_classification(*e1, acc);
            lemma_extract_classification(*e2, extract_spec(*e1, acc).2);
        },
        _ => {},
    }
}


/// The number of nodes in an anonymized expression.
pub open spec fn anon_size(e: AnonExpr) -> nat
    decreases e,
{
    match e {
        AnonExpr::App(e1, e2) => 1 + anon_size(*e1) + anon_size(*e2),
        AnonExpr::Lam(e1) => 1 + anon_size(*e1),
        _ => 1,
    }
}

/// Every `MfeId` in `e` stays below `n`.
pub open spec fn mfe_ids_below(e: MfeExpr, n: nat) -> bool
    decreases e,
{
    match e {
        MfeExpr::MfeId(j) => j < n,
        MfeExpr::App(e1, e2) => mfe_ids_below(*e1, n) && mfe_ids_below(*e2, n),
        _ => true,
    }
}

/// `e` with every de Bruijn index increased by one: the inverse of
/// weakening on the lambda-free expressions extraction collects.
pub open spec fn anon_shift_up(e: AnonExpr) -> AnonExpr
    decreases e,
{
    match e {
        AnonExpr::DeBruijn(i) => AnonExpr::DeBruijn((i + 1) as usize),
        AnonExpr::App(e1, e2) => AnonExpr::App(
            Box::new(anon_shift_up(*e1)),
            Box::new(anon_shift_up(*e2)),
        ),
        AnonExpr::Lam(e1) => AnonExpr::Lam(Box::new(anon_shift_up(*e1))),
        _ => e,
    }
}

/// The extracted subterms substituted back: `MfeId(j)` becomes the `j`-th
/// accumulated expression with its de Bruijn indices restored.
pub open spec fn mfe_readback(m: MfeExpr, acc: Seq<AnonExpr>) -> AnonExpr
    decreases m,
{
    match m {
        MfeExpr::DefId(i) => AnonExpr::DefId(i),
        MfeExpr::ArgId(i) => AnonExpr::ArgId(i),
        MfeExpr::DeBruijn(i) => AnonExpr::DeBruijn(i),
        MfeExpr::MfeId(j) => if 0 <= j < acc.len() {
            anon_shift_up(acc[j as int])
        } else {
            AnonExpr::Prim(0)
        },
        MfeExpr::Prim(n) => AnonExpr::Prim(n),
        MfeExpr::App(m1, m2) => AnonExpr::App(
            Box::new(mfe_readback(*m1, acc)),
            Box::new(mfe_readback(*m2, acc)),
        ),
    }
}

proof fn lemma_mfe_ids_below_mono(e: MfeExpr, n1: nat, n2: nat)
    requires
        mfe_ids_below(e, n1),
        n1 <= n2,
    ensures
        mfe_ids_below(e, n2),
    decreases e,
{
    match e {
        MfeExpr::App(e1, e2) => {
            lemma_mfe_ids_below_mono(*e1, n1, n2);
            lemma_mfe_ids_below_mono(*e2, n1, n2);
        },
        _ => {},
    }
}

proof fn lemma_readback_grow(m: MfeExpr, s1: Seq<AnonExpr>, s2: Seq<AnonExpr>)
    requires
        mfe_ids_below(m, s1.len()),
        s1.is_prefix_of(s2),
    ensures
        mfe_readback(m, s2) == mfe_readback(m, s1),
    decreases m,
{
    match m {
        MfeExpr::App(m1, m2) => {
            lemma_readback_grow(*m1, s1, s2);
            lemma_readback_grow(*m2, s1, s2);
        },
        MfeExpr::MfeId(j) => {
            assert(s2.take(s1.len() as int)[j as int] == s2[j as int]);
        },
        _ => {},
    }
}

proof fn lemma_readback_no_mfeid(m: MfeExpr, s: Seq<AnonExpr>)
    requires
        mfe_no_mfeid(m),
    ensures
        mfe_readback(m, s) == mfe_to_anon_spec(m),
    decreases m,
{
    match m {
        MfeExpr::App(m1, m2) => {
            lemma_readback_no_mfeid(*m1, s);
            lemma_readback_no_mfeid(*m2, s);
        },
        _ => {},
    }
}

proof fn lemma_shift_weaken(m: MfeExpr)
    requires
        mfe_db_at_least(m, 1),
        mfe_no_mfeid(m),
    ensures
        anon_shift_up(mfe_to_anon_spec(mfe_weaken_spec(m))) == mfe_to_anon_spec(m),
    decreases m,
{
    match m {
        MfeExpr::App(m1, m2) => {
            lemma_shift_weaken(*m1);
            lemma_shift_weaken(*m2);
        },
        _ => {},
    }
}

/// The round trip of extraction: substituting the accumulated maximal free
/// expressions (their weakening undone) back for the `MfeId` leaves of the
/// rewritten expression reconstructs the input exactly.  Alongside: the
/// accumulator only grows, a `Free` or `NoVar` result appends nothing and
/// contains no `MfeId`, and a `Free` result has every de Bruijn index at
/// least one — which is what makes the weakening of an extracted subterm
/// reversible.
pub proof fn lemma_extract_readback(e: AnonExpr, acc: Seq<AnonExpr>)
    requires
        lam_free(e),
        acc.len() + anon_size(e) <= usize::MAX,
    ensures
        acc.is_prefix_of(extract_spec(e, acc).2),
        extract_spec(e, acc).2.len() <= acc.len() + anon_size(e),
        mfe_ids_below(extract_spec(e, acc).0, extract_spec(e, acc).2.len() as nat),
        extract_spec(e, acc).1 is Free ==> {
            &&& mfe_no_mfeid(extract_spec(e, acc).0)
            &&& mfe_db_at_least(extract_spec(e, acc).0, 1)
            &&& extract_spec(e, acc).2 == acc
        },
        extract_spec(e, acc).1 is NoVar ==> {
            &&& mfe_no_mfeid(extract_spec(e, acc).0)
            &&& mfe_db_below(extract_spec(e, acc).0, 0)
            &&& extract_spec(e, acc).2 == acc
        },
        mfe_readback(extract_spec(e, acc).0, extract_spec(e, acc).2) == e,
    decreases e,
{
    assert(acc =~= acc.take(acc.len() as int));
    match e {
        AnonExpr::App(e1, e2) => {
            let r1 = extract_spec(*e1, acc);
            let r2 = extract_spec(*e2, r1.2);
            lemma_extract_readback(*e1, acc);
            lemma_extract_readback(*e2, r1.2);
            let (m1, s1, a1) = r1;
            let (m2, s2, a2) = r2;
            assert(a1.is_prefix_of(a2));
            assert(acc.is_prefix_of(a2)) by {
                assert(acc =~= a2.take(acc.len() as int));
            }
            lemma_mfe_ids_below_mono(m1, a1.len() as nat, a2.len() as nat);
            match (s1, s2) {
                (VarState::Free, VarState::Bound) => {
                    let w = mfe_to_anon_spec(mfe_weaken_spec(m1));
                    let fin = a2.push(w);
                    assert(a2.is_prefix_of(fin)) by {
                        assert(a2 =~= fin.take(a2.len() as int));
                    }
                    assert(acc.is_prefix_of(fin)) by {
                        assert(acc =~= fin.take(acc.len() as int));
                    }
                    lemma_mfe_ids_below_mono(m2, a2.len() as nat, fin.len() as nat);
                    lemma_readback_grow(m2, a2, fin);
                    lemma_shift_weaken(m1);
                    lemma_readback_no_mfeid(m1, a1);
                    assert(a2.len() < usize::MAX);
                    assert(mfe_ids_below(MfeExpr::MfeId(a2.len() as usize), fin.len() as nat));
                    assert(mfe_readback(MfeExpr::MfeId(a2.len() as usize), fin)
                        == anon_shift_up(w));
                },
                (VarState::Bound, VarState::Free) => {
                    let w = mfe_to_anon_spec(mfe_weaken_spec(m2));
                    let fin = a2.push(w);
                    assert(a2.is_prefix_of(fin)) by {
                        assert(a2 =~= fin.take(a2.len() as int));
                    }
                    assert(acc.is_prefix_of(fin)) by {
                        assert(acc =~= fin.take(acc.len() as int));
                    }
                    lemma_mfe_ids_below_mono(m1, a1.len() as nat, fin.len() as nat);
                    lemma_readback_grow(m1, a1, fin);
                    lemma_shift_weaken(m2);
                    lemma_readback_no_mfeid(m2, a2);
                    assert(a2.len() < usize::MAX);
                    assert(mfe_ids_below(MfeExpr::MfeId(a2.len() as usize), fin.len() as nat));
                    assert(mfe_readback(MfeExpr::MfeId(a2.len() as usize), fin)
                        == anon_shift_up(w));
                },
                _ => {
                    lemma_readback_grow(m1, a1, a2);
                    match s1 {
                        VarState::NoVar => {
                            lemma_mfe_no_db_at_least(m1, 1);
                        },
                        _ => {},
                    }
                    match s2 {
                        VarState::NoVar => {
                            lemma_mfe_no_db_at_least(m2, 1);
                        },
                        _ => {},
                    }
                },
            }
        },
        _ => {},
    }
}

} // verus!
