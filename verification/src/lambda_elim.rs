//! Lambda elimination.  After lifting, every definition body is a prefix of
//! unary lambdas over a lambda-free expression; this pass removes that
//! prefix, adds one parameter per removed lambda, and rewrites every de
//! Bruijn index into an index of the enlarged parameter list.  A lambda
//! anywhere else is reported as a pipeline contract violation.

use vstd::prelude::*;
use crate::structures::AnonDef;
use crate::structures::AnonExpr;
use crate::structures::AnonProgram;
use crate::structures::ScDef;
use crate::structures::ScExpr;
use crate::structures::ScProgram;
use crate::structures::Name;
use crate::structures::anon_def_wf;
use crate::structures::anon_defs_wf;
use crate::structures::anon_expr_wf;
use crate::structures::sc_def_wf;
use crate::structures::sc_defs_wf;
use crate::structures::sc_expr_wf;
use crate::error::Error;
use crate::error::ErrorView;

verus! {

/// How many unary lambdas the expression starts with.
pub open spec fn count_lams(e: AnonExpr) -> nat
    decreases e,
{
    match e {
        AnonExpr::Lam(e1) => 1 + count_lams(*e1),
        _ => 0,
    }
}

/// The expression underneath the leading lambdas.
pub open spec fn strip_lams(e: AnonExpr) -> AnonExpr
    decreases e,
{
    match e {
        AnonExpr::Lam(e1) => strip_lams(*e1),
        _ => e,
    }
}

/// Whether every de Bruijn index of `e` is covered by the lambdas above it
/// plus `depth` outer binders.
pub open spec fn debruijn_closed(e: AnonExpr, depth: nat) -> bool
    decreases e,
{
    match e {
        AnonExpr::DeBruijn(i) => i < depth,
        AnonExpr::App(e1, e2) => debruijn_closed(*e1, depth) && debruijn_closed(*e2, depth),
        AnonExpr::Lam(e1) => debruijn_closed(*e1, depth + 1),
        _ => true,
    }
}

/// What elimination returns for a lambda-stripped body whose enlarged
/// parameter count is `bound`: `DeBruijn(i)` becomes the argument counted
/// from the back, `ArgId(bound - 1 - i)`, and any remaining lambda is an
/// error.
pub open spec fn to_sc_spec(e: AnonExpr, bound: nat) -> Result<ScExpr, ()>
    decreases e,
{
    match e {
        AnonExpr::DefId(i) => Ok(ScExpr::DefId(i)),
        AnonExpr::ArgId(i) => Ok(ScExpr::ArgId(i)),
        AnonExpr::Prim(n) => Ok(ScExpr::Prim(n)),
        AnonExpr::DeBruijn(i) => Ok(ScExpr::ArgId((bound - 1 - i) as usize)),
        AnonExpr::App(e1, e2) => match to_sc_spec(*e1, bound) {
            Ok(s1) => match to_sc_spec(*e2, bound) {
                Ok(s2) => Ok(ScExpr::App(Box::new(s1), Box::new(s2))),
                Err(u) => Err(u),
            },
            Err(u) => Err(u),
        },
        AnonExpr::Lam(_) => Err(()),
    }
}

/// What elimination returns for one definition.
pub open spec fn elim_def_spec(d: AnonDef) -> Result<ScDef, ()> {
    match d.body {
        None => Ok(ScDef { name: d.name, params: d.params, body: None }),
        Some(b) => match to_sc_spec(strip_lams(b), (d.params + count_lams(b)) as nat) {
            Ok(e) => Ok(
                ScDef {
                    name: d.name,
                    params: (d.params + count_lams(b)) as usize,
                    body: Some(e),
                },
            ),
            Err(_) => Err(()),
        },
    }
}

/// What elimination returns for a sequence of definitions; the first
/// failing definition's name is reported.
pub open spec fn elim_defs_spec(defs: Seq<AnonDef>) -> Result<Seq<ScDef>, Name>
    decreases defs.len(),
{
    if defs.len() == 0 {
        Ok(Seq::empty())
    } else {
        match elim_defs_spec(defs.drop_last()) {
            Err(nm) => Err(nm),
            Ok(s) => match elim_def_spec(defs.last()) {
                Ok(d) => Ok(s.push(d)),
                Err(_) => Err(defs.last().name),
            },
        }
    }
}

proof fn lemma_debruijn_closed_weaken(e: AnonExpr, d1: nat, d2: nat)
    requires
        debruijn_closed(e, d1),
        d1 <= d2,
    ensures
        debruijn_closed(e, d2),
    decreases e,
{
    match e {
        AnonExpr::App(e1, e2) => {
            lemma_debruijn_closed_weaken(*e1, d1, d2);
            lemma_debruijn_closed_weaken(*e2, d1, d2);
        },
        AnonExpr::Lam(e1) => {
            lemma_debruijn_closed_weaken(*e1, d1 + 1, d2 + 1);
        },
        _ => {},
    }
}

proof fn lemma_strip_lams_wf(e: AnonExpr, ndefs: nat, nparams: nat, depth: nat)
    requires
        anon_expr_wf(e, ndefs, nparams, depth),
    ensures
        anon_expr_wf(strip_lams(e), ndefs, nparams, depth + count_lams(e)),
    decreases e,
{
    match e {
        AnonExpr::Lam(e1) => {
            lemma_strip_lams_wf(*e1, ndefs, nparams, depth + 1);
        },
        _ => {},
    }
}

proof fn lemma_to_sc_spec_wf(e: AnonExpr, ndefs: nat, nparams: nat, depth: nat, bound: nat)
    requires
        anon_expr_wf(e, ndefs, nparams, depth),
        nparams <= bound,
        depth <= bound,
    ensures
        to_sc_spec(e, bound) matches Ok(s) ==> sc_expr_wf(s, ndefs, bound),
    decreases e,
{
    match e {
        AnonExpr::App(e1, e2) => {
            lemma_to_sc_spec_wf(*e1, ndefs, nparams, depth, bound);
            lemma_to_sc_spec_wf(*e2, ndefs, nparams, depth, bound);
        },
        _ => {},
    }
}

proof fn lemma_elim_def_spec_wf(d: AnonDef, ndefs: nat)
    requires
        anon_def_wf(d, ndefs),
        d.params + (match d.body {
            Some(b) => count_lams(b),
            None => 0nat,
        }) <= usize::MAX,
    ensures
        elim_def_spec(d) matches Ok(sd) ==> {
            &&& sc_def_wf(sd, ndefs)
            &&& sd.name == d.name
        },
{
    match d.body {
        Some(b) => {
            lemma_strip_lams_wf(b, ndefs, d.params as nat, 0);
            lemma_to_sc_spec_wf(
                strip_lams(b),
                ndefs,
                d.params as nat,
                count_lams(b),
                (d.params + count_lams(b)) as nat,
            );
        },
        None => {},
    }
}

proof fn lemma_elim_defs_propagate(s: Seq<AnonDef>, m: int)
    requires
        0 <= m <= s.len(),
        elim_defs_spec(s.take(m)) is Err,
    ensures
        elim_defs_spec(s) == elim_defs_spec(s.take(m)),
    decreases s.len() - m,
{
    if m < s.len() {
        assert(s.take(m + 1).drop_last() =~= s.take(m));
        lemma_elim_defs_propagate(s, m + 1);
    } else {
        assert(s.take(m) =~= s);
    }
}

proof fn lemma_elim_defs_spec_props(defs: Seq<AnonDef>, s: Seq<ScDef>)
    requires
        elim_defs_spec(defs) == Ok::<Seq<ScDef>, Name>(s),
    ensures
        s.len() == defs.len(),
        forall|i: int| 0 <= i < defs.len() ==> elim_def_spec(#[trigger] defs[i]) == Ok::<
            ScDef,
            (),
        >(s[i]),
    decreases defs.len(),
{
    if defs.len() > 0 {
        match elim_defs_spec(defs.drop_last()) {
            Ok(s0) => {
                lemma_elim_defs_spec_props(defs.drop_last(), s0);
                assert(forall|i: int| 0 <= i < defs.len() - 1 ==> defs.drop_last()[i] == defs[i]);
            },
            Err(_) => {},
        }
    }
}

impl AnonExpr {
    fn try_into_scexpr(self, bound: usize) -> (r: Result<ScExpr, ()>)
        requires
            debruijn_closed(self, bound as nat),
        ensures
            r == to_sc_spec(self, bound as nat),
        decreases self,
    {
        match self {
            AnonExpr::DefId(i) => Ok(ScExpr::DefId(i)),
            AnonExpr::ArgId(i) => Ok(ScExpr::ArgId(i)),
            AnonExpr::Prim(n) => Ok(ScExpr::Prim(n)),
            AnonExpr::DeBruijn(i) => Ok(ScExpr::ArgId(bound - 1 - i)),
            AnonExpr::App(e1, e2) => match (*e1).try_into_scexpr(bound) {
                Ok(s1) => match (*e2).try_into_scexpr(bound) {
                    Ok(s2) => Ok(ScExpr::App(Box::new(s1), Box::new(s2))),
                    Err(u) => Err(u),
                },
                Err(u) => Err(u),
            },
            AnonExpr::Lam(_) => Err(()),
        }
    }

    fn lambda_elim(self, args: usize) -> (r: Result<(ScExpr, usize), ()>)
        requires
            debruijn_closed(self, 0),
            args + count_lams(self) <= usize::MAX,
        ensures
            (match r {
                Ok((t, p)) => {
                    &&& p == args + count_lams(self)
                    &&& to_sc_spec(strip_lams(self), p as nat) == Ok::<ScExpr, ()>(t)
                },
                Err(u) => to_sc_spec(strip_lams(self), (args + count_lams(self)) as nat) == Err::<
                    ScExpr,
                    (),
                >(u),
            }),
    {
        let ghost orig = self;
        let mut cur = self;
        let mut lambdas: usize = 0;
        loop
            invariant
                lambdas + count_lams(cur) == count_lams(orig),
                strip_lams(cur) == strip_lams(orig),
                debruijn_closed(cur, lambdas as nat),
                args + count_lams(orig) <= usize::MAX,
            ensures
                count_lams(cur) == 0,
                lambdas == count_lams(orig),
                strip_lams(cur) == strip_lams(orig),
                cur == strip_lams(orig),
                debruijn_closed(cur, lambdas as nat),
                args + count_lams(orig) <= usize::MAX,
            decreases cur,
        {
            match cur {
                AnonExpr::Lam(e1) => {
                    cur = *e1;
                    lambdas = lambdas + 1;
                },
                _ => {
                    break ;
                },
            }
        }
        let bound = args + lambdas;
        proof {
            lemma_debruijn_closed_weaken(cur, lambdas as nat, bound as nat);
        }
        match cur.try_into_scexpr(bound) {
            Ok(t) => Ok((t, bound)),
            Err(u) => Err(u),
        }
    }
}

impl AnonDef {
    fn lambda_elim(self) -> (r: Result<ScDef, Error>)
        requires
            (match self.body {
                Some(b) => debruijn_closed(b, 0) && self.params + count_lams(b) <= usize::MAX,
                None => true,
            }),
        ensures
            (match r {
                Ok(d) => elim_def_spec(self) == Ok::<ScDef, ()>(d),
                Err(e) => elim_def_spec(self) is Err && e@ == (ErrorView::UnexpectedLambda {
                    def_name: self.name@,
                }),
            }),
    {
        let AnonDef { name, params, body } = self;
        match body {
            None => Ok(ScDef { name, params, body: None }),
            Some(b) => match b.lambda_elim(params) {
                Ok((new_body, new_params)) => Ok(
                    ScDef { name, params: new_params, body: Some(new_body) },
                ),
                Err(_) => Err(Error::UnexpectedLambda { def_name: name }),
            },
        }
    }
}

impl AnonProgram {
    /// Removes the leading lambdas of every definition body, turning each
    /// into one extra parameter; rewrites every de Bruijn index to the
    /// matching argument index; and reports a lambda anywhere else as
    /// `UnexpectedLambda`.
    pub fn lambda_elim(self) -> (r: Result<ScProgram, Error>)
        requires
            (forall|i: int| 0 <= i < self.defs@.len() ==> match (#[trigger] self.defs@[i]).body {
                Some(b) => debruijn_closed(b, 0) && self.defs@[i].params + count_lams(b)
                    <= usize::MAX,
                None => true,
            }),
        ensures
            (match r {
                Ok(p) => {
                    &&& elim_defs_spec(self.defs@) == Ok::<Seq<ScDef>, Name>(p.defs@)
                    &&& p.defs@.len() == self.defs@.len()
                    &&& forall|i: int|
                        0 <= i < p.defs@.len() ==> (#[trigger] p.defs@[i]).name
                            == self.defs@[i].name
                    &&& anon_defs_wf(self.defs@) ==> sc_defs_wf(p.defs@)
                },
                Err(e) => {
                    &&& elim_defs_spec(self.defs@) matches Err(nm)
                    &&& e@ == (ErrorView::UnexpectedLambda { def_name: nm@ })
                },
            }),
    {
        let ghost odefs = self.defs@;
        let mut remaining = self.defs;
        let mut out: Vec<ScDef> = Vec::new();
        let ghost processed = 0int;
        proof {
            assert(odefs.take(0) =~= Seq::<AnonDef>::empty());
            assert(odefs.skip(0) =~= remaining@);
        }
        while remaining.len() > 0
            invariant
                0 <= processed <= odefs.len(),
                processed + remaining@.len() == odefs.len(),
                odefs.skip(processed) =~= remaining@,
                out@.len() == processed,
                elim_defs_spec(odefs.take(processed)) == Ok::<Seq<ScDef>, Name>(out@),
                odefs == self.defs@,
                forall|i: int| 0 <= i < odefs.len() ==> match (#[trigger] odefs[i]).body {
                    Some(b) => debruijn_closed(b, 0) && odefs[i].params + count_lams(b)
                        <= usize::MAX,
                    None => true,
                },
            decreases remaining@.len(),
        {
            let d = remaining.remove(0);
            proof {
                assert(odefs[processed] == d);
                assert(odefs.take(processed + 1).drop_last() =~= odefs.take(processed));
                assert(odefs.take(processed + 1).last() == odefs[processed]);
            }
            match d.lambda_elim() {
                Ok(sd) => {
                    out.push(sd);
                    proof {
                        processed = processed + 1;
                        assert(odefs.skip(processed) =~= remaining@);
                    }
                },
                Err(e) => {
                    proof {
                        lemma_elim_defs_propagate(odefs, processed + 1);
                    }
                    return Err(e);
                },
            }
        }
        proof {
            assert(processed == odefs.len());
            assert(odefs.take(processed) =~= odefs);
            lemma_elim_defs_spec_props(odefs, out@);
            assert forall|k: int| 0 <= k < out@.len() implies (#[trigger] out@[k]).name
                == odefs[k].name by {
                assert(elim_def_spec(odefs[k]) == Ok::<ScDef, ()>(out@[k]));
            }
            if anon_defs_wf(odefs) {
                assert forall|k: int| 0 <= k < out@.len() implies sc_def_wf(
                    #[trigger] out@[k],
                    out@.len() as nat,
                ) by {
                    lemma_elim_def_spec_wf(odefs[k], odefs.len() as nat);
                }
            }
        }
        Ok(ScProgram { defs: out })
    }
}

} // verus!
