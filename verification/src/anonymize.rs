//! The anonymization pass.  Top-level names become definition indices,
//! parameters become argument indices, lambda-bound variables become de
//! Bruijn indices, and multi-parameter lambdas become nests of unary ones.
//!
//! Lookup priority for an identifier is lexical: the enclosing lambdas
//! first (innermost wins), then the parameters of the enclosing definition,
//! then the top-level names.

use vstd::prelude::*;
use crate::structures::AnonDef;
use crate::structures::AnonExpr;
use crate::structures::AnonProgram;
use crate::structures::Def;
use crate::structures::Expr;
use crate::structures::Name;
use crate::structures::Program;
use crate::structures::anon_def_wf;
use crate::structures::anon_defs_wf;
use crate::structures::anon_expr_wf;
use crate::error::Error;
use crate::error::ErrorView;

verus! {

/// The position of `x` counted from the top of the stack `opens` of open
/// lambda parameters, innermost last.
pub open spec fn rev_pos(opens: Seq<Seq<char>>, x: Seq<char>) -> Option<nat>
    decreases opens.len(),
{
    if opens.len() == 0 {
        None
    } else if opens.last() == x {
        Some(0)
    } else {
        match rev_pos(opens.drop_last(), x) {
            Some(k) => Some((k + 1) as nat),
            None => None,
        }
    }
}

/// The first position of `x` in the parameter list `params`.
pub open spec fn fwd_pos(params: Seq<Seq<char>>, x: Seq<char>) -> Option<nat>
    decreases params.len(),
{
    if params.len() == 0 {
        None
    } else if params[0] == x {
        Some(0)
    } else {
        match fwd_pos(params.drop_first(), x) {
            Some(k) => Some((k + 1) as nat),
            None => None,
        }
    }
}

/// The name-to-index map described by an association list, later entries
/// winning.
pub open spec fn globals_view(s: Seq<(String, usize)>) -> Map<Seq<char>, nat>
    decreases s.len(),
{
    if s.len() == 0 {
        Map::empty()
    } else {
        globals_view(s.drop_last()).insert(s.last().0@, s.last().1 as nat)
    }
}

/// Whether every index in the map stays below `ndefs`.
pub open spec fn globals_bounded(g: Map<Seq<char>, nat>, ndefs: nat) -> bool {
    forall|k: Seq<char>| g.contains_key(k) ==> g[k] < ndefs
}

/// `e` wrapped in `k` unary lambdas.
pub open spec fn wrap_lams(a: AnonExpr, k: nat) -> AnonExpr
    decreases k,
{
    if k == 0 {
        a
    } else {
        AnonExpr::Lam(Box::new(wrap_lams(a, (k - 1) as nat)))
    }
}

/// What anonymization returns for the expression `e`, given the top-level
/// map, the enclosing definition's parameters, and the stack of open lambda
/// parameters.  An error carries the undefined identifier.
pub open spec fn anon_expr_spec(
    e: Expr,
    g: Map<Seq<char>, nat>,
    params: Seq<Seq<char>>,
    opens: Seq<Seq<char>>,
) -> Result<AnonExpr, Seq<char>>
    decreases e,
{
    match e {
        Expr::Id(x) => match rev_pos(opens, x@) {
            Some(k) => Ok(AnonExpr::DeBruijn(k as usize)),
            None => match fwd_pos(params, x@) {
                Some(k) => Ok(AnonExpr::ArgId(k as usize)),
                None => if g.contains_key(x@) {
                    Ok(AnonExpr::DefId(g[x@] as usize))
                } else {
                    Err(x@)
                },
            },
        },
        Expr::Prim(n) => Ok(AnonExpr::Prim(n)),
        Expr::App(e1, e2) => match anon_expr_spec(*e1, g, params, opens) {
            Ok(a1) => match anon_expr_spec(*e2, g, params, opens) {
                Ok(a2) => Ok(AnonExpr::App(Box::new(a1), Box::new(a2))),
                Err(x) => Err(x),
            },
            Err(x) => Err(x),
        },
        Expr::Lam(ids, e1) => match anon_expr_spec(*e1, g, params, opens + ids.deep_view()) {
            Ok(a) => Ok(wrap_lams(a, ids.len() as nat)),
            Err(x) => Err(x),
        },
    }
}

/// The name of the earliest parameter that repeats an earlier one, if any.
pub open spec fn first_dup(params: Seq<Seq<char>>) -> Option<Seq<char>>
    decreases params.len(),
{
    if params.len() == 0 {
        None
    } else {
        match first_dup(params.drop_last()) {
            Some(x) => Some(x),
            None => if params.drop_last().contains(params.last()) {
                Some(params.last())
            } else {
                None
            },
        }
    }
}

/// What anonymization returns for one definition.
pub open spec fn anon_def_spec(d: Def, g: Map<Seq<char>, nat>) -> Result<AnonDef, ErrorView> {
    match d.body {
        None => Ok(AnonDef { name: Name::Named(d.name), params: d.params.len(), body: None }),
        Some(b) => match first_dup(d.params.deep_view()) {
            Some(p) => Err(
                ErrorView::ScParamNameCollision { def_name: d.name@, param_name: p },
            ),
            None => match anon_expr_spec(b, g, d.params.deep_view(), Seq::empty()) {
                Ok(a) => Ok(
                    AnonDef { name: Name::Named(d.name), params: d.params.len(), body: Some(a) },
                ),
                Err(x) => Err(ErrorView::UndefinedIdent { def_name: d.name@, undefined_name: x }),
            },
        },
    }
}

/// The top-level map of a program, or the first name that repeats.
pub open spec fn build_globals(defs: Seq<Def>) -> Result<Map<Seq<char>, nat>, Seq<char>>
    decreases defs.len(),
{
    if defs.len() == 0 {
        Ok(Map::empty())
    } else {
        match build_globals(defs.drop_last()) {
            Err(x) => Err(x),
            Ok(m) => if m.contains_key(defs.last().name@) {
                Err(defs.last().name@)
            } else {
                Ok(m.insert(defs.last().name@, (defs.len() - 1) as nat))
            },
        }
    }
}

/// What anonymization returns for a sequence of definitions under a fixed
/// top-level map; the first error wins.
pub open spec fn anon_defs_spec(defs: Seq<Def>, g: Map<Seq<char>, nat>) -> Result<
    Seq<AnonDef>,
    ErrorView,
>
    decreases defs.len(),
{
    if defs.len() == 0 {
        Ok(Seq::empty())
    } else {
        match anon_defs_spec(defs.drop_last(), g) {
            Err(e) => Err(e),
            Ok(s) => match anon_def_spec(defs.last(), g) {
                Ok(d) => Ok(s.push(d)),
                Err(e) => Err(e),
            },
        }
    }
}

/// What anonymization returns for a whole program.
pub open spec fn into_anon_spec(defs: Seq<Def>) -> Result<Seq<AnonDef>, ErrorView> {
    match build_globals(defs) {
        Err(x) => Err(ErrorView::TopLevelNameCollision { name: x }),
        Ok(m) => anon_defs_spec(defs, m),
    }
}

proof fn lemma_globals_unmatched_suffix(s: Seq<(String, usize)>, i: int, x: Seq<char>)
    requires
        0 <= i <= s.len(),
        forall|j: int| i <= j < s.len() ==> (#[trigger] s[j]).0@ != x,
    ensures
        globals_view(s).contains_key(x) == globals_view(s.take(i)).contains_key(x),
        globals_view(s).contains_key(x) ==> globals_view(s)[x] == globals_view(s.take(i))[x],
    decreases s.len() - i,
{
    if i < s.len() {
        assert(s.drop_last().take(i) =~= s.take(i));
        lemma_globals_unmatched_suffix(s.drop_last(), i, x);
    } else {
        assert(s.take(i) =~= s);
    }
}

/// Looks `x` up in an association list, the latest entry winning.
fn globals_get(globals: &Vec<(String, usize)>, x: &String) -> (r: Option<usize>)
    ensures
        match r {
            Some(v) => globals_view(globals@).contains_key(x@) && globals_view(globals@)[x@]
                == v as nat,
            None => !globals_view(globals@).contains_key(x@),
        },
{
    let mut i: usize = globals.len();
    while i > 0
        invariant
            i <= globals.len(),
            forall|j: int| i <= j < globals@.len() ==> (#[trigger] globals@[j]).0@ != x@,
        decreases i,
    {
        i = i - 1;
        if globals[i].0 == *x {
            proof {
                lemma_globals_unmatched_suffix(globals@, i + 1, x@);
                assert(globals@.take(i + 1).drop_last() =~= globals@.take(i as int));
                assert(globals@.take(i + 1).last() == globals@[i as int]);
            }
            return Some(globals[i].1);
        }
    }
    proof {
        lemma_globals_unmatched_suffix(globals@, 0, x@);
        assert(globals@.take(0) =~= Seq::<(String, usize)>::empty());
    }
    None
}

/// Scans the stack of open lambda parameters from the innermost end.
fn find_open(opens: &Vec<String>, x: &String) -> (r: Option<usize>)
    ensures
        match r {
            Some(k) => rev_pos(opens.deep_view(), x@) == Some(k as nat),
            None => rev_pos(opens.deep_view(), x@) is None,
        },
{
    let len = opens.len();
    proof {
        assert(opens.deep_view().len() == opens@.len());
        assert(opens.deep_view().take(len as int) =~= opens.deep_view());
    }
    let mut k: usize = 0;
    while k < len
        invariant
            k <= len,
            len == opens@.len(),
            (match rev_pos(opens.deep_view().take(len - k), x@) {
                Some(j) => rev_pos(opens.deep_view(), x@) == Some((j + k) as nat),
                None => rev_pos(opens.deep_view(), x@) is None,
            }),
        decreases len - k,
    {
        proof {
            assert(opens.deep_view().len() == opens@.len());
            assert(opens.deep_view().take(len - k).drop_last() =~= opens.deep_view().take(
                len - k - 1,
            ));
            assert(opens.deep_view().take(len - k).last() == opens.deep_view()[len - k - 1]);
            assert(opens.deep_view()[len - k - 1] == opens@[len - k - 1]@);
        }
        if opens[len - 1 - k] == *x {
            return Some(k);
        }
        k = k + 1;
    }
    proof {
        assert(opens.deep_view().take(0) =~= Seq::<Seq<char>>::empty());
    }
    None
}

/// Scans a parameter list front to back.
fn find_param(params: &Vec<String>, x: &String) -> (r: Option<usize>)
    ensures
        match r {
            Some(k) => fwd_pos(params.deep_view(), x@) == Some(k as nat),
            None => fwd_pos(params.deep_view(), x@) is None,
        },
{
    let len = params.len();
    proof {
        assert(params.deep_view().len() == params@.len());
        assert(params.deep_view().skip(0) =~= params.deep_view());
    }
    let mut i: usize = 0;
    while i < len
        invariant
            i <= len,
            len == params@.len(),
            (match fwd_pos(params.deep_view().skip(i as int), x@) {
                Some(j) => fwd_pos(params.deep_view(), x@) == Some((j + i) as nat),
                None => fwd_pos(params.deep_view(), x@) is None,
            }),
        decreases len - i,
    {
        proof {
            assert(params.deep_view().len() == params@.len());
            assert(params.deep_view().skip(i as int).drop_first() =~= params.deep_view().skip(
                i + 1,
            ));
            assert(params.deep_view().skip(i as int)[0] == params.deep_view()[i as int]);
            assert(params.deep_view()[i as int] == params@[i as int]@);
        }
        if params[i] == *x {
            return Some(i);
        }
        i = i + 1;
    }
    None
}

impl Expr {
    fn into_anon_inner(
        self,
        globals: &Vec<(String, usize)>,
        params: &Vec<String>,
        opens: &mut Vec<String>,
    ) -> (r: Result<AnonExpr, String>)
        ensures
            final(opens)@ == old(opens)@,
            (match r {
                Ok(a) => anon_expr_spec(
                    self,
                    globals_view(globals@),
                    params.deep_view(),
                    old(opens).deep_view(),
                ) == Ok::<AnonExpr, Seq<char>>(a),
                Err(x) => anon_expr_spec(
                    self,
                    globals_view(globals@),
                    params.deep_view(),
                    old(opens).deep_view(),
                ) == Err::<AnonExpr, Seq<char>>(x@),
            }),
        decreases self,
    {
        match self {
            Expr::Id(x) => {
                match find_open(opens, &x) {
                    Some(k) => Ok(AnonExpr::DeBruijn(k)),
                    None => match find_param(params, &x) {
                        Some(k) => Ok(AnonExpr::ArgId(k)),
                        None => match globals_get(globals, &x) {
                            Some(i) => Ok(AnonExpr::DefId(i)),
                            None => Err(x),
                        },
                    },
                }
            },
            Expr::Prim(n) => Ok(AnonExpr::Prim(n)),
            Expr::App(e1, e2) => {
                match (*e1).into_anon_inner(globals, params, opens) {
                    Ok(a1) => match (*e2).into_anon_inner(globals, params, opens) {
                        Ok(a2) => Ok(AnonExpr::App(Box::new(a1), Box::new(a2))),
                        Err(x) => Err(x),
                    },
                    Err(x) => Err(x),
                }
            },
            Expr::Lam(ids, e1) => {
                let ghost prior = opens@;
                let prev_len = opens.len();
                let ids_len = ids.len();
                let mut i: usize = 0;
                while i < ids_len
                    invariant
                        i <= ids_len,
                        ids_len == ids@.len(),
                        opens@ == prior + ids@.take(i as int),
                    decreases ids_len - i,
                {
                    opens.push(ids[i].clone());
                    proof {
                        assert(prior + ids@.take(i as int) + seq![ids@[i as int]] =~= prior
                            + ids@.take(i + 1));
                    }
                    i = i + 1;
                }
                proof {
                    assert(ids@.take(ids_len as int) =~= ids@);
                    assert(opens.deep_view() =~= old(opens).deep_view() + ids.deep_view());
                }
                let inner = (*e1).into_anon_inner(globals, params, opens);
                opens.truncate(prev_len);
                proof {
                    assert(opens@ =~= prior);
                }
                match inner {
                    Ok(a) => {
                        let mut wrapped = a;
                        let mut k: usize = 0;
                        let ghost base = wrapped;
                        while k < ids_len
                            invariant
                                k <= ids_len,
                                wrapped == wrap_lams(base, k as nat),
                            decreases ids_len - k,
                        {
                            wrapped = AnonExpr::Lam(Box::new(wrapped));
                            k = k + 1;
                        }
                        Ok(wrapped)
                    },
                    Err(x) => Err(x),
                }
            },
        }
    }

    /// Anonymizes a standalone expression against a top-level map and a
    /// parameter list.  An undefined identifier is reported with an empty
    /// definition name.
    pub fn into_anon(self, globals: &Vec<(String, usize)>, params: &Vec<String>) -> (r: Result<
        AnonExpr,
        Error,
    >)
        ensures
            (match r {
                Ok(a) => anon_expr_spec(
                    self,
                    globals_view(globals@),
                    params.deep_view(),
                    Seq::empty(),
                ) == Ok::<AnonExpr, Seq<char>>(a),
                Err(e) => {
                    &&& anon_expr_spec(
                        self,
                        globals_view(globals@),
                        params.deep_view(),
                        Seq::empty(),
                    ) matches Err(x)
                    &&& e@ == (ErrorView::UndefinedIdent {
                        def_name: Seq::<char>::empty(),
                        undefined_name: x,
                    })
                },
            }),
    {
        let mut opens: Vec<String> = Vec::new();
        proof {
            assert(opens.deep_view() =~= Seq::<Seq<char>>::empty());
        }
        match self.into_anon_inner(globals, params, &mut opens) {
            Ok(a) => Ok(a),
            Err(x) => Err(Error::UndefinedIdent { def_name: String::new(), undefined_name: x }),
        }
    }
}

proof fn lemma_first_dup_found(s: Seq<Seq<char>>, i: int, j: int)
    requires
        0 <= j < i < s.len(),
        first_dup(s.take(i)) is None,
        s[j] == s[i],
    ensures
        first_dup(s) == Some(s[i]),
{
    assert(s.take(i)[j] == s[j]);
    assert(s.take(i).contains(s[i]));
    assert(s.take(i + 1).drop_last() =~= s.take(i));
    assert(s.take(i + 1).last() == s[i]);
    assert(first_dup(s.take(i + 1)) == Some(s[i]));
    lemma_first_dup_propagate(s, i + 1);
}

proof fn lemma_first_dup_propagate(s: Seq<Seq<char>>, m: int)
    requires
        0 <= m <= s.len(),
        first_dup(s.take(m)) is Some,
    ensures
        first_dup(s) == first_dup(s.take(m)),
    decreases s.len() - m,
{
    if m < s.len() {
        assert(s.take(m + 1).drop_last() =~= s.take(m));
        lemma_first_dup_propagate(s, m + 1);
    } else {
        assert(s.take(m) =~= s);
    }
}

proof fn lemma_build_globals_propagate(s: Seq<Def>, m: int)
    requires
        0 <= m <= s.len(),
        build_globals(s.take(m)) is Err,
    ensures
        build_globals(s) == build_globals(s.take(m)),
    decreases s.len() - m,
{
    if m < s.len() {
        assert(s.take(m + 1).drop_last() =~= s.take(m));
        lemma_build_globals_propagate(s, m + 1);
    } else {
        assert(s.take(m) =~= s);
    }
}

proof fn lemma_anon_defs_propagate(s: Seq<Def>, g: Map<Seq<char>, nat>, m: int)
    requires
        0 <= m <= s.len(),
        anon_defs_spec(s.take(m), g) is Err,
    ensures
        anon_defs_spec(s, g) == anon_defs_spec(s.take(m), g),
    decreases s.len() - m,
{
    if m < s.len() {
        assert(s.take(m + 1).drop_last() =~= s.take(m));
        lemma_anon_defs_propagate(s, g, m + 1);
    } else {
        assert(s.take(m) =~= s);
    }
}

proof fn lemma_rev_pos_bound(opens: Seq<Seq<char>>, x: Seq<char>)
    ensures
        rev_pos(opens, x) matches Some(k) ==> k < opens.len(),
    decreases opens.len(),
{
    if opens.len() > 0 {
        lemma_rev_pos_bound(opens.drop_last(), x);
    }
}

proof fn lemma_fwd_pos_bound(params: Seq<Seq<char>>, x: Seq<char>)
    ensures
        fwd_pos(params, x) matches Some(k) ==> k < params.len(),
    decreases params.len(),
{
    if params.len() > 0 {
        lemma_fwd_pos_bound(params.drop_first(), x);
    }
}

proof fn lemma_wrap_lams_wf(a: AnonExpr, k: nat, ndefs: nat, nparams: nat, depth: nat)
    requires
        anon_expr_wf(a, ndefs, nparams, depth + k),
    ensures
        anon_expr_wf(wrap_lams(a, k), ndefs, nparams, depth),
    decreases k,
{
    if k > 0 {
        lemma_wrap_lams_wf(a, (k - 1) as nat, ndefs, nparams, depth + 1);
    }
}

proof fn lemma_anon_expr_spec_wf(
    e: Expr,
    g: Map<Seq<char>, nat>,
    params: Seq<Seq<char>>,
    opens: Seq<Seq<char>>,
    ndefs: nat,
)
    requires
        globals_bounded(g, ndefs),
    ensures
        anon_expr_spec(e, g, params, opens) matches Ok(a) ==> anon_expr_wf(
            a,
            ndefs,
            params.len(),
            opens.len(),
        ),
    decreases e,
{
    match e {
        Expr::Id(x) => {
            lemma_rev_pos_bound(opens, x@);
            lemma_fwd_pos_bound(params, x@);
        },
        Expr::Prim(_) => {},
        Expr::App(e1, e2) => {
            lemma_anon_expr_spec_wf(*e1, g, params, opens, ndefs);
            lemma_anon_expr_spec_wf(*e2, g, params, opens, ndefs);
        },
        Expr::Lam(ids, e1) => {
            lemma_anon_expr_spec_wf(*e1, g, params, opens + ids.deep_view(), ndefs);
            match anon_expr_spec(*e1, g, params, opens + ids.deep_view()) {
                Ok(a) => lemma_wrap_lams_wf(a, ids.len() as nat, ndefs, params.len(), opens.len()),
                Err(_) => {},
            }
        },
    }
}

proof fn lemma_anon_def_spec_wf(d: Def, g: Map<Seq<char>, nat>, ndefs: nat)
    requires
        globals_bounded(g, ndefs),
    ensures
        anon_def_spec(d, g) matches Ok(ad) ==> {
            &&& anon_def_wf(ad, ndefs)
            &&& ad.name == Name::Named(d.name)
            &&& ad.params == d.params.len()
        },
{
    match d.body {
        Some(b) => {
            lemma_anon_expr_spec_wf(b, g, d.params.deep_view(), Seq::empty(), ndefs);
            assert(d.params.deep_view().len() == d.params@.len());
        },
        None => {},
    }
}

proof fn lemma_build_globals_bounded(defs: Seq<Def>)
    ensures
        build_globals(defs) matches Ok(m) ==> globals_bounded(m, defs.len()),
    decreases defs.len(),
{
    if defs.len() > 0 {
        lemma_build_globals_bounded(defs.drop_last());
    }
}

proof fn lemma_anon_defs_spec_props(defs: Seq<Def>, g: Map<Seq<char>, nat>, s: Seq<AnonDef>)
    requires
        anon_defs_spec(defs, g) == Ok::<Seq<AnonDef>, ErrorView>(s),
    ensures
        s.len() == defs.len(),
        forall|i: int| 0 <= i < defs.len() ==> anon_def_spec(#[trigger] defs[i], g) == Ok::<
            AnonDef,
            ErrorView,
        >(s[i]),
    decreases defs.len(),
{
    if defs.len() > 0 {
        match anon_defs_spec(defs.drop_last(), g) {
            Ok(s0) => {
                lemma_anon_defs_spec_props(defs.drop_last(), g, s0);
                assert(forall|i: int| 0 <= i < defs.len() - 1 ==> defs.drop_last()[i] == defs[i]);
            },
            Err(_) => {},
        }
    }
}

impl Def {
    /// Anonymizes one definition against the top-level map.
    pub fn into_anon(self, globals: &Vec<(String, usize)>) -> (r: Result<AnonDef, Error>)
        ensures
            (match r {
                Ok(d) => anon_def_spec(self, globals_view(globals@)) == Ok::<AnonDef, ErrorView>(
                    d,
                ),
                Err(e) => anon_def_spec(self, globals_view(globals@)) == Err::<AnonDef, ErrorView>(
                    e@,
                ),
            }),
    {
        let Def { name, params, body } = self;
        match body {
            None => Ok(AnonDef { name: Name::Named(name), params: params.len(), body: None }),
            Some(b) => {
                let n = params.len();
                proof {
                    assert(params.deep_view().len() == params@.len());
                }
                let mut i: usize = 0;
                while i < n
                    invariant
                        i <= n,
                        n == params@.len(),
                        n == params.deep_view().len(),
                        first_dup(params.deep_view().take(i as int)) is None,
                        self.name == name,
                        self.params == params,
                        self.body == Some(b),
                    decreases n - i,
                {
                    let mut j: usize = 0;
                    while j < i
                        invariant
                            j <= i,
                            i < n,
                            n == params@.len(),
                            n == params.deep_view().len(),
                            first_dup(params.deep_view().take(i as int)) is None,
                            self.name == name,
                            self.params == params,
                            self.body == Some(b),
                            forall|j2: int| 0 <= j2 < j ==> params.deep_view()[j2]
                                != params.deep_view()[i as int],
                        decreases i - j,
                    {
                        if params[j] == params[i] {
                            proof {
                                let dv = params.deep_view();
                                assert(dv[j as int] == params@[j as int]@);
                                assert(dv[i as int] == params@[i as int]@);
                                lemma_first_dup_found(dv, i as int, j as int);
                                assert(self.name == name);
                                assert(self.params == params);
                                assert(self.body == Some(b));
                                assert(anon_def_spec(self, globals_view(globals@))
                                    == Err::<AnonDef, ErrorView>(
                                    ErrorView::ScParamNameCollision {
                                        def_name: name@,
                                        param_name: dv[i as int],
                                    },
                                ));
                            }
                            let dup_name = params[i].clone();
                            proof {
                                assert(dup_name@ == params.deep_view()[i as int]);
                            }
                            return Err(
                                Error::ScParamNameCollision {
                                    def_name: name,
                                    param_name: dup_name,
                                },
                            );
                        }
                        j = j + 1;
                    }
                    proof {
                        let dv = params.deep_view();
                        assert(forall|j2: int|
                            0 <= j2 < i ==> dv.take(i as int)[j2] == dv[j2]);
                        assert(!dv.take(i as int).contains(dv[i as int]));
                        assert(dv.take(i + 1).drop_last() =~= dv.take(i as int));
                        assert(dv.take(i + 1).last() == dv[i as int]);
                    }
                    i = i + 1;
                }
                proof {
                    assert(params.deep_view().take(n as int) =~= params.deep_view());
                }
                let mut opens: Vec<String> = Vec::new();
                proof {
                    assert(opens.deep_view() =~= Seq::<Seq<char>>::empty());
                }
                match b.into_anon_inner(globals, &params, &mut opens) {
                    Ok(a) => Ok(AnonDef { name: Name::Named(name), params: n, body: Some(a) }),
                    Err(x) => Err(
                        Error::UndefinedIdent { def_name: name, undefined_name: x },
                    ),
                }
            },
        }
    }
}

impl Program {
    /// Anonymizes a whole program: assigns each definition its index,
    /// rejects repeated top-level names, and translates every body.
    pub fn into_anon(self) -> (r: Result<AnonProgram, Error>)
        ensures
            (match r {
                Ok(p) => {
                    &&& into_anon_spec(self.defs@) == Ok::<Seq<AnonDef>, ErrorView>(p.defs@)
                    &&& p.defs@.len() == self.defs@.len()
                    &&& anon_defs_wf(p.defs@)
                    &&& forall|i: int|
                        0 <= i < p.defs@.len() ==> (#[trigger] p.defs@[i]).name == Name::Named(
                            self.defs@[i].name,
                        )
                },
                Err(e) => into_anon_spec(self.defs@) matches Err(ev) && e@ == ev,
            }),
    {
        let ghost odefs = self.defs@;
        let mut globals: Vec<(String, usize)> = Vec::new();
        let n = self.defs.len();
        let mut i: usize = 0;
        proof {
            assert(odefs.take(0) =~= Seq::<Def>::empty());
        }
        while i < n
            invariant
                i <= n,
                n == self.defs@.len(),
                odefs == self.defs@,
                build_globals(odefs.take(i as int)) == Ok::<Map<Seq<char>, nat>, Seq<char>>(
                    globals_view(globals@),
                ),
            decreases n - i,
        {
            proof {
                assert(odefs.take(i + 1).drop_last() =~= odefs.take(i as int));
                assert(odefs.take(i + 1).last() == odefs[i as int]);
            }
            match globals_get(&globals, &self.defs[i].name) {
                Some(_) => {
                    proof {
                        lemma_build_globals_propagate(odefs, i + 1);
                    }
                    return Err(
                        Error::TopLevelNameCollision { name: self.defs[i].name.clone() },
                    );
                },
                None => {},
            }
            let entry_name = self.defs[i].name.clone();
            let ghost gsnap = globals@;
            globals.push((entry_name, i));
            proof {
                assert(globals@.drop_last() =~= gsnap);
                assert(globals@.last().0@ == odefs[i as int].name@);
                assert(globals@.last().1 == i);
                assert(globals_view(globals@) == globals_view(gsnap).insert(
                    odefs[i as int].name@,
                    i as nat,
                ));
            }
            i = i + 1;
        }
        proof {
            assert(odefs.take(n as int) =~= odefs);
            lemma_build_globals_bounded(odefs);
        }
        let ghost gmap = globals_view(globals@);
        let mut remaining = self.defs;
        let mut out: Vec<AnonDef> = Vec::new();
        let ghost processed = 0int;
        proof {
            assert(odefs.take(0) =~= Seq::<Def>::empty());
            assert(odefs.skip(0) =~= remaining@);
        }
        while remaining.len() > 0
            invariant
                0 <= processed <= odefs.len(),
                processed + remaining@.len() == odefs.len(),
                odefs.skip(processed) =~= remaining@,
                out@.len() == processed,
                anon_defs_spec(odefs.take(processed), gmap) == Ok::<Seq<AnonDef>, ErrorView>(out@),
                globals_view(globals@) == gmap,
                build_globals(odefs) == Ok::<Map<Seq<char>, nat>, Seq<char>>(gmap),
                globals_bounded(gmap, odefs.len() as nat),
                odefs == self.defs@,
            decreases remaining@.len(),
        {
            let d = remaining.remove(0);
            proof {
                assert(odefs[processed] == d);
                assert(odefs.take(processed + 1).drop_last() =~= odefs.take(processed));
                assert(odefs.take(processed + 1).last() == odefs[processed]);
            }
            match d.into_anon(&globals) {
                Ok(ad) => {
                    out.push(ad);
                    proof {
                        processed = processed + 1;
                        assert(odefs.skip(processed) =~= remaining@);
                    }
                },
                Err(e) => {
                    proof {
                        lemma_anon_defs_propagate(odefs, gmap, processed + 1);
                    }
                    return Err(e);
                },
            }
        }
        proof {
            assert(processed == odefs.len());
            assert(odefs.take(processed) =~= odefs);
            lemma_anon_defs_spec_props(odefs, gmap, out@);
            assert forall|k: int| 0 <= k < out@.len() implies anon_def_wf(
                #[trigger] out@[k],
                out@.len() as nat,
            ) && out@[k].name == Name::Named(odefs[k].name) by {
                lemma_anon_def_spec_wf(odefs[k], gmap, odefs.len() as nat);
            }
        }
        Ok(AnonProgram { defs: out })
    }
}

/// Parameters shadow top-level names: a definition whose body is exactly
/// its own single parameter anonymizes to `ArgId(0)`, whatever the
/// top-level map binds that identifier to.
pub proof fn lemma_param_shadows_global(d: Def, g: Map<Seq<char>, nat>)
    requires
        d.params@.len() == 1,
        ({
            &&& d.body matches Some(b)
            &&& b matches Expr::Id(x)
            &&& x@ == d.params@[0]@
        }),
    ensures
        anon_def_spec(d, g) matches Ok(ad) && ad.params == 1 && ad.body == Some(
            AnonExpr::ArgId(0),
        ),
{
    let dv = d.params.deep_view();
    assert(dv.len() == 1);
    assert(dv[0] == d.params@[0]@);
    assert(dv.drop_last() =~= Seq::<Seq<char>>::empty());
    assert(first_dup(Seq::<Seq<char>>::empty()) is None);
    assert(!Seq::<Seq<char>>::empty().contains(dv.last()));
    assert(first_dup(dv) is None);
    let b = d.body->Some_0;
    let x = b->Id_0;
    assert(rev_pos(Seq::<Seq<char>>::empty(), x@) is None);
    assert(dv.drop_first() =~= Seq::<Seq<char>>::empty());
    assert(dv[0] == x@);
    assert(fwd_pos(dv, x@) == Some(0nat));
}

/// De Bruijn indices count outward from the innermost lambda: a two
/// parameter lambda returning its first parameter anonymizes to
/// `Lam(Lam(DeBruijn(1)))`, and one returning its second parameter to
/// `Lam(Lam(DeBruijn(0)))`.
pub proof fn lemma_de_bruijn_indices(
    e: Expr,
    g: Map<Seq<char>, nat>,
    params: Seq<Seq<char>>,
    which: int,
)
    requires
        0 <= which < 2,
        ({
            &&& e matches Expr::Lam(ids, b)
            &&& ids@.len() == 2
            &&& ids@[0]@ != ids@[1]@
            &&& *b matches Expr::Id(x)
            &&& x@ == ids@[which]@
        }),
    ensures
        which == 0 ==> anon_expr_spec(e, g, params, Seq::empty()) == Ok::<AnonExpr, Seq<char>>(
            AnonExpr::Lam(Box::new(AnonExpr::Lam(Box::new(AnonExpr::DeBruijn(1))))),
        ),
        which == 1 ==> anon_expr_spec(e, g, params, Seq::empty()) == Ok::<AnonExpr, Seq<char>>(
            AnonExpr::Lam(Box::new(AnonExpr::Lam(Box::new(AnonExpr::DeBruijn(0))))),
        ),
{
    let ids = e->Lam_0;
    let b = e->Lam_1;
    let x = b->Id_0;
    let dv = ids.deep_view();
    assert(dv.len() == 2);
    assert(dv[0] == ids@[0]@);
    assert(dv[1] == ids@[1]@);
    let opens = Seq::<Seq<char>>::empty() + dv;
    assert(opens =~= dv);
    assert(dv.last() == dv[1]);
    assert(dv.drop_last() =~= seq![dv[0]]);
    assert(ids.len() == ids@.len());
    if which == 1 {
        assert(x@ == dv[1]);
        assert(rev_pos(dv, x@) == Some(0nat));
        assert(anon_expr_spec(*b, g, params, opens) == Ok::<AnonExpr, Seq<char>>(
            AnonExpr::DeBruijn(0),
        ));
        assert(anon_expr_spec(e, g, params, Seq::empty()) == Ok::<AnonExpr, Seq<char>>(
            wrap_lams(AnonExpr::DeBruijn(0), 2),
        ));
    } else {
        assert(x@ == dv[0]);
        assert(x@ != dv[1]);
        assert(seq![dv[0]].last() == dv[0]);
        assert(seq![dv[0]].drop_last() =~= Seq::<Seq<char>>::empty());
        assert(rev_pos(seq![dv[0]], x@) == Some(0nat));
        assert(rev_pos(dv, x@) == Some(1nat));
        assert(anon_expr_spec(*b, g, params, opens) == Ok::<AnonExpr, Seq<char>>(
            AnonExpr::DeBruijn(1),
        ));
        assert(anon_expr_spec(e, g, params, Seq::empty()) == Ok::<AnonExpr, Seq<char>>(
            wrap_lams(AnonExpr::DeBruijn(1), 2),
        ));
    }
    reveal_with_fuel(wrap_lams, 3);
    assert(wrap_lams(AnonExpr::DeBruijn(0), 2) == AnonExpr::Lam(
        Box::new(AnonExpr::Lam(Box::new(AnonExpr::DeBruijn(0)))),
    ));
    assert(wrap_lams(AnonExpr::DeBruijn(1), 2) == AnonExpr::Lam(
        Box::new(AnonExpr::Lam(Box::new(AnonExpr::DeBruijn(1)))),
    ));
}

} // verus!
