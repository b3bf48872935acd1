//! Supercombinator compression: alias resolution replaces every
//! zero-parameter body `DefId(j)` by the parameters and body found at the
//! end of the alias chain starting at `j`, and deduplication keeps one
//! representative of every group of definitions with identical parameter
//! count and body — a named one whenever the group has any, never removing
//! a named definition.  Surviving bodies are renumbered through the
//! permutation of kept indices and generated names are renumbered to be
//! consecutive from zero, in definition order.  The two phases repeat
//! until the definition count stops shrinking.
//!
//! Chains `a = b = c` collapse in one sweep because the alias phase
//! follows the chain to its end.  Only a cyclic chain (`a = b; b = a`) has
//! no end: its members are left as they are, the one shape on which a
//! zero-parameter `DefId` body can survive compression.

use vstd::prelude::*;
use crate::structures::Name;
use crate::structures::ScDef;
use crate::structures::ScExpr;
use crate::structures::ScProgram;
use crate::structures::sc_def_wf;
use crate::structures::sc_defs_wf;
use crate::structures::sc_expr_wf;

verus! {

/// The user-given names of a definition sequence, in order.
pub open spec fn named_names(defs: Seq<ScDef>) -> Seq<Name>
    decreases defs.len(),
{
    if defs.len() == 0 {
        Seq::empty()
    } else {
        named_names(defs.drop_last()) + (if defs.last().name is Named {
            seq![defs.last().name]
        } else {
            Seq::empty()
        })
    }
}

/// How many entries of `s` are true.
pub open spec fn count_true(s: Seq<bool>) -> nat
    decreases s.len(),
{
    if s.len() == 0 {
        0
    } else {
        count_true(s.drop_last()) + (if s.last() {
            1nat
        } else {
            0nat
        })
    }
}

proof fn lemma_count_true_all(s: Seq<bool>)
    requires
        count_true(s) == s.len(),
    ensures
        forall|k: int| 0 <= k < s.len() ==> s[k] == true,
    decreases s.len(),
{
    if s.len() > 0 {
        lemma_count_true_bound(s.drop_last());
        lemma_count_true_all(s.drop_last());
        assert(forall|k: int| 0 <= k < s.len() - 1 ==> s[k] == s.drop_last()[k]);
    }
}

proof fn lemma_count_true_bound(s: Seq<bool>)
    ensures
        count_true(s) <= s.len(),
    decreases s.len(),
{
    if s.len() > 0 {
        lemma_count_true_bound(s.drop_last());
    }
}

/// How many definitions of `s` carry a generated name.
pub open spec fn count_unnamed(s: Seq<ScDef>) -> nat
    decreases s.len(),
{
    if s.len() == 0 {
        0
    } else {
        count_unnamed(s.drop_last()) + (if s.last().name is Unnamed {
            1nat
        } else {
            0nat
        })
    }
}

proof fn lemma_count_unnamed_bound(s: Seq<ScDef>)
    ensures
        count_unnamed(s) <= s.len(),
    decreases s.len(),
{
    if s.len() > 0 {
        lemma_count_unnamed_bound(s.drop_last());
    }
}

proof fn lemma_count_unnamed_pointwise(s1: Seq<ScDef>, s2: Seq<ScDef>, m: int)
    requires
        0 <= m <= s1.len(),
        m <= s2.len(),
        forall|k: int| 0 <= k < m ==> ((#[trigger] s1[k]).name is Unnamed <==> s2[k].name
            is Unnamed),
    ensures
        count_unnamed(s1.take(m)) == count_unnamed(s2.take(m)),
    decreases m,
{
    if m > 0 {
        lemma_count_unnamed_pointwise(s1, s2, m - 1);
        assert(s1.take(m).drop_last() =~= s1.take(m - 1));
        assert(s2.take(m).drop_last() =~= s2.take(m - 1));
        assert(s1.take(m).last() == s1[m - 1]);
        assert(s2.take(m).last() == s2[m - 1]);
    }
}

proof fn lemma_count_true_mono(s: Seq<bool>, m1: int, m2: int)
    requires
        0 <= m1 <= m2 <= s.len(),
    ensures
        count_true(s.take(m1)) <= count_true(s.take(m2)),
    decreases m2 - m1,
{
    if m1 < m2 {
        lemma_count_true_mono(s, m1, m2 - 1);
        assert(s.take(m2).drop_last() =~= s.take(m2 - 1));
    }
}

proof fn lemma_count_true_prefix_all(s: Seq<bool>, m: int)
    requires
        0 <= m <= s.len(),
        forall|k: int| 0 <= k < s.len() ==> s[k] == true,
    ensures
        count_true(s.take(m)) == m,
    decreases m,
{
    if m > 0 {
        lemma_count_true_prefix_all(s, m - 1);
        assert(s.take(m).drop_last() =~= s.take(m - 1));
        assert(s.take(m).last() == s[m - 1]);
    }
}

proof fn lemma_renumber_identity(e: ScExpr, table: Seq<usize>)
    requires
        defids_below(e, table.len() as nat),
        forall|k: int| 0 <= k < table.len() ==> (#[trigger] table[k]) as int == k,
    ensures
        renumber_spec(e, table) == e,
    decreases e,
{
    match e {
        ScExpr::App(e1, e2) => {
            lemma_renumber_identity(*e1, table);
            lemma_renumber_identity(*e2, table);
        },
        _ => {},
    }
}

proof fn lemma_named_names_push(s: Seq<ScDef>, x: ScDef)
    ensures
        named_names(s.push(x)) == named_names(s) + (if x.name is Named {
            seq![x.name]
        } else {
            Seq::<Name>::empty()
        }),
{
    assert(s.push(x).drop_last() =~= s);
    assert(s.push(x).last() == x);
}

/// The deduplication key of a definition: its parameter count and body.
pub open spec fn sc_key_eq(x: ScDef, y: ScDef) -> bool {
    x.params == y.params && x.body == y.body
}

/// Every definition reference in `e` stays below `n`.
pub open spec fn defids_below(e: ScExpr, n: nat) -> bool
    decreases e,
{
    match e {
        ScExpr::DefId(i) => i < n,
        ScExpr::App(e1, e2) => defids_below(*e1, n) && defids_below(*e2, n),
        _ => true,
    }
}

/// `e` with every definition reference sent through `table`.
pub open spec fn renumber_spec(e: ScExpr, table: Seq<usize>) -> ScExpr
    decreases e,
{
    match e {
        ScExpr::DefId(i) => ScExpr::DefId(table[i as int]),
        ScExpr::App(e1, e2) => ScExpr::App(
            Box::new(renumber_spec(*e1, table)),
            Box::new(renumber_spec(*e2, table)),
        ),
        _ => e,
    }
}

/// Whether definition `k` is an alias: no parameters and a body that is a
/// bare in-range definition reference.
pub open spec fn is_alias(defs: Seq<ScDef>, k: int) -> bool {
    &&& 0 <= k < defs.len()
    &&& defs[k].params == 0
    &&& (defs[k].body matches Some(b) && b matches ScExpr::DefId(t) && t < defs.len())
}

/// The definition an alias refers to.
pub open spec fn alias_target(defs: Seq<ScDef>, k: int) -> int {
    defs[k].body->Some_0->DefId_0 as int
}

/// The end of the alias chain starting at `k`, following at most `fuel`
/// links: the first non-alias reached, or — only on a cyclic chain — some
/// member of the cycle.
pub open spec fn chase(defs: Seq<ScDef>, k: int, fuel: nat) -> int
    decreases fuel,
{
    if fuel == 0 {
        k
    } else if is_alias(defs, k) {
        chase(defs, alias_target(defs, k), (fuel - 1) as nat)
    } else {
        k
    }
}

/// One alias-resolution sweep from position `i` on: an alias receives the
/// parameters and body found at the end of its chain, keeping its own
/// name; a member of a cyclic chain is left unchanged.  The sweep
/// continues on the updated sequence.
pub open spec fn alias_pass(defs: Seq<ScDef>, i: nat) -> Seq<ScDef>
    decreases defs.len() - i,
{
    if i >= defs.len() {
        defs
    } else {
        let folded = if is_alias(defs, i as int) {
            let t = chase(defs, alias_target(defs, i as int), defs.len());
            if !is_alias(defs, t) {
                defs.update(
                    i as int,
                    ScDef {
                        name: defs[i as int].name,
                        params: defs[t].params,
                        body: defs[t].body,
                    },
                )
            } else {
                defs
            }
        } else {
            defs
        };
        alias_pass(folded, i + 1)
    }
}

/// Every generated name replaced by its rank among the generated names,
/// counting from zero in definition order.
pub open spec fn rename_defs(defs: Seq<ScDef>) -> Seq<ScDef> {
    Seq::new(
        defs.len(),
        |i: int|
            ScDef {
                name: (match defs[i].name {
                    Name::Named(s) => Name::Named(s),
                    Name::Unnamed(_) => Name::Unnamed(count_unnamed(defs.take(i)) as usize),
                }),
                params: defs[i].params,
                body: defs[i].body,
            },
    )
}


/// Whether deduplication keeps definition `k`: named and body-less
/// definitions always stay, and a generated bodied definition stays only
/// as the representative of its own key.
pub open spec fn keep_spec(defs: Seq<ScDef>, k: int) -> bool {
    ||| defs[k].name is Named
    ||| defs[k].body is None
    ||| dedup_target(defs, defs[k].params, defs[k].body) == Some(k)
}

/// The keep decision for every definition.
pub open spec fn keep_seq(defs: Seq<ScDef>) -> Seq<bool> {
    Seq::new(defs.len(), |k: int| keep_spec(defs, k))
}

/// The renumbering table: a kept definition maps to the count of kept
/// definitions before it, a removed one to its representative's new index.
pub open spec fn table_seq(defs: Seq<ScDef>) -> Seq<usize> {
    Seq::new(
        defs.len(),
        |k: int|
            (if keep_spec(defs, k) {
                count_true(keep_seq(defs).take(k))
            } else {
                count_true(
                    keep_seq(defs).take(
                        dedup_target(defs, defs[k].params, defs[k].body)->Some_0,
                    ),
                )
            }) as usize,
    )
}

/// The definitions kept from the first `i`, in order: bodies renumbered
/// through the table, generated names set to the new index.
pub open spec fn rebuild_spec(defs: Seq<ScDef>, i: int) -> Seq<ScDef>
    decreases i,
{
    if i <= 0 {
        Seq::empty()
    } else {
        let prefix = rebuild_spec(defs, i - 1);
        prefix + (if keep_spec(defs, i - 1) {
            seq![
                ScDef {
                    name: (match defs[i - 1].name {
                        Name::Named(s) => Name::Named(s),
                        Name::Unnamed(_) => Name::Unnamed(count_unnamed(prefix) as usize),
                    }),
                    params: defs[i - 1].params,
                    body: (match defs[i - 1].body {
                        Some(b) => Some(renumber_spec(b, table_seq(defs))),
                        None => None,
                    }),
                },
            ]
        } else {
            Seq::empty()
        })
    }
}

/// One compression round: alias resolution, then deduplication with
/// renumbering and renaming.
pub open spec fn round_spec(defs: Seq<ScDef>) -> Seq<ScDef> {
    let folded = alias_pass(defs, 0);
    rebuild_spec(folded, folded.len() as int)
}

proof fn lemma_rebuild_len(defs: Seq<ScDef>, i: int)
    requires
        0 <= i <= defs.len(),
    ensures
        rebuild_spec(defs, i).len() <= i,
    decreases i,
{
    if i > 0 {
        lemma_rebuild_len(defs, i - 1);
    }
}

proof fn lemma_chase_in_range(defs: Seq<ScDef>, k: int, fuel: nat)
    requires
        0 <= k < defs.len(),
    ensures
        0 <= chase(defs, k, fuel) < defs.len(),
    decreases fuel,
{
    if fuel > 0 && is_alias(defs, k) {
        lemma_chase_in_range(defs, alias_target(defs, k), (fuel - 1) as nat);
    }
}

proof fn lemma_alias_pass_len(defs: Seq<ScDef>, i: nat)
    ensures
        alias_pass(defs, i).len() == defs.len(),
    decreases defs.len() - i,
{
    if i < defs.len() {
        if is_alias(defs, i as int) {
            let t = chase(defs, alias_target(defs, i as int), defs.len());
            if !is_alias(defs, t) {
                lemma_alias_pass_len(
                    defs.update(
                        i as int,
                        ScDef {
                            name: defs[i as int].name,
                            params: defs[t].params,
                            body: defs[t].body,
                        },
                    ),
                    i + 1,
                );
            } else {
                lemma_alias_pass_len(defs, i + 1);
            }
        } else {
            lemma_alias_pass_len(defs, i + 1);
        }
    }
}

/// What the whole compression returns: rounds are applied until one
/// removes nothing.
pub open spec fn compress_spec(defs: Seq<ScDef>) -> Seq<ScDef>
    decreases defs.len(),
    via compress_spec_decreases
{
    let r = round_spec(defs);
    if r.len() == defs.len() {
        r
    } else {
        compress_spec(r)
    }
}

#[via_fn]
proof fn compress_spec_decreases(defs: Seq<ScDef>) {
    lemma_alias_pass_len(defs, 0);
    lemma_rebuild_len(alias_pass(defs, 0), alias_pass(defs, 0).len() as int);
}

proof fn lemma_unnamed_numbering_push(out_before: Seq<ScDef>, x: ScDef)
    requires
        forall|k: int|
            0 <= k < out_before.len() && (#[trigger] out_before[k]).name is Unnamed
                ==> out_before[k].name == Name::Unnamed(count_unnamed(out_before.take(k)) as usize),
        x.name is Unnamed ==> x.name == Name::Unnamed(count_unnamed(out_before) as usize),
    ensures
        forall|k: int|
            0 <= k < out_before.push(x).len() && (#[trigger] out_before.push(x)[k]).name
                is Unnamed ==> out_before.push(x)[k].name == Name::Unnamed(
                count_unnamed(out_before.push(x).take(k)) as usize,
            ),
{
    let out = out_before.push(x);
    assert forall|k: int|
        0 <= k < out.len() && (#[trigger] out[k]).name is Unnamed implies out[k].name
        == Name::Unnamed(count_unnamed(out.take(k)) as usize) by {
        if k < out_before.len() {
            assert(out[k] == out_before[k]);
            assert(out.take(k) =~= out_before.take(k));
        } else {
            assert(out.take(k) =~= out_before);
        }
    }
}

proof fn lemma_named_names_update(s: Seq<ScDef>, i: int, d: ScDef)
    requires
        0 <= i < s.len(),
        d.name == s[i].name,
    ensures
        named_names(s.update(i, d)) == named_names(s),
    decreases s.len(),
{
    if i == s.len() - 1 {
        assert(s.update(i, d).drop_last() =~= s.drop_last());
        assert(s.update(i, d).last() == d);
    } else {
        assert(s.update(i, d).drop_last() =~= s.drop_last().update(i, d));
        assert(s.update(i, d).last() == s.last());
        lemma_named_names_update(s.drop_last(), i, d);
    }
}

proof fn lemma_sc_wf_defids(e: ScExpr, nd: nat, np: nat)
    requires
        sc_expr_wf(e, nd, np),
    ensures
        defids_below(e, nd),
    decreases e,
{
    match e {
        ScExpr::App(e1, e2) => {
            lemma_sc_wf_defids(*e1, nd, np);
            lemma_sc_wf_defids(*e2, nd, np);
        },
        _ => {},
    }
}

proof fn lemma_renumber_wf(e: ScExpr, np: nat, table: Seq<usize>, bound: nat)
    requires
        defids_below(e, table.len() as nat),
        sc_expr_wf(e, table.len() as nat, np),
        forall|k: int| 0 <= k < table.len() ==> (#[trigger] table[k]) < bound,
    ensures
        sc_expr_wf(renumber_spec(e, table), bound, np),
    decreases e,
{
    match e {
        ScExpr::App(e1, e2) => {
            lemma_renumber_wf(*e1, np, table, bound);
            lemma_renumber_wf(*e2, np, table, bound);
        },
        _ => {},
    }
}

impl ScExpr {
    fn renumber(self, table: &Vec<usize>) -> (r: ScExpr)
        requires
            defids_below(self, table@.len() as nat),
        ensures
            r == renumber_spec(self, table@),
        decreases self,
    {
        match self {
            ScExpr::DefId(i) => ScExpr::DefId(table[i]),
            ScExpr::ArgId(i) => ScExpr::ArgId(i),
            ScExpr::Prim(n) => ScExpr::Prim(n),
            ScExpr::App(e1, e2) => ScExpr::App(
                Box::new((*e1).renumber(table)),
                Box::new((*e2).renumber(table)),
            ),
        }
    }
}

/// A copy of a name that provably preserves its value.
fn clone_name(n: &Name) -> (r: Name)
    ensures
        r == *n,
{
    match n {
        Name::Named(s) => Name::Named(s.clone()),
        Name::Unnamed(i) => Name::Unnamed(*i),
    }
}

/// Whether two definitions share their deduplication key.
fn key_eq(x: &ScDef, y: &ScDef) -> (r: bool)
    ensures
        r == sc_key_eq(*x, *y),
{
    if x.params != y.params {
        return false;
    }
    match (&x.body, &y.body) {
        (None, None) => true,
        (Some(a), Some(b)) => a.same_as(b),
        _ => false,
    }
}

/// The first index of `defs` whose definition has key `(p, b)`, if any.
pub open spec fn first_with_key(defs: Seq<ScDef>, p: usize, b: Option<ScExpr>) -> Option<int>
    decreases defs.len(),
{
    if defs.len() == 0 {
        None
    } else if defs[0].params == p && defs[0].body == b {
        Some(0)
    } else {
        match first_with_key(defs.drop_first(), p, b) {
            Some(k) => Some(k + 1),
            None => None,
        }
    }
}

/// The first index of `defs` whose definition has key `(p, b)` and a
/// user-given name, if any.
pub open spec fn first_named_with_key(defs: Seq<ScDef>, p: usize, b: Option<ScExpr>) -> Option<int>
    decreases defs.len(),
{
    if defs.len() == 0 {
        None
    } else if defs[0].params == p && defs[0].body == b && defs[0].name is Named {
        Some(0)
    } else {
        match first_named_with_key(defs.drop_first(), p, b) {
            Some(k) => Some(k + 1),
            None => None,
        }
    }
}

/// The representative that deduplication keeps for key `(p, b)`: the first
/// named definition of that key, or the first definition of that key.
pub open spec fn dedup_target(defs: Seq<ScDef>, p: usize, b: Option<ScExpr>) -> Option<int> {
    match first_named_with_key(defs, p, b) {
        Some(t) => Some(t),
        None => first_with_key(defs, p, b),
    }
}

proof fn lemma_first_with_key_props(defs: Seq<ScDef>, p: usize, b: Option<ScExpr>)
    ensures
        first_with_key(defs, p, b) matches Some(t) ==> 0 <= t < defs.len() && defs[t].params == p
            && defs[t].body == b && (forall|j: int|
            0 <= j < t ==> !((#[trigger] defs[j]).params == p && defs[j].body == b)),
        first_with_key(defs, p, b) is None ==> (forall|j: int|
            0 <= j < defs.len() ==> !((#[trigger] defs[j]).params == p && defs[j].body == b)),
    decreases defs.len(),
{
    if defs.len() > 0 {
        lemma_first_with_key_props(defs.drop_first(), p, b);
        match first_with_key(defs, p, b) {
            Some(t) => {
                if t > 0 {
                    assert(defs.drop_first()[t - 1] == defs[t]);
                    assert forall|j: int|
                        0 <= j < t implies !((#[trigger] defs[j]).params == p && defs[j].body
                        == b) by {
                        if j > 0 {
                            assert(defs.drop_first()[j - 1] == defs[j]);
                        }
                    }
                }
            },
            None => {
                assert forall|j: int|
                    0 <= j < defs.len() implies !((#[trigger] defs[j]).params == p && defs[j].body
                    == b) by {
                    if j > 0 {
                        assert(defs.drop_first()[j - 1] == defs[j]);
                    }
                }
            },
        }
    }
}

proof fn lemma_first_named_with_key_props(defs: Seq<ScDef>, p: usize, b: Option<ScExpr>)
    ensures
        first_named_with_key(defs, p, b) matches Some(t) ==> 0 <= t < defs.len() && defs[t].params
            == p && defs[t].body == b && defs[t].name is Named && (forall|j: int|
            0 <= j < t ==> !((#[trigger] defs[j]).params == p && defs[j].body == b
                && defs[j].name is Named)),
        first_named_with_key(defs, p, b) is None ==> (forall|j: int|
            0 <= j < defs.len() ==> !((#[trigger] defs[j]).params == p && defs[j].body == b
                && defs[j].name is Named)),
    decreases defs.len(),
{
    if defs.len() > 0 {
        lemma_first_named_with_key_props(defs.drop_first(), p, b);
        match first_named_with_key(defs, p, b) {
            Some(t) => {
                if t > 0 {
                    assert(defs.drop_first()[t - 1] == defs[t]);
                    assert forall|j: int|
                        0 <= j < t implies !((#[trigger] defs[j]).params == p && defs[j].body == b
                        && defs[j].name is Named) by {
                        if j > 0 {
                            assert(defs.drop_first()[j - 1] == defs[j]);
                        }
                    }
                }
            },
            None => {
                assert forall|j: int|
                    0 <= j < defs.len() implies !((#[trigger] defs[j]).params == p && defs[j].body
                    == b && defs[j].name is Named) by {
                    if j > 0 {
                        assert(defs.drop_first()[j - 1] == defs[j]);
                    }
                }
            },
        }
    }
}

/// Finds the representative index for `defs[i]`'s key.
fn find_target(defs: &Vec<ScDef>, i: usize) -> (t: usize)
    requires
        i < defs@.len(),
    ensures
        dedup_target(defs@, defs@[i as int].params, defs@[i as int].body) == Some(t as int),
        t < defs@.len(),
{
    let ghost p = defs@[i as int].params;
    let ghost b = defs@[i as int].body;
    let len = defs.len();
    let mut first: usize = i;
    let mut found_first = false;
    let mut named: usize = 0;
    let mut found_named = false;
    let mut j: usize = 0;
    while j < len
        invariant
            j <= len,
            len == defs@.len(),
            i < len,
            p == defs@[i as int].params,
            b == defs@[i as int].body,
            found_first ==> first < j && sc_key_eq(defs@[first as int], defs@[i as int]) && (
            forall|k: int|
                0 <= k < first ==> !sc_key_eq(#[trigger] defs@[k], defs@[i as int])),
            !found_first ==> (forall|k: int|
                0 <= k < j ==> !sc_key_eq(#[trigger] defs@[k], defs@[i as int])),
            found_named ==> named < j && sc_key_eq(defs@[named as int], defs@[i as int])
                && defs@[named as int].name is Named && (forall|k: int|
                0 <= k < named ==> !(sc_key_eq(#[trigger] defs@[k], defs@[i as int])
                    && defs@[k].name is Named)),
            !found_named ==> (forall|k: int|
                0 <= k < j ==> !(sc_key_eq(#[trigger] defs@[k], defs@[i as int])
                    && defs@[k].name is Named)),
        decreases len - j,
    {
        if key_eq(&defs[j], &defs[i]) {
            if !found_first {
                first = j;
                found_first = true;
            }
            if !found_named {
                let is_named = match &defs[j].name {
                    Name::Named(_) => true,
                    Name::Unnamed(_) => false,
                };
                if is_named {
                    named = j;
                    found_named = true;
                }
            }
        }
        j = j + 1;
    }
    proof {
        lemma_first_with_key_props(defs@, p, b);
        lemma_first_named_with_key_props(defs@, p, b);
        assert(sc_key_eq(defs@[i as int], defs@[i as int]));
        assert(found_first);
    }
    if found_named {
        proof {
            match first_named_with_key(defs@, p, b) {
                Some(t) => {
                    assert(t == named as int) by {
                        assert(sc_key_eq(defs@[t], defs@[i as int]));
                    };
                },
                None => {
                    assert(false);
                },
            }
        }
        named
    } else {
        proof {
            match first_named_with_key(defs@, p, b) {
                Some(t) => {
                    assert(false);
                },
                None => {},
            }
            match first_with_key(defs@, p, b) {
                Some(t) => {
                    assert(t == first as int) by {
                        assert(sc_key_eq(defs@[t], defs@[i as int]));
                    };
                },
                None => {
                    assert(false);
                },
            }
        }
        first
    }
}

impl ScProgram {
    /// Compresses the program: folds aliases, removes duplicate bodies
    /// (never a named definition — when a group holds a named definition,
    /// that one is kept and the generated duplicates are redirected to it),
    /// renumbers the surviving references, and repeats until no definition
    /// is removed.  The result is exactly [`compress_spec`]; the remaining
    /// clauses are its readable consequences: user-given names survive in
    /// their original order, surviving duplicate keys are named-only, and
    /// a round that removes nothing returns the alias-resolved input with
    /// generated names renamed.
    #[verifier::rlimit(100)]
    pub fn compress(self) -> (r: ScProgram)
        requires
            sc_defs_wf(self.defs@),
        ensures
            r.defs@.len() <= self.defs@.len(),
            named_names(r.defs@) == named_names(self.defs@),
            sc_defs_wf(r.defs@),
            forall|i: int|
                0 <= i < r.defs@.len() && (#[trigger] r.defs@[i]).name is Unnamed
                    ==> r.defs@[i].name == Name::Unnamed(
                    count_unnamed(r.defs@.take(i)) as usize,
                ),
            forall|i: int, j: int|
                0 <= i < j < r.defs@.len() && sc_key_eq(#[trigger] r.defs@[i], #[trigger] r.defs@[j])
                    && r.defs@[i].body is Some ==> r.defs@[i].name is Named
                    && r.defs@[j].name is Named,
            r.defs@.len() == self.defs@.len() ==> r.defs@ == rename_defs(
                alias_pass(self.defs@, 0),
            ),
            r.defs@ == compress_spec(self.defs@),
    {
        let ghost orig_names = named_names(self.defs@);
        let ghost orig_len = self.defs@.len();
        let ghost odefs0 = self.defs@;
        let mut defs = self.defs;
        loop
            invariant_except_break
                defs@.len() == orig_len ==> defs@ == odefs0,
                compress_spec(odefs0) == compress_spec(defs@),
            invariant
                sc_defs_wf(defs@),
                named_names(defs@) == orig_names,
                defs@.len() <= orig_len,
            ensures
                sc_defs_wf(defs@),
                named_names(defs@) == orig_names,
                defs@.len() <= orig_len,
                defs@.len() == orig_len ==> defs@ == rename_defs(alias_pass(odefs0, 0)),
                defs@ == compress_spec(odefs0),
                forall|i: int|
                    0 <= i < defs@.len() && (#[trigger] defs@[i]).name is Unnamed
                        ==> defs@[i].name == Name::Unnamed(
                        count_unnamed(defs@.take(i)) as usize,
                    ),
                forall|i: int, j: int|
                    0 <= i < j < defs@.len() && sc_key_eq(
                        #[trigger] defs@[i],
                        #[trigger] defs@[j],
                    ) && defs@[i].body is Some ==> defs@[i].name is Named
                        && defs@[j].name is Named,
            decreases defs@.len(),
        {
            let len = defs.len();
            // alias resolution: copy the target of every zero-parameter
            // `DefId` body over the alias, keeping the alias's name
            let ghost round_start = defs@;
            let mut i: usize = 0;
            while i < len
                invariant
                    i <= len,
                    len == defs@.len(),
                    sc_defs_wf(defs@),
                    named_names(defs@) == orig_names,
                    alias_pass(round_start, 0) == alias_pass(defs@, i as nat),
                decreases len - i,
            {
                let mut alias_of: Option<usize> = None;
                if defs[i].params == 0 {
                    match &defs[i].body {
                        Some(ScExpr::DefId(j)) => {
                            alias_of = Some(*j);
                        },
                        _ => {},
                    }
                }
                match alias_of {
                    Some(j) => {
                        proof {
                            assert(sc_def_wf(defs@[i as int], defs@.len() as nat));
                            assert(sc_expr_wf(
                                ScExpr::DefId(j),
                                defs@.len() as nat,
                                defs@[i as int].params as nat,
                            ));
                            assert(is_alias(defs@, i as int));
                            assert(alias_target(defs@, i as int) == j as int);
                        }
                        // follow the alias chain to its end, bounded by the
                        // definition count so that a cycle cannot loop
                        let mut t: usize = j;
                        let mut hops: usize = len;
                        while hops > 0
                            invariant
                                t < len,
                                len == defs@.len(),
                                sc_defs_wf(defs@),
                                chase(defs@, j as int, len as nat) == chase(
                                    defs@,
                                    t as int,
                                    hops as nat,
                                ),
                            ensures
                                t < len,
                                chase(defs@, j as int, len as nat) == t as int,
                            decreases hops,
                        {
                            let mut next: Option<usize> = None;
                            if defs[t].params == 0 {
                                match &defs[t].body {
                                    Some(ScExpr::DefId(t2)) => {
                                        next = Some(*t2);
                                    },
                                    _ => {},
                                }
                            }
                            match next {
                                Some(t2) => {
                                    proof {
                                        assert(sc_def_wf(defs@[t as int], defs@.len() as nat));
                                        assert(sc_expr_wf(
                                            ScExpr::DefId(t2),
                                            defs@.len() as nat,
                                            defs@[t as int].params as nat,
                                        ));
                                        assert(is_alias(defs@, t as int));
                                        assert(alias_target(defs@, t as int) == t2 as int);
                                    }
                                    t = t2;
                                    hops = hops - 1;
                                },
                                None => {
                                    proof {
                                        assert(!is_alias(defs@, t as int));
                                        assert(chase(defs@, t as int, hops as nat) == t as int);
                                    }
                                    break ;
                                },
                            }
                        }
                        let still_alias = if defs[t].params == 0 {
                            match &defs[t].body {
                                Some(ScExpr::DefId(_)) => true,
                                _ => false,
                            }
                        } else {
                            false
                        };
                        if still_alias {
                            // a cyclic chain has no end: leave the alias
                            proof {
                                assert(sc_def_wf(defs@[t as int], defs@.len() as nat));
                                assert(is_alias(defs@, t as int));
                                assert(alias_pass(defs@, i as nat) == alias_pass(
                                    defs@,
                                    (i + 1) as nat,
                                ));
                            }
                        } else {
                            proof {
                                assert(!is_alias(defs@, t as int));
                            }
                            let params_t = defs[t].params;
                            let body_t = match &defs[t].body {
                                Some(b) => Some(b.duplicate()),
                                None => None,
                            };
                            let name_i = clone_name(&defs[i].name);
                            let ghost before = defs@;
                            let new_def = ScDef { name: name_i, params: params_t, body: body_t };
                            defs.set(i, new_def);
                            proof {
                                lemma_named_names_update(before, i as int, new_def);
                                assert(defs@ == before.update(i as int, new_def));
                                assert(alias_pass(before, i as nat) == alias_pass(
                                    defs@,
                                    (i + 1) as nat,
                                ));
                                assert forall|k: int| 0 <= k < defs@.len() implies sc_def_wf(
                                    #[trigger] defs@[k],
                                    defs@.len() as nat,
                                ) by {
                                    if k != i {
                                        assert(defs@[k] == before[k]);
                                    } else {
                                        assert(sc_def_wf(before[t as int], before.len() as nat));
                                    }
                                }
                            }
                        }
                    },
                    None => {
                        proof {
                            assert(!is_alias(defs@, i as int));
                            assert(alias_pass(defs@, i as nat) == alias_pass(defs@, (i + 1) as nat));
                        }
                    },
                }
                i = i + 1;
            }
            proof {
                assert(alias_pass(defs@, len as nat) == defs@);
                assert(defs@ == alias_pass(round_start, 0));
            }
            // deduplication: decide, for every definition, whether it is
            // kept and where removed ones are redirected
            let mut keep: Vec<bool> = Vec::new();
            let mut target: Vec<usize> = Vec::new();
            let mut i2: usize = 0;
            while i2 < len
                invariant
                    i2 <= len,
                    len == defs@.len(),
                    sc_defs_wf(defs@),
                    keep@.len() == i2,
                    target@.len() == i2,
                    forall|k: int|
                        0 <= k < i2 ==> ((#[trigger] keep@[k]) == false ==> {
                            &&& !(defs@[k].name is Named)
                            &&& defs@[k].body is Some
                            &&& target@[k] < len
                            &&& dedup_target(defs@, defs@[k].params, defs@[k].body) == Some(
                                target@[k] as int,
                            )
                            &&& target@[k] != k
                        }),
                    forall|k: int|
                        0 <= k < i2 ==> ((#[trigger] keep@[k]) == true ==> (defs@[k].name is Named
                            || defs@[k].body is None || dedup_target(
                            defs@,
                            defs@[k].params,
                            defs@[k].body,
                        ) == Some(k))),
                decreases len - i2,
            {
                let has_body = match &defs[i2].body {
                    Some(_) => true,
                    None => false,
                };
                let is_named = match &defs[i2].name {
                    Name::Named(_) => true,
                    Name::Unnamed(_) => false,
                };
                if !has_body || is_named {
                    // body-less definitions are never grouped, named ones
                    // are never removed
                    keep.push(true);
                    target.push(i2);
                } else {
                    let t = find_target(&defs, i2);
                    if t == i2 {
                        keep.push(true);
                        target.push(i2);
                    } else {
                        keep.push(false);
                        target.push(t);
                        proof {
                            // an unnamed non-representative: the
                            // representative of its key differs from it
                            lemma_first_named_with_key_props(
                                defs@,
                                defs@[i2 as int].params,
                                defs@[i2 as int].body,
                            );
                            match first_named_with_key(
                                defs@,
                                defs@[i2 as int].params,
                                defs@[i2 as int].body,
                            ) {
                                Some(tn) => {
                                    if tn == i2 as int {
                                        assert(false);
                                    }
                                },
                                None => {},
                            }
                        }
                    }
                }
                i2 = i2 + 1;
            }
            proof {
                // the decisions are exactly the specified ones
                assert forall|k: int| 0 <= k < len implies keep@[k] == keep_spec(defs@, k) by {
                    if keep@[k] == false {
                        assert(dedup_target(defs@, defs@[k].params, defs@[k].body) != Some(k));
                    }
                }
                assert(keep@ =~= keep_seq(defs@));
                // every removed definition's representative is kept
                assert forall|k: int|
                    0 <= k < len && (#[trigger] keep@[k]) == false implies keep@[target@[k] as int]
                    == true by {
                    let p = defs@[k].params;
                    let b = defs@[k].body;
                    let t = target@[k] as int;
                    lemma_first_with_key_props(defs@, p, b);
                    lemma_first_named_with_key_props(defs@, p, b);
                    assert(dedup_target(defs@, p, b) == Some(t));
                    assert(defs@[t].params == p && defs@[t].body == b);
                    assert(dedup_target(defs@, defs@[t].params, defs@[t].body) == Some(t));
                    if keep@[t] == false {
                        assert(target@[t] as int != t);
                        assert(dedup_target(defs@, defs@[t].params, defs@[t].body) == Some(
                            target@[t] as int,
                        ));
                        assert(false);
                    }
                }
            }
            // assign the new index of every kept definition
            let mut newid: Vec<usize> = Vec::new();
            let mut next_id: usize = 0;
            let mut i3: usize = 0;
            proof {
                assert(keep@.take(0) =~= Seq::<bool>::empty());
            }
            while i3 < len
                invariant
                    i3 <= len,
                    len == defs@.len(),
                    keep@.len() == len,
                    newid@.len() == i3,
                    next_id <= i3,
                    next_id == count_true(keep@.take(i3 as int)),
                    forall|k: int|
                        0 <= k < i3 ==> (#[trigger] keep@[k]) == true ==> newid@[k] < next_id,
                    forall|k: int|
                        0 <= k < i3 ==> (#[trigger] keep@[k]) == true ==> newid@[k] as int
                            == count_true(keep@.take(k)),
                decreases len - i3,
            {
                proof {
                    assert(keep@.take(i3 + 1).drop_last() =~= keep@.take(i3 as int));
                    assert(keep@.take(i3 + 1).last() == keep@[i3 as int]);
                }
                if keep[i3] {
                    newid.push(next_id);
                    next_id = next_id + 1;
                } else {
                    newid.push(0);
                }
                i3 = i3 + 1;
            }
            proof {
                assert(keep@.take(len as int) =~= keep@);
            }
            // the full renumbering table: kept definitions map to their new
            // index, removed ones to their representative's new index
            let mut table: Vec<usize> = Vec::new();
            let mut i4: usize = 0;
            while i4 < len
                invariant
                    i4 <= len,
                    len == defs@.len(),
                    keep@.len() == len,
                    target@.len() == len,
                    newid@.len() == len,
                    table@.len() == i4,
                    forall|k: int|
                        0 <= k < len ==> (#[trigger] keep@[k]) == true ==> newid@[k] < next_id,
                    forall|k: int|
                        0 <= k < len ==> ((#[trigger] keep@[k]) == false ==> target@[k] < len
                            && keep@[target@[k] as int] == true),
                    forall|k: int| 0 <= k < i4 ==> (#[trigger] table@[k]) < next_id,
                    forall|k: int|
                        0 <= k < i4 ==> ((#[trigger] keep@[k]) == true ==> table@[k] == newid@[k]),
                    forall|k: int|
                        0 <= k < i4 ==> ((#[trigger] keep@[k]) == false ==> table@[k]
                            == newid@[target@[k] as int]),
                    forall|k: int|
                        0 <= k < len ==> (#[trigger] keep@[k]) == true ==> newid@[k] as int
                            == count_true(keep@.take(k)),
                decreases len - i4,
            {
                if keep[i4] {
                    table.push(newid[i4]);
                } else {
                    table.push(newid[target[i4]]);
                }
                i4 = i4 + 1;
            }
            proof {
                // the table is exactly the specified renumbering
                assert forall|k: int|
                    0 <= k < len implies (#[trigger] table@[k]) as int == table_seq(defs@)[k]
                        as int by {
                    assert(keep@[k] == keep_spec(defs@, k));
                    if keep@[k] {
                        assert(newid@[k] as int == count_true(keep@.take(k)));
                        lemma_count_true_bound(keep@.take(k));
                        assert(keep@.take(k) == keep_seq(defs@).take(k));
                    } else {
                        let t = target@[k] as int;
                        assert(dedup_target(defs@, defs@[k].params, defs@[k].body) == Some(t));
                        assert(newid@[t] as int == count_true(keep@.take(t)));
                        lemma_count_true_bound(keep@.take(t));
                        assert(keep@.take(t) == keep_seq(defs@).take(t));
                    }
                }
                assert(table@ =~= table_seq(defs@));
            }
            // rebuild: keep the chosen definitions, renumber their bodies,
            // and renumber generated names to be consecutive
            let mut out: Vec<ScDef> = Vec::new();
            let mut remaining = defs;
            let ghost before = remaining@;
            let mut pi: usize = 0;
            let mut next_unnamed: usize = 0;
            proof {
                assert(before.skip(0) =~= remaining@);
                assert(before.take(0) =~= Seq::<ScDef>::empty());
                assert(keep@.take(0) =~= Seq::<bool>::empty());
            }
            while remaining.len() > 0
                invariant
                    pi <= before.len(),
                    pi + remaining@.len() == before.len(),
                    before.skip(pi as int) =~= remaining@,
                    before.len() == len,
                    keep@.len() == len,
                    table@.len() == len,
                    sc_defs_wf(before),
                    next_id == count_true(keep@),
                    next_id <= len,
                    keep@ == keep_seq(before),
                    table@ == table_seq(before),
                    out@ == rebuild_spec(before, pi as int),
                    forall|k: int| 0 <= k < len ==> (#[trigger] table@[k]) < next_id,
                    forall|k: int|
                        0 <= k < len ==> ((#[trigger] keep@[k]) == false ==> !(
                        before[k].name is Named)),
                    out@.len() == count_true(keep@.take(pi as int)),
                    named_names(out@) == named_names(before.take(pi as int)),
                    forall|k: int|
                        0 <= k < out@.len() ==> sc_def_wf(#[trigger] out@[k], next_id as nat),
                    next_unnamed as int == count_unnamed(out@),
                    next_unnamed <= out@.len(),
                    forall|k: int|
                        0 <= k < out@.len() && (#[trigger] out@[k]).name is Unnamed
                            ==> out@[k].name == Name::Unnamed(
                            count_unnamed(out@.take(k)) as usize,
                        ),
                    forall|k: int|
                        0 <= k < len ==> ((#[trigger] keep@[k]) == true ==> (
                        before[k].name is Named || before[k].body is None || dedup_target(
                            before,
                            before[k].params,
                            before[k].body,
                        ) == Some(k))),
                    forall|j: int|
                        0 <= j < pi && (#[trigger] keep@[j]) == true ==> {
                            let o = count_true(keep@.take(j)) as int;
                            &&& 0 <= o < out@.len()
                            &&& out@[o].params == before[j].params
                            &&& out@[o].body == (match before[j].body {
                                Some(b) => Some(renumber_spec(b, table@)),
                                None => None::<ScExpr>,
                            })
                            &&& (out@[o].name is Named <==> before[j].name is Named)
                            &&& (before[j].name is Named ==> out@[o].name == before[j].name)
                        },
                decreases remaining@.len(),
            {
                let d = remaining.remove(0);
                let ghost dsnap = d;
                proof {
                    assert(before[pi as int] == d);
                    assert(before.take(pi + 1).drop_last() =~= before.take(pi as int));
                    assert(before.take(pi + 1).last() == before[pi as int]);
                    assert(keep@.take(pi + 1).drop_last() =~= keep@.take(pi as int));
                    assert(keep@.take(pi + 1).last() == keep@[pi as int]);
                }
                let idx_usize: usize = out.len();
                let ghost out_before = out@;
                if keep[pi] {
                    let ScDef { name, params, body } = d;
                    let new_body = match body {
                        Some(b) => {
                            proof {
                                assert(sc_def_wf(dsnap, len as nat));
                                lemma_sc_wf_defids(
                                    dsnap.body->Some_0,
                                    len as nat,
                                    dsnap.params as nat,
                                );
                                lemma_renumber_wf(
                                    dsnap.body->Some_0,
                                    dsnap.params as nat,
                                    table@,
                                    next_id as nat,
                                );
                            }
                            Some(b.renumber(&table))
                        },
                        None => None,
                    };
                    let was_unnamed = match &name {
                        Name::Named(_) => false,
                        Name::Unnamed(_) => true,
                    };
                    let new_name = match name {
                        Name::Named(s) => Name::Named(s),
                        Name::Unnamed(_) => Name::Unnamed(next_unnamed),
                    };
                    let pushed = ScDef { name: new_name, params, body: new_body };
                    let ghost psnap = pushed;
                    out.push(pushed);
                    if was_unnamed {
                        proof {
                            assert(next_unnamed < out.len());
                        }
                        next_unnamed = next_unnamed + 1;
                    }
                    proof {
                        assert(out@ =~= out_before.push(psnap));
                        assert(out@.drop_last() =~= out_before);
                        assert(next_unnamed as int == count_unnamed(out@));
                        lemma_named_names_push(out_before, psnap);
                        assert(psnap.name is Named <==> dsnap.name is Named);
                        assert(psnap.name is Named ==> psnap.name == dsnap.name);
                        assert(named_names(out@) == named_names(before.take(pi + 1)));
                        lemma_unnamed_numbering_push(out_before, psnap);
                    }
                } else {
                    proof {
                        assert(!(dsnap.name is Named));
                        assert(named_names(out@) == named_names(before.take(pi + 1)));
                    }
                }
                pi = pi + 1;
                proof {
                    assert(before.skip(pi as int) =~= remaining@);
                    assert(out@ == rebuild_spec(before, pi as int)) by {
                        assert(keep_spec(before, pi - 1) == keep@[pi - 1]);
                        if keep@[pi - 1] {
                            assert(out@ =~= rebuild_spec(before, pi - 1) + seq![out@.last()]);
                        } else {
                            assert(out@ =~= rebuild_spec(before, pi - 1) + Seq::<ScDef>::empty());
                        }
                    }
                    assert forall|j: int|
                        0 <= j < pi && (#[trigger] keep@[j]) == true implies {
                        let o = count_true(keep@.take(j)) as int;
                        &&& 0 <= o < out@.len()
                        &&& out@[o].params == before[j].params
                        &&& out@[o].body == (match before[j].body {
                            Some(b) => Some(renumber_spec(b, table@)),
                            None => None::<ScExpr>,
                        })
                        &&& (out@[o].name is Named <==> before[j].name is Named)
                        &&& (before[j].name is Named ==> out@[o].name == before[j].name)
                    } by {
                        lemma_count_true_mono(keep@, j, pi - 1);
                        assert(keep@.take(j + 1).drop_last() =~= keep@.take(j));
                        assert(keep@.take(j + 1).last() == keep@[j]);
                        if j < pi - 1 {
                            lemma_count_true_mono(keep@, j + 1, pi - 1);
                        }
                    }
                }
            }
            proof {
                assert(before.take(pi as int) =~= before);
                assert(keep@.take(pi as int) =~= keep@);
            }
            let new_len = out.len();
            proof {
                assert(new_len == next_id);
                assert forall|k: int| 0 <= k < out@.len() implies sc_def_wf(
                    #[trigger] out@[k],
                    out@.len() as nat,
                ) by {
                    lemma_sc_def_wf_mono_back(out@[k], next_id as nat, out@.len() as nat);
                }
            }
            defs = out;
            proof {
                lemma_alias_pass_len(round_start, 0);
                assert(defs@ == rebuild_spec(before, before.len() as int));
                assert(defs@ == round_spec(round_start));
            }
            if new_len == len {
                proof {
                    assert(compress_spec(round_start) == defs@);
                    lemma_count_true_all(keep@);
                    assert forall|k: int| 0 <= k < len implies (#[trigger] table@[k]) as int
                        == k by {
                        assert(keep@[k] == true);
                        lemma_count_true_prefix_all(keep@, k);
                    }
                    assert forall|j: int| 0 <= j < len implies {
                        &&& defs@[j].params == before[j].params
                        &&& defs@[j].body == before[j].body
                        &&& (defs@[j].name is Named <==> before[j].name is Named)
                        &&& (before[j].name is Named ==> defs@[j].name == before[j].name)
                        &&& (defs@[j].name is Unnamed ==> defs@[j].name == Name::Unnamed(
                            count_unnamed(before.take(j)) as usize,
                        ))
                    } by {
                        assert(keep@[j] == true);
                        lemma_count_true_prefix_all(keep@, j);
                        assert(count_true(keep@.take(j)) as int == j);
                        match before[j].body {
                            Some(b) => {
                                assert(sc_def_wf(before[j], len as nat));
                                lemma_sc_wf_defids(b, len as nat, before[j].params as nat);
                                lemma_renumber_identity(b, table@);
                            },
                            None => {},
                        }
                        if defs@[j].name is Unnamed {
                            assert forall|k: int|
                                0 <= k < j implies ((#[trigger] defs@[k]).name is Unnamed
                                <==> before[k].name is Unnamed) by {
                                assert(keep@[k] == true);
                                lemma_count_true_prefix_all(keep@, k);
                            }
                            lemma_count_unnamed_pointwise(defs@, before, j);
                        }
                    }
                    assert forall|i: int, j: int|
                        0 <= i < j < defs@.len() && sc_key_eq(
                            #[trigger] defs@[i],
                            #[trigger] defs@[j],
                        ) && defs@[i].body is Some implies defs@[i].name is Named
                        && defs@[j].name is Named by {
                        let p = before[i as int].params;
                        let b = before[i as int].body;
                        assert(sc_key_eq(before[i as int], before[j as int]));
                        assert(before[j as int].params == p && before[j as int].body == b);
                        assert(b is Some);
                        lemma_first_with_key_props(before, p, b);
                        lemma_first_named_with_key_props(before, p, b);
                        if !(before[j as int].name is Named) {
                            // an unnamed later duplicate would have been
                            // removed in favour of its representative
                            assert(keep@[j] == true);
                            assert(dedup_target(before, p, b) == Some(j));
                            match first_named_with_key(before, p, b) {
                                Some(t) => {
                                    assert(before[t].name is Named);
                                    assert(t != j);
                                    assert(false);
                                },
                                None => {
                                    match first_with_key(before, p, b) {
                                        Some(t) => {
                                            assert(t == j);
                                            assert(t <= i);
                                            assert(false);
                                        },
                                        None => {
                                            assert(false);
                                        },
                                    }
                                },
                            }
                        }
                        if !(before[i as int].name is Named) {
                            assert(keep@[i] == true);
                            assert(dedup_target(before, p, b) == Some(i));
                            match first_named_with_key(before, p, b) {
                                Some(t) => {
                                    assert(t == i);
                                    assert(before[t].name is Named);
                                    assert(false);
                                },
                                None => {
                                    // no named definition has this key at
                                    // all, yet `j` was just shown named
                                    assert(before[j as int].name is Named);
                                    assert(false);
                                },
                            }
                        }
                    }
                    // with nothing removed the renumbering is the
                    // identity, so this round's output is exactly the
                    // alias-resolved input with generated names renamed
                    assert(defs@ =~= rename_defs(before));
                    if len == orig_len {
                        assert(round_start == odefs0);
                        assert(before == alias_pass(odefs0, 0));
                    }
                }
                break ;
            }
            proof {
                assert(compress_spec(round_start) == compress_spec(defs@));
            }
        }
        ScProgram { defs }
    }
}

proof fn lemma_sc_def_wf_mono_back(d: ScDef, nd: nat, nd2: nat)
    requires
        sc_def_wf(d, nd),
        nd <= nd2,
    ensures
        sc_def_wf(d, nd2),
{
    match d.body {
        Some(b) => {
            lemma_sc_expr_wf_mono(b, nd, d.params as nat, nd2);
        },
        None => {},
    }
}

proof fn lemma_sc_expr_wf_mono(e: ScExpr, nd: nat, np: nat, nd2: nat)
    requires
        sc_expr_wf(e, nd, np),
        nd <= nd2,
    ensures
        sc_expr_wf(e, nd2, np),
    decreases e,
{
    match e {
        ScExpr::App(e1, e2) => {
            lemma_sc_expr_wf_mono(*e1, nd, np, nd2);
            lemma_sc_expr_wf_mono(*e2, nd, np, nd2);
        },
        _ => {},
    }
}

} // verus!
