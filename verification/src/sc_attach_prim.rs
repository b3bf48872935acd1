//! Primitive attachment: binds every body-less definition to the host
//! callback registered under its name, consuming that callback, and leaves
//! every other body unchanged.  A body-less definition with a generated
//! name, or one whose name has no callback, is an error.

use vstd::prelude::*;
use crate::structures::Name;
use crate::structures::Primop;
use crate::structures::ScBody;
use crate::structures::ScDef;
use crate::structures::ScPrimDef;
use crate::structures::ScPrimProgram;
use crate::structures::ScProgram;
use crate::error::Error;
use crate::error::ErrorView;

verus! {

/// The first index of `s` whose name equals `x`, if any.
pub open spec fn key_pos<P>(s: Seq<(String, P)>, x: Seq<char>) -> Option<int>
    decreases s.len(),
{
    if s.len() == 0 {
        None
    } else if s[0].0@ == x {
        Some(0)
    } else {
        match key_pos(s.drop_first(), x) {
            Some(k) => Some(k + 1),
            None => None,
        }
    }
}

/// What attachment returns for one definition, given the remaining
/// callbacks: the finished definition and the callbacks left over.
pub open spec fn attach_def_spec<P>(d: ScDef, prims: Seq<(String, P)>) -> Result<
    (ScPrimDef<P>, Seq<(String, P)>),
    ErrorView,
> {
    match d.body {
        Some(b) => Ok(
            (ScPrimDef { name: d.name, params: d.params, body: ScBody::Body(b) }, prims),
        ),
        None => match d.name {
            Name::Named(s) => match key_pos(prims, s@) {
                Some(k) => Ok(
                    (
                        ScPrimDef {
                            name: Name::Named(s),
                            params: d.params,
                            body: ScBody::Prim(prims[k].1),
                        },
                        prims.remove(k),
                    ),
                ),
                None => Err(ErrorView::UnknownPrimop { def_name: s@ }),
            },
            Name::Unnamed(id) => Err(ErrorView::UnnamedPrimop { def_no: id as nat }),
        },
    }
}

/// What attachment returns for a sequence of definitions, threading the
/// callback list through; the first error wins.
pub open spec fn attach_defs_spec<P>(defs: Seq<ScDef>, prims: Seq<(String, P)>) -> Result<
    (Seq<ScPrimDef<P>>, Seq<(String, P)>),
    ErrorView,
>
    decreases defs.len(),
{
    if defs.len() == 0 {
        Ok((Seq::empty(), prims))
    } else {
        match attach_defs_spec(defs.drop_last(), prims) {
            Err(e) => Err(e),
            Ok((s, rest)) => match attach_def_spec(defs.last(), rest) {
                Ok((d, rest2)) => Ok((s.push(d), rest2)),
                Err(e) => Err(e),
            },
        }
    }
}

/// The names of all `Named` definitions, each with its index.
pub open spec fn def_indexes_spec(defs: Seq<ScDef>) -> Seq<(String, usize)>
    decreases defs.len(),
{
    if defs.len() == 0 {
        Seq::empty()
    } else {
        def_indexes_spec(defs.drop_last()) + (match defs.last().name {
            Name::Named(s) => seq![(s, (defs.len() - 1) as usize)],
            Name::Unnamed(_) => Seq::empty(),
        })
    }
}

proof fn lemma_attach_defs_propagate<P>(s: Seq<ScDef>, prims: Seq<(String, P)>, m: int)
    requires
        0 <= m <= s.len(),
        attach_defs_spec(s.take(m), prims) is Err,
    ensures
        attach_defs_spec(s, prims) == attach_defs_spec(s.take(m), prims),
    decreases s.len() - m,
{
    if m < s.len() {
        assert(s.take(m + 1).drop_last() =~= s.take(m));
        lemma_attach_defs_propagate(s, prims, m + 1);
    } else {
        assert(s.take(m) =~= s);
    }
}

/// Finds the first callback registered under `x` and removes it.
fn take_prim<P: Primop>(prims: &mut Vec<(String, P)>, x: &String) -> (r: Option<P>)
    ensures
        (match r {
            Some(p) => {
                &&& key_pos(old(prims)@, x@) matches Some(k)
                &&& old(prims)@[key_pos(old(prims)@, x@)->Some_0].1 == p
                &&& final(prims)@ == old(prims)@.remove(key_pos(old(prims)@, x@)->Some_0)
            },
            None => key_pos(old(prims)@, x@) is None && final(prims)@ == old(prims)@,
        }),
{
    let len = prims.len();
    proof {
        assert(prims@.skip(0) =~= prims@);
    }
    let mut i: usize = 0;
    while i < len
        invariant
            i <= len,
            len == prims@.len(),
            prims@ == old(prims)@,
            (match key_pos(prims@.skip(i as int), x@) {
                Some(k) => key_pos(prims@, x@) == Some(k + i),
                None => key_pos(prims@, x@) is None,
            }),
        decreases len - i,
    {
        proof {
            assert(prims@.skip(i as int).drop_first() =~= prims@.skip(i + 1));
            assert(prims@.skip(i as int)[0] == prims@[i as int]);
        }
        if prims[i].0 == *x {
            proof {
                assert(key_pos(prims@.skip(i as int), x@) == Some(0int));
                assert(key_pos(prims@, x@) == Some(i as int));
            }
            let entry = prims.remove(i);
            return Some(entry.1);
        }
        i = i + 1;
    }
    proof {
        assert(prims@.skip(len as int) =~= Seq::<(String, P)>::empty());
    }
    None
}

impl ScDef {
    fn attach_prim<P: Primop>(self, primops: &mut Vec<(String, P)>) -> (r: Result<
        ScPrimDef<P>,
        Error,
    >)
        ensures
            (match r {
                Ok(d) => attach_def_spec(self, old(primops)@) == Ok::<
                    (ScPrimDef<P>, Seq<(String, P)>),
                    ErrorView,
                >((d, final(primops)@)),
                Err(e) => {
                    &&& attach_def_spec(self, old(primops)@) matches Err(ev)
                    &&& e@ == ev
                    &&& final(primops)@ == old(primops)@
                },
            }),
    {
        let ScDef { name, params, body } = self;
        match body {
            Some(b) => Ok(ScPrimDef { name, params, body: ScBody::Body(b) }),
            None => match name {
                Name::Named(s) => match take_prim(primops, &s) {
                    Some(p) => Ok(
                        ScPrimDef { name: Name::Named(s), params, body: ScBody::Prim(p) },
                    ),
                    None => Err(Error::UnknownPrimop { def_name: s }),
                },
                Name::Unnamed(id) => Err(Error::UnnamedPrimop { def_no: id }),
            },
        }
    }
}

impl ScProgram {
    /// Attaches a host callback to every body-less definition, consuming
    /// the matching entry of `primops`; the callbacks left over are
    /// returned with the program.  On an error the callback list has been
    /// consumed with everything else: a caller that wants to reuse
    /// callbacks after a failed attachment must keep its own copies.
    pub fn attach_prim<P: Primop>(self, primops: Vec<(String, P)>) -> (r: Result<
        (ScPrimProgram<P>, Vec<(String, P)>),
        Error,
    >)
        ensures
            (match r {
                Ok((p, rest)) => attach_defs_spec(self.defs@, primops@) == Ok::<
                    (Seq<ScPrimDef<P>>, Seq<(String, P)>),
                    ErrorView,
                >((p.defs@, rest@)),
                Err(e) => {
                    &&& attach_defs_spec(self.defs@, primops@) matches Err(ev)
                    &&& e@ == ev
                },
            }),
    {
        let ghost odefs = self.defs@;
        let ghost oprims = primops@;
        let mut prims = primops;
        let mut remaining = self.defs;
        let mut out: Vec<ScPrimDef<P>> = Vec::new();
        let ghost processed = 0int;
        proof {
            assert(odefs.take(0) =~= Seq::<ScDef>::empty());
            assert(odefs.skip(0) =~= remaining@);
        }
        while remaining.len() > 0
            invariant
                0 <= processed <= odefs.len(),
                processed + remaining@.len() == odefs.len(),
                odefs.skip(processed) =~= remaining@,
                out@.len() == processed,
                attach_defs_spec(odefs.take(processed), oprims) == Ok::<
                    (Seq<ScPrimDef<P>>, Seq<(String, P)>),
                    ErrorView,
                >((out@, prims@)),
                odefs == self.defs@,
                oprims == primops@,
            decreases remaining@.len(),
        {
            let d = remaining.remove(0);
            proof {
                assert(odefs[processed] == d);
                assert(odefs.take(processed + 1).drop_last() =~= odefs.take(processed));
                assert(odefs.take(processed + 1).last() == odefs[processed]);
            }
            match d.attach_prim(&mut prims) {
                Ok(pd) => {
                    out.push(pd);
                    proof {
                        processed = processed + 1;
                        assert(odefs.skip(processed) =~= remaining@);
                    }
                },
                Err(e) => {
                    proof {
                        lemma_attach_defs_propagate(odefs, oprims, processed + 1);
                    }
                    return Err(e);
                },
            }
        }
        proof {
            assert(odefs.take(processed) =~= odefs);
        }
        Ok((ScPrimProgram { defs: out }, prims))
    }

    /// The index of every `Named` definition under its name, in definition
    /// order.
    pub fn def_indexes(&self) -> (r: Vec<(String, usize)>)
        ensures
            r@ == def_indexes_spec(self.defs@),
    {
        let len = self.defs.len();
        let mut out: Vec<(String, usize)> = Vec::new();
        let mut i: usize = 0;
        proof {
            assert(self.defs@.take(0) =~= Seq::<ScDef>::empty());
        }
        while i < len
            invariant
                i <= len,
                len == self.defs@.len(),
                out@ == def_indexes_spec(self.defs@.take(i as int)),
            decreases len - i,
        {
            proof {
                assert(self.defs@.take(i + 1).drop_last() =~= self.defs@.take(i as int));
                assert(self.defs@.take(i + 1).last() == self.defs@[i as int]);
            }
            let ghost out_before = out@;
            match &self.defs[i].name {
                Name::Named(s) => {
                    out.push((s.clone(), i));
                    proof {
                        assert(out@ =~= out_before + seq![out@.last()]);
                    }
                },
                Name::Unnamed(_) => {},
            }
            proof {
                assert(out@ =~= def_indexes_spec(self.defs@.take(i + 1)));
            }
            i = i + 1;
        }
        proof {
            assert(self.defs@.take(len as int) =~= self.defs@);
        }
        out
    }
}

} // verus!
