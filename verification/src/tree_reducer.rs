//! The tree reducer: normal-order, call-by-name evaluation of a
//! supercombinator program to weak head normal form and to normal form,
//! with strict evaluation of primitive arguments.  Reduction works on
//! trees: substitution clones argument nodes, so there is no sharing.
//!
//! Every reduction entry point takes a step budget; each head reduction
//! and each bookkeeping move of the reducer costs at least one unit.  When
//! the budget runs out before the requested form is reached the reducer
//! stops with `OutOfFuel`.  On any error the node is left as a well-formed
//! reduct of the input: a failed primitive step puts its consumed
//! arguments back, the evaluated ones as the bare integers they reduced
//! to, and the normal-form walk reassembles the tree it was working on.

use vstd::prelude::*;
use crate::structures::Atom;
use crate::structures::Name;
use crate::structures::Primop;
use crate::structures::ScBody;
use crate::structures::ScExpr;
use crate::structures::ScPrimDef;
use crate::structures::ScPrimProgram;
use crate::structures::atom_wf;
use crate::structures::sc_expr_wf;
use crate::error::Error;
use crate::error::ErrorView;
use std::collections::VecDeque;
use vstd::std_specs::vecdeque::VecDequeAdditionalSpecFns;

verus! {

/// A runtime evaluation node: a head atom and the queue of pending
/// argument nodes, the next argument to consume at the front.
#[derive(Debug)]
pub struct Node {
    pub head: Atom,
    pub stack: VecDeque<Node>,
}

/// The mathematical shape of a [`Node`]: the same tree over sequences.
pub struct NodeView {
    pub head: Atom,
    pub stack: Seq<NodeView>,
}

/// The view of an evaluation node.
pub open spec fn node_view(n: Node) -> NodeView
    decreases n,
    via node_view_decreases
{
    NodeView {
        head: n.head,
        stack: Seq::new(
            n.stack@.len(),
            |i: int|
                if 0 <= i < n.stack@.len() {
                    node_view(n.stack@[i])
                } else {
                    NodeView { head: Atom::Prim(0), stack: Seq::empty() }
                },
        ),
    }
}

#[via_fn]
proof fn node_view_decreases(n: Node) {
    assert forall|i: int| 0 <= i < n.stack@.len() implies (decreases_to!(n => n.stack@[i])) by {
        assert(decreases_to!(n => n.stack));
        assert(decreases_to!(n.stack => n.stack[i]));
    }
}

impl View for Node {
    type V = NodeView;

    open spec fn view(&self) -> NodeView {
        node_view(*self)
    }
}


/// The semantic shape of a definition: what reduction needs to know of it.
/// The callback payload is abstracted to `Prim`.
pub enum BodyView {
    Body(ScExpr),
    Prim,
}

/// One definition's shape: its name, arity, and body.
pub struct DefShape {
    pub name: Name,
    pub params: usize,
    pub body: BodyView,
}

/// The shape of one definition with a callback attached.
pub open spec fn def_shape<P>(d: ScPrimDef<P>) -> DefShape {
    DefShape {
        name: d.name,
        params: d.params,
        body: match d.body {
            ScBody::Body(e) => BodyView::Body(e),
            ScBody::Prim(_) => BodyView::Prim,
        },
    }
}

/// The shapes of a whole runnable program, in definition order.
pub open spec fn prog_shape<P>(p: ScPrimProgram<P>) -> Seq<DefShape> {
    p.defs@.map_values(|d: ScPrimDef<P>| def_shape(d))
}

/// Well-formedness of a program shape: every body expression keeps its
/// references inside the program and its own parameters.
pub open spec fn shapes_wf(shapes: Seq<DefShape>) -> bool {
    forall|i: int|
        0 <= i < shapes.len() ==> (match (#[trigger] shapes[i]).body {
            BodyView::Body(e) => sc_expr_wf(e, shapes.len() as nat, shapes[i].params as nat),
            BodyView::Prim => true,
        })
}

/// Well-formedness of a node: every supercombinator reference anywhere in
/// the tree stays inside a program of `ndefs` definitions.
pub open spec fn nodeview_wf(n: NodeView, ndefs: nat) -> bool
    decreases n,
{
    atom_wf(n.head, ndefs) && (forall|i: int|
        0 <= i < n.stack.len() ==> nodeview_wf(#[trigger] n.stack[i], ndefs))
}

/// The bare integer node for `v`.
pub open spec fn bare(v: i64) -> NodeView {
    NodeView { head: Atom::Prim(v), stack: Seq::empty() }
}

/// The views of a sequence of nodes.
pub open spec fn nodes_view(s: Seq<Node>) -> Seq<NodeView> {
    Seq::new(s.len(), |i: int| node_view(s[i]))
}

/// Every argument reference of `e` stays below `n`.
pub open spec fn argids_below(e: ScExpr, n: nat) -> bool
    decreases e,
{
    match e {
        ScExpr::ArgId(i) => i < n,
        ScExpr::App(e1, e2) => argids_below(*e1, n) && argids_below(*e2, n),
        _ => true,
    }
}

/// The node a supercombinator body builds when its parameters are bound to
/// `args`: a spine of applications whose head comes from the leftmost leaf,
/// with each argument's own pending applications spliced in.
pub open spec fn subst_spec(e: ScExpr, args: Seq<NodeView>) -> NodeView
    decreases e,
{
    match e {
        ScExpr::DefId(i) => NodeView { head: Atom::Sc(i), stack: Seq::empty() },
        ScExpr::Prim(n) => NodeView { head: Atom::Prim(n), stack: Seq::empty() },
        ScExpr::ArgId(i) => if 0 <= i < args.len() {
            args[i as int]
        } else {
            bare(0)
        },
        ScExpr::App(e1, e2) => {
            let n1 = subst_spec(*e1, args);
            NodeView { head: n1.head, stack: n1.stack.push(subst_spec(*e2, args)) }
        },
    }
}

/// Whether the head of `n` can reduce: a supercombinator applied to at
/// least as many arguments as it has parameters.
pub open spec fn head_redex(shapes: Seq<DefShape>, n: NodeView) -> bool {
    match n.head {
        Atom::Sc(i) => i < shapes.len() && n.stack.len() >= shapes[i as int].params,
        Atom::Prim(_) => false,
    }
}

/// Weak head normal form: no head reduction applies.
pub open spec fn head_blocked(shapes: Seq<DefShape>, n: NodeView) -> bool {
    !head_redex(shapes, n)
}

/// The result of one beta step: the body is instantiated with the consumed
/// arguments and its pending applications are prepended to the remaining
/// ones.
pub open spec fn beta_step(shapes: Seq<DefShape>, n: NodeView) -> NodeView
    recommends
        head_redex(shapes, n),
        n.head is Sc,
{
    let d = shapes[n.head->Sc_0 as int];
    match d.body {
        BodyView::Body(e) => {
            let sub = subst_spec(e, n.stack.take(d.params as int));
            NodeView { head: sub.head, stack: sub.stack + n.stack.skip(d.params as int) }
        },
        BodyView::Prim => n,
    }
}

/// One head reduction step, indexed by a bound `f` on the depth of nested
/// evaluation.  A beta step is deterministic.  A primitive step consumes
/// the first `params` arguments, each of which reduces to a bare integer,
/// and installs whatever atom the callback returned; the callback's choice
/// is not modelled, only that the atom stays inside the program.
pub open spec fn head_step(shapes: Seq<DefShape>, n1: NodeView, n2: NodeView, f: nat) -> bool
    decreases f, 1nat,
{
    &&& head_redex(shapes, n1)
    &&& (match n1.head {
        Atom::Sc(i) => {
            let d = shapes[i as int];
            match d.body {
                BodyView::Body(_) => n2 == beta_step(shapes, n1),
                BodyView::Prim => {
                    &&& atom_wf(n2.head, shapes.len() as nat)
                    &&& n2.stack == n1.stack.skip(d.params as int)
                    &&& (exists|vals: Seq<i64>|
                        vals.len() == d.params && (forall|k: int|
                            0 <= k < d.params ==> reaches(
                                shapes,
                                n1.stack[k],
                                bare(#[trigger] vals[k]),
                                f,
                            )))
                },
            }
        },
        Atom::Prim(_) => false,
    })
}

/// A marker predicate used as the quantifier trigger of the reduction
/// relations.
pub open spec fn via_node(m: NodeView) -> bool {
    true
}

/// `n1` head-reduces to `n2` within the nesting bound `f`.
pub open spec fn reaches(shapes: Seq<DefShape>, n1: NodeView, n2: NodeView, f: nat) -> bool
    decreases f, 0nat,
{
    n1 == n2 || (f > 0 && exists|m: NodeView|
        (#[trigger] via_node(m)) && head_step(shapes, n1, m, (f - 1) as nat) && reaches(
            shapes,
            m,
            n2,
            (f - 1) as nat,
        ))
}

/// Normal form: the head is blocked and every pending argument is normal.
pub open spec fn node_nf(shapes: Seq<DefShape>, n: NodeView) -> bool
    decreases n,
{
    head_blocked(shapes, n) && (forall|i: int|
        0 <= i < n.stack.len() ==> node_nf(shapes, #[trigger] n.stack[i]))
}

/// One head reduction step somewhere in the tree: at the root, or at one
/// pending argument with all others unchanged.
pub open spec fn tree_step(shapes: Seq<DefShape>, n1: NodeView, n2: NodeView, f: nat) -> bool
    decreases n1,
{
    ||| head_step(shapes, n1, n2, f)
    ||| {
        &&& n1.head == n2.head
        &&& n1.stack.len() == n2.stack.len()
        &&& (exists|k: int|
            0 <= k < n1.stack.len() && tree_step(shapes, #[trigger] n1.stack[k], n2.stack[k], f)
                && (forall|j: int|
                0 <= j < n1.stack.len() && j != k ==> n1.stack[j] == n2.stack[j]))
    }
}

/// `n1` reduces to `n2` by steps anywhere in the tree.
pub open spec fn tree_reaches(shapes: Seq<DefShape>, n1: NodeView, n2: NodeView, f: nat) -> bool
    decreases f,
{
    n1 == n2 || (f > 0 && exists|m: NodeView|
        (#[trigger] via_node(m)) && tree_step(shapes, n1, m, (f - 1) as nat) && tree_reaches(
            shapes,
            m,
            n2,
            (f - 1) as nat,
        ))
}

proof fn lemma_node_view_parts(n: Node)
    ensures
        n@.head == n.head,
        n@.stack.len() == n.stack@.len(),
        forall|i: int| 0 <= i < n.stack@.len() ==> n@.stack[i] == node_view(#[trigger] n.stack@[i]),
{
}

proof fn lemma_head_step_mono(shapes: Seq<DefShape>, n1: NodeView, n2: NodeView, f: nat, f2: nat)
    requires
        head_step(shapes, n1, n2, f),
        f <= f2,
    ensures
        head_step(shapes, n1, n2, f2),
    decreases f2, 1nat,
{
    match n1.head {
        Atom::Sc(i) => {
            let d = shapes[i as int];
            match d.body {
                BodyView::Body(_) => {},
                BodyView::Prim => {
                    let vals = choose|vals: Seq<i64>|
                        vals.len() == d.params && (forall|k: int|
                            0 <= k < d.params ==> reaches(
                                shapes,
                                n1.stack[k],
                                bare(#[trigger] vals[k]),
                                f,
                            ));
                    assert forall|k: int| 0 <= k < d.params implies reaches(
                        shapes,
                        n1.stack[k],
                        bare(#[trigger] vals[k]),
                        f2,
                    ) by {
                        lemma_reaches_mono(shapes, n1.stack[k], bare(vals[k]), f, f2);
                    }
                },
            }
        },
        Atom::Prim(_) => {},
    }
}

proof fn lemma_reaches_mono(shapes: Seq<DefShape>, n1: NodeView, n2: NodeView, f: nat, f2: nat)
    requires
        reaches(shapes, n1, n2, f),
        f <= f2,
    ensures
        reaches(shapes, n1, n2, f2),
    decreases f2, 0nat,
{
    if n1 != n2 {
        let m = choose|m: NodeView|
            (#[trigger] via_node(m)) && head_step(shapes, n1, m, (f - 1) as nat) && reaches(
                shapes,
                m,
                n2,
                (f - 1) as nat,
            );
        lemma_head_step_mono(shapes, n1, m, (f - 1) as nat, (f2 - 1) as nat);
        lemma_reaches_mono(shapes, m, n2, (f - 1) as nat, (f2 - 1) as nat);
        assert(via_node(m) && head_step(shapes, n1, m, (f2 - 1) as nat) && reaches(
            shapes,
            m,
            n2,
            (f2 - 1) as nat,
        ));
    }
}

proof fn lemma_reaches_step(shapes: Seq<DefShape>, n1: NodeView, n2: NodeView, f: nat)
    requires
        head_step(shapes, n1, n2, f),
    ensures
        reaches(shapes, n1, n2, f + 1),
{
    assert(((f + 1) - 1) as nat == f);
    assert(via_node(n2) && head_step(shapes, n1, n2, f) && reaches(shapes, n2, n2, f));
}

proof fn lemma_reaches_trans(
    shapes: Seq<DefShape>,
    a: NodeView,
    b: NodeView,
    c: NodeView,
    f1: nat,
    f2: nat,
)
    requires
        reaches(shapes, a, b, f1),
        reaches(shapes, b, c, f2),
    ensures
        reaches(shapes, a, c, (f1 + f2) as nat),
    decreases f1,
{
    if a == b {
        lemma_reaches_mono(shapes, b, c, f2, (f1 + f2) as nat);
    } else {
        let m = choose|m: NodeView|
            (#[trigger] via_node(m)) && head_step(shapes, a, m, (f1 - 1) as nat) && reaches(
                shapes,
                m,
                b,
                (f1 - 1) as nat,
            );
        lemma_reaches_trans(shapes, m, b, c, (f1 - 1) as nat, f2);
        lemma_head_step_mono(shapes, a, m, (f1 - 1) as nat, (f1 + f2 - 1) as nat);
        lemma_reaches_mono(shapes, m, c, (f1 - 1 + f2) as nat, (f1 + f2 - 1) as nat);
        assert(via_node(m) && head_step(shapes, a, m, (f1 + f2 - 1) as nat) && reaches(
            shapes,
            m,
            c,
            (f1 + f2 - 1) as nat,
        ));
    }
}


impl Node {
    /// A node that references the supercombinator `i`, with no pending
    /// arguments: the usual seed for reducing an entry point.
    pub fn from_sc(i: usize) -> (r: Node)
        ensures
            r@ == (NodeView { head: Atom::Sc(i), stack: Seq::<NodeView>::empty() }),
    {
        let r = Node { head: Atom::Sc(i), stack: VecDeque::new() };
        proof {
            assert(r@.stack =~= Seq::<NodeView>::empty());
        }
        r
    }
}

impl Clone for Node {
    /// A deep copy with a provably equal view.
    fn clone(&self) -> (r: Self)
        ensures
            r@ == self@,
        decreases *self,
    {
        let len = self.stack.len();
        let mut st: VecDeque<Node> = VecDeque::new();
        let mut i: usize = 0;
        while i < len
            invariant
                i <= len,
                len == self.stack@.len(),
                st@.len() == i,
                forall|k: int| 0 <= k < i ==> node_view(#[trigger] st@[k]) == self@.stack[k],
            decreases len - i,
        {
            proof {
                lemma_node_view_parts(*self);
                assert(decreases_to!(*self => self.stack));
                assert(decreases_to!(self.stack => self.stack[i as int]));
            }
            let child = (&self.stack[i]).clone();
            st.push_back(child);
            i = i + 1;
        }
        let r = Node { head: self.head, stack: st };
        proof {
            lemma_node_view_parts(r);
            lemma_node_view_parts(*self);
            assert(r@.stack =~= self@.stack);
        }
        r
    }
}


proof fn lemma_sc_wf_argids(e: ScExpr, nd: nat, np: nat)
    requires
        sc_expr_wf(e, nd, np),
    ensures
        argids_below(e, np),
    decreases e,
{
    match e {
        ScExpr::App(e1, e2) => {
            lemma_sc_wf_argids(*e1, nd, np);
            lemma_sc_wf_argids(*e2, nd, np);
        },
        _ => {},
    }
}

proof fn lemma_subst_wf(e: ScExpr, args: Seq<NodeView>, nd: nat, np: nat)
    requires
        sc_expr_wf(e, nd, np),
        np <= args.len(),
        forall|k: int| 0 <= k < args.len() ==> nodeview_wf(#[trigger] args[k], nd),
    ensures
        nodeview_wf(subst_spec(e, args), nd),
    decreases e,
{
    match e {
        ScExpr::App(e1, e2) => {
            lemma_subst_wf(*e1, args, nd, np);
            lemma_subst_wf(*e2, args, nd, np);
            let n1 = subst_spec(*e1, args);
            let n2 = subst_spec(*e2, args);
            assert forall|i: int|
                0 <= i < n1.stack.push(n2).len() implies nodeview_wf(
                #[trigger] n1.stack.push(n2)[i],
                nd,
            ) by {
                if i < n1.stack.len() {
                    assert(n1.stack.push(n2)[i] == n1.stack[i]);
                } else {
                    assert(n1.stack.push(n2)[i] == n2);
                }
            }
        },
        _ => {},
    }
}

/// Builds the node of a supercombinator body with its parameters bound to
/// `args`; argument nodes are cloned, so duplicated work is duplicated
/// structure.
fn substitute(expr: &ScExpr, args: &Vec<Node>) -> (r: Node)
    requires
        argids_below(*expr, args@.len() as nat),
    ensures
        r@ == subst_spec(*expr, nodes_view(args@)),
    decreases *expr,
{
    match expr {
        ScExpr::DefId(i) => {
            let r = Node { head: Atom::Sc(*i), stack: VecDeque::new() };
            proof {
                assert(r@.stack =~= Seq::<NodeView>::empty());
            }
            r
        },
        ScExpr::Prim(n) => {
            let r = Node { head: Atom::Prim(*n), stack: VecDeque::new() };
            proof {
                assert(r@.stack =~= Seq::<NodeView>::empty());
            }
            r
        },
        ScExpr::ArgId(i) => {
            let r = (&args[*i]).clone();
            proof {
                assert(nodes_view(args@)[*i as int] == node_view(args@[*i as int]));
            }
            r
        },
        ScExpr::App(e1, e2) => {
            let mut n1 = substitute(e1, args);
            let n2 = substitute(e2, args);
            let ghost n1v = n1@;
            let ghost n2v = n2@;
            n1.stack.push_back(n2);
            proof {
                lemma_node_view_parts(n1);
                assert(n1@.stack =~= n1v.stack.push(n2v));
            }
            n1
        },
    }
}

impl<P: Primop> ScPrimProgram<P> {
    /// Performs the beta step at the head of `root`, whose head must be
    /// the supercombinator `i` with an ordinary body and enough arguments.
    fn beta_apply(&self, i: usize, root: &mut Node)
        requires
            shapes_wf(prog_shape(*self)),
            nodeview_wf(old(root)@, self.defs@.len() as nat),
            head_redex(prog_shape(*self), old(root)@),
            old(root)@.head == Atom::Sc(i),
            i < self.defs@.len(),
            prog_shape(*self)[i as int].body is Body,
        ensures
            final(root)@ == beta_step(prog_shape(*self), old(root)@),
            nodeview_wf(final(root)@, self.defs@.len() as nat),
    {
        let ghost shapes = prog_shape(*self);
        let ghost rv = root@;
        let params = self.defs[i].params;
        proof {
            assert(shapes[i as int] == def_shape(self.defs@[i as int]));
            lemma_node_view_parts(*root);
        }
        let mut args: Vec<Node> = Vec::new();
        let mut k: usize = 0;
        while k < params
            invariant
                k <= params,
                args@.len() == k,
                params == shapes[i as int].params,
                i < self.defs@.len(),
                shapes == prog_shape(*self),
                rv.stack.len() >= params,
                root.head == rv.head,
                root@.stack =~= rv.stack.skip(k as int),
                nodes_view(args@) =~= rv.stack.take(k as int),
                nodeview_wf(rv, self.defs@.len() as nat),
            decreases params - k,
        {
            let ghost pre = root@;
            let ghost rsnap = *root;
            proof {
                lemma_node_view_parts(rsnap);
            }
            let arg = match root.stack.pop_front() {
                Some(a) => a,
                None => {
                    proof {
                        assert(pre.stack.len() > 0);
                        lemma_node_view_parts(*root);
                        assert(false);
                    }
                    vstd::pervasive::unreached()
                },
            };
            proof {
                lemma_node_view_parts(*root);
                assert(arg == rsnap.stack@[0]);
                assert(node_view(arg) == pre.stack[0]);
                assert(root@.stack =~= rv.stack.skip(k + 1));
            }
            args.push(arg);
            proof {
                assert(nodes_view(args@) =~= rv.stack.take(k + 1));
            }
            k = k + 1;
        }
        let body_ref = match &self.defs[i].body {
            ScBody::Body(e) => e,
            ScBody::Prim(_) => {
                proof {
                    assert(false);
                }
                vstd::pervasive::unreached()
            },
        };
        proof {
            assert(sc_expr_wf(*body_ref, self.defs@.len() as nat, params as nat));
            lemma_sc_wf_argids(*body_ref, self.defs@.len() as nat, params as nat);
        }
        let node = substitute(body_ref, &args);
        let ghost subv = node@;
        let ghost nodesnap = node;
        let Node { head, stack } = node;
        let mut stack = stack;
        let ghost rem = root@.stack;
        let ghost moved = 0int;
        proof {
            lemma_node_view_parts(nodesnap);
            assert(forall|j: int|
                0 <= j < stack@.len() ==> node_view(#[trigger] stack@[j]) == subv.stack[j]);
            assert(root@.stack =~= subv.stack.subrange(
                stack@.len() as int,
                subv.stack.len() as int,
            ) + rem);
        }
        while stack.len() > 0
            invariant
                0 <= moved <= subv.stack.len(),
                stack@.len() + moved == subv.stack.len(),
                root.head == rv.head,
                forall|j: int|
                    0 <= j < stack@.len() ==> node_view(#[trigger] stack@[j]) == subv.stack[j],
                root@.stack =~= subv.stack.subrange(stack@.len() as int, subv.stack.len() as int)
                    + rem,
            decreases stack@.len(),
        {
            let ghost pre = root@;
            let ghost spre = stack@;
            proof {
                assert(stack@[stack@.len() - 1] == spre[spre.len() - 1]);
                assert(node_view(spre[spre.len() - 1]) == subv.stack[spre.len() - 1]);
            }
            let x = match stack.pop_back() {
                Some(x) => x,
                None => {
                    proof {
                        assert(false);
                    }
                    vstd::pervasive::unreached()
                },
            };
            let ghost rsnap2 = *root;
            root.stack.push_front(x);
            proof {
                moved = moved + 1;
                lemma_node_view_parts(rsnap2);
                lemma_node_view_parts(*root);
                assert(root.stack@ =~= seq![x] + rsnap2.stack@);
                assert forall|j: int| 0 <= j < root@.stack.len() implies root@.stack[j] == (seq![
                    node_view(x),
                ] + pre.stack)[j] by {
                    if j > 0 {
                        assert(root.stack@[j] == rsnap2.stack@[j - 1]);
                    }
                }
                assert(root@.stack =~= seq![node_view(x)] + pre.stack);
                assert(x == spre[spre.len() - 1]);
                assert(stack@ =~= spre.drop_last());
                assert(node_view(x) == subv.stack[stack@.len() as int]);
                assert(root@.stack =~= subv.stack.subrange(
                    stack@.len() as int,
                    subv.stack.len() as int,
                ) + rem);
            }
        }
        root.head = head;
        proof {
            lemma_node_view_parts(*root);
            assert(subv.stack.subrange(0, subv.stack.len() as int) =~= subv.stack);
            assert(root@.stack =~= subv.stack + rem);
            let bs = beta_step(shapes, rv);
            assert(subv == subst_spec(
                shapes[i as int].body->Body_0,
                nodes_view(args@),
            ));
            assert(nodes_view(args@) =~= rv.stack.take(params as int));
            assert(rem =~= rv.stack.skip(params as int));
            assert(root@.head == subv.head);
            assert(root@ == bs);
            // well-formedness of the result
            assert forall|j: int|
                0 <= j < nodes_view(args@).len() implies nodeview_wf(
                #[trigger] nodes_view(args@)[j],
                self.defs@.len() as nat,
            ) by {
                assert(nodes_view(args@)[j] == rv.stack[j]);
            }
            lemma_subst_wf(
                shapes[i as int].body->Body_0,
                nodes_view(args@),
                self.defs@.len() as nat,
                params as nat,
            );
            assert forall|j: int|
                0 <= j < root@.stack.len() implies nodeview_wf(
                #[trigger] root@.stack[j],
                self.defs@.len() as nat,
            ) by {
                if j < subv.stack.len() {
                    assert(root@.stack[j] == subv.stack[j]);
                } else {
                    assert(root@.stack[j] == rv.stack[j - subv.stack.len() + params]);
                }
            }
        }
    }
}


/// A marker predicate used as the trigger of existential fuel bounds.
pub open spec fn via_fuel(f: nat) -> bool {
    true
}

/// A justified strictness report: some saturated primitive application was
/// reached whose strict argument head-reduces to a blocked node that is
/// not a bare integer, and `prim_name` renders that primitive's name (a
/// generated name is rendered freely).
pub open spec fn stuck_prim_witness(shapes: Seq<DefShape>, prim_name: Seq<char>) -> bool {
    exists|orig: NodeView, k: int, w: NodeView, f: nat|
        {
            &&& #[trigger] reaches(shapes, orig.stack[k], w, f)
            &&& orig.head matches Atom::Sc(i)
            &&& 0 <= i < shapes.len()
            &&& shapes[i as int].body is Prim
            &&& orig.stack.len() >= shapes[i as int].params
            &&& 0 <= k < shapes[i as int].params
            &&& head_blocked(shapes, w)
            &&& !(w.head is Prim && w.stack.len() == 0)
            &&& (match shapes[i as int].name {
                Name::Named(nm) => prim_name == nm@,
                Name::Unnamed(_) => true,
            })
        }
}

/// A justified callback failure: the program holds a primitive definition
/// of the reported name.
pub open spec fn failed_prim_witness(shapes: Seq<DefShape>, def_name: Seq<char>) -> bool {
    exists|i: int|
        0 <= i < shapes.len() && (#[trigger] shapes[i]).body is Prim && (match shapes[i].name {
            Name::Named(nm) => def_name == nm@,
            Name::Unnamed(_) => true,
        })
}

proof fn lemma_chain_extend(
    shapes: Seq<DefShape>,
    base: NodeView,
    a: NodeView,
    b: NodeView,
    fstep: nat,
)
    requires
        exists|f: nat| (#[trigger] via_fuel(f)) && reaches(shapes, base, a, f),
        head_step(shapes, a, b, fstep),
    ensures
        exists|f: nat| (#[trigger] via_fuel(f)) && reaches(shapes, base, b, f),
{
    let f1 = choose|f: nat| (#[trigger] via_fuel(f)) && reaches(shapes, base, a, f);
    lemma_reaches_step(shapes, a, b, fstep);
    lemma_reaches_trans(shapes, base, a, b, f1, (fstep + 1) as nat);
    assert(via_fuel((f1 + fstep + 1) as nat) && reaches(
        shapes,
        base,
        b,
        (f1 + fstep + 1) as nat,
    ));
}


/// The decimal digits of `n`.
fn usize_text(n: usize) -> String {
    let mut rest = n;
    let mut out = String::new();
    if rest == 0 {
        out.append("0");
        return out;
    }
    while rest > 0
        decreases rest,
    {
        let d = rest % 10;
        let piece: &str = if d == 0 {
            "0"
        } else if d == 1 {
            "1"
        } else if d == 2 {
            "2"
        } else if d == 3 {
            "3"
        } else if d == 4 {
            "4"
        } else if d == 5 {
            "5"
        } else if d == 6 {
            "6"
        } else if d == 7 {
            "7"
        } else if d == 8 {
            "8"
        } else {
            "9"
        };
        let mut next = String::new();
        next.append(piece);
        next.append(out.as_str());
        out = next;
        rest = rest / 10;
    }
    out
}

/// The decimal rendering of `v`, with a leading minus sign if negative.
fn i64_text(v: i64) -> String {
    if v == i64::MIN {
        let mut out = String::new();
        out.append("-9223372036854775808");
        return out;
    }
    if v < 0 {
        let mut out = String::new();
        out.append("-");
        let m = -v;
        out.append(usize_text(m as usize).as_str());
        return out;
    }
    usize_text(v as usize)
}

/// The rendering of a name: the user-given string, or `?` before the
/// generated counter.
fn name_text(n: &Name) -> (r: String)
    ensures
        (match *n {
            Name::Named(s) => r@ == s@,
            Name::Unnamed(_) => true,
        }),
{
    match n {
        Name::Named(s) => s.clone(),
        Name::Unnamed(i) => {
            let mut out = String::new();
            out.append("?");
            out.append(usize_text(*i).as_str());
            out
        },
    }
}

/// The rendering of a list of evaluated primitive arguments.
fn vals_text(vals: &Vec<i64>) -> String {
    let mut out = String::new();
    out.append("[");
    let mut k: usize = 0;
    while k < vals.len()
        decreases vals.len() - k,
    {
        if k > 0 {
            out.append(", ");
        }
        out.append(i64_text(vals[k]).as_str());
        k = k + 1;
    }
    out.append("]");
    out
}

/// One in-flight primitive application: the definition being applied, the
/// integer values of the arguments already evaluated, and the application
/// node with the consumed arguments popped.  `orig` remembers the node as
/// it was when the primitive application began.
struct PrimFrame {
    def_id: usize,
    vals: Vec<i64>,
    node: Node,
    orig: Ghost<NodeView>,
    fbound: Ghost<nat>,
}

spec fn frame_ok(shapes: Seq<DefShape>, fr: PrimFrame, inner: NodeView) -> bool {
    &&& fr.def_id < shapes.len()
    &&& shapes[fr.def_id as int].body is Prim
    &&& fr.node@.head == Atom::Sc(fr.def_id)
    &&& fr.orig@.head == Atom::Sc(fr.def_id)
    &&& fr.orig@.stack.len() >= shapes[fr.def_id as int].params
    &&& fr.vals@.len() + 1 <= shapes[fr.def_id as int].params
    &&& fr.node@.stack == fr.orig@.stack.skip(fr.vals@.len() as int + 1)
    &&& (forall|k: int| #![trigger fr.vals@[k]]
        0 <= k < fr.vals@.len() ==> reaches(shapes, fr.orig@.stack[k], bare(fr.vals@[k]), fr.fbound@))
    &&& (exists|f: nat|
        (#[trigger] via_fuel(f)) && reaches(
            shapes,
            fr.orig@.stack[fr.vals@.len() as int],
            inner,
            f,
        ))
    &&& nodeview_wf(fr.orig@, shapes.len() as nat)
}

impl<P: Primop> ScPrimProgram<P> {
    /// The rendered name of definition `i`, for diagnostics.
    fn name_text_of(&self, i: usize) -> (r: String)
        requires
            i < self.defs@.len(),
        ensures
            (match self.defs@[i as int].name {
                Name::Named(s) => r@ == s@,
                Name::Unnamed(_) => true,
            }),
    {
        name_text(&self.defs[i].name)
    }

    /// A short rendering of a node in weak head normal form: its head, and
    /// one `(..)` per pending argument.
    fn whnf_text(&self, n: &Node) -> String {
        let mut out = match n.head {
            Atom::Sc(i) => {
                if i < self.defs.len() {
                    name_text(&self.defs[i].name)
                } else {
                    usize_text(i)
                }
            },
            Atom::Prim(v) => i64_text(v),
        };
        let mut k: usize = 0;
        while k < n.stack.len()
            decreases n.stack@.len() - k,
        {
            out.append(" (..)");
            k = k + 1;
        }
        out
    }

    /// Invokes the callback of the primitive definition `i` on the fully
    /// evaluated arguments.
    fn call_prim(&mut self, i: usize, vals: &Vec<i64>) -> (r: Option<Atom>)
        requires
            i < old(self).defs@.len(),
            prog_shape(*old(self))[i as int].body is Prim,
        ensures
            prog_shape(*final(self)) == prog_shape(*old(self)),
            final(self).defs@.len() == old(self).defs@.len(),
            (r matches Some(a) ==> atom_wf(a, old(self).defs@.len() as nat)),
    {
        let n_defs = self.defs.len();
        let mut d = self.defs.remove(i);
        let ghost removed = self.defs@;
        let r = match &mut d.body {
            ScBody::Prim(p) => p.call(vals, n_defs),
            ScBody::Body(_) => {
                proof {
                    assert(prog_shape(*old(self))[i as int] == def_shape(
                        old(self).defs@[i as int],
                    ));
                    assert(false);
                }
                vstd::pervasive::unreached()
            },
        };
        self.defs.insert(i, d);
        proof {
            let pre = prog_shape(*old(self));
            let post = prog_shape(*self);
            assert forall|j: int| 0 <= j < post.len() implies post[j] == pre[j] by {
                assert(post[j] == def_shape(self.defs@[j]));
                assert(pre[j] == def_shape(old(self).defs@[j]));
                if j < i {
                    assert(self.defs@[j] == old(self).defs@[j]);
                } else if j > i {
                    assert(self.defs@[j] == old(self).defs@[j]);
                }
            }
            assert(post =~= pre);
        }
        r
    }

    /// Reduces `start` to weak head normal form, evaluating nested
    /// primitive applications with an explicit stack of frames instead of
    /// recursion.  One unit of `fuel` pays for one loop iteration.
    fn eval_whnf(&mut self, start: Node, fuel: &mut u64) -> (r: Result<Node, Error>)
        requires
            shapes_wf(prog_shape(*old(self))),
            nodeview_wf(start@, old(self).defs@.len() as nat),
        ensures
            prog_shape(*final(self)) == prog_shape(*old(self)),
            final(self).defs@.len() == old(self).defs@.len(),
            *final(fuel) <= *old(fuel),
            (match r {
                Ok(n) => {
                    &&& nodeview_wf(n@, old(self).defs@.len() as nat)
                    &&& head_blocked(prog_shape(*old(self)), n@)
                    &&& exists|f: nat|
                        (#[trigger] via_fuel(f)) && reaches(prog_shape(*old(self)), start@, n@, f)
                },
                Err(e) => e@ is UnexpectedPrimApp || e@ is PrimopFailure || e@ is OutOfFuel,
            }),
            (match r {
                Err(e) => e@ is OutOfFuel ==> *final(fuel) == 0,
                Ok(n) => true,
            }),
            (match r {
                Err(e) => {
                    &&& (pure_shapes(prog_shape(*old(self))) ==> e@ is OutOfFuel)
                    &&& (e@ matches ErrorView::UnexpectedPrimApp { prim_name }
                        ==> stuck_prim_witness(prog_shape(*old(self)), prim_name))
                    &&& (e@ matches ErrorView::PrimopFailure { def_name } ==> failed_prim_witness(
                        prog_shape(*old(self)),
                        def_name,
                    ))
                },
                Ok(n) => true,
            }),
    {
        let ghost shapes = prog_shape(*old(self));
        let ghost startv = start@;
        let n_defs = self.defs.len();
        proof {
            assert(shapes.len() == n_defs);
            assert(via_fuel(0nat) && reaches(shapes, startv, startv, 0nat));
        }
        let mut cur = start;
        let mut frames: Vec<PrimFrame> = Vec::new();
        loop
            invariant
                shapes == prog_shape(*old(self)),
                startv == start@,
                n_defs == old(self).defs@.len(),
                prog_shape(*self) == shapes,
                self.defs@.len() == n_defs,
                shapes.len() == n_defs,
                shapes_wf(shapes),
                nodeview_wf(cur@, n_defs as nat),
                forall|j: int|
                    0 <= j < frames@.len() - 1 ==> frame_ok(
                        shapes,
                        #[trigger] frames@[j],
                        frames@[j + 1].orig@,
                    ),
                frames@.len() > 0 ==> frame_ok(shapes, frames@[frames@.len() - 1], cur@),
                frames@.len() > 0 ==> exists|f: nat|
                    (#[trigger] via_fuel(f)) && reaches(shapes, startv, frames@[0].orig@, f),
                frames@.len() == 0 ==> exists|f: nat|
                    (#[trigger] via_fuel(f)) && reaches(shapes, startv, cur@, f),
                *fuel <= *old(fuel),
            decreases *fuel,
        {
            if *fuel == 0 {
                return Err(Error::OutOfFuel);
            }
            *fuel = *fuel - 1;
            let ghost curv = cur@;
            proof {
                lemma_node_view_parts(cur);
            }
            // decide whether the head of `cur` can reduce
            let redex_params: Option<usize> = match cur.head {
                Atom::Prim(_) => None,
                Atom::Sc(i) => {
                    let p = self.defs[i].params;
                    proof {
                        assert(shapes[i as int] == def_shape(self.defs@[i as int]));
                    }
                    if cur.stack.len() >= p {
                        Some(p)
                    } else {
                        None
                    }
                },
            };
            match redex_params {
                None => {
                    // `cur` is in weak head normal form
                    proof {
                        assert(head_blocked(shapes, curv));
                    }
                    if frames.len() == 0 {
                        return Ok(cur);
                    }
                    let mut fr = match frames.pop() {
                        Some(fr) => fr,
                        None => {
                            proof {
                                assert(false);
                            }
                            vstd::pervasive::unreached()
                        },
                    };
                    let ghost frsnap = fr;
                    let bare_val: Option<i64> = match cur.head {
                        Atom::Prim(v) => if cur.stack.len() == 0 {
                            Some(v)
                        } else {
                            None
                        },
                        Atom::Sc(_) => None,
                    };
                    let v = match bare_val {
                        Some(v) => v,
                        None => {
                            let prim_name = self.name_text_of(fr.def_id);
                            let arg_text = self.whnf_text(&cur);
                            proof {
                                // the in-flight strict argument has a
                                // blocked, non-integer weak head normal form
                                assert(frame_ok(shapes, frsnap, curv));
                                let di = frsnap.def_id as int;
                                assert(shapes[di] == def_shape(self.defs@[di]));
                                let kk = frsnap.vals@.len() as int;
                                let f0 = choose|f: nat|
                                    (#[trigger] via_fuel(f)) && reaches(
                                        shapes,
                                        frsnap.orig@.stack[kk],
                                        curv,
                                        f,
                                    );
                                assert(!(curv.head is Prim && curv.stack.len() == 0));
                                assert(stuck_prim_witness(shapes, prim_name@)) by {
                                    assert(reaches(shapes, frsnap.orig@.stack[kk], curv, f0));
                                }
                            }
                            return Err(
                                Error::UnexpectedPrimApp { prim_name, arg: arg_text },
                            );
                        },
                    };
                    proof {
                        assert(curv =~= bare(v)) by {
                            assert(curv.stack =~= Seq::<NodeView>::empty());
                        }
                        assert(curv == bare(v));
                    }
                    let params = self.defs[fr.def_id].params;
                    proof {
                        assert(shapes[fr.def_id as int] == def_shape(
                            self.defs@[fr.def_id as int],
                        ));
                        assert(params == shapes[fr.def_id as int].params);
                    }
                    let ghost old_vals = fr.vals@;
                    fr.vals.push(v);
                    let ghost f0 = choose|f: nat|
                        (#[trigger] via_fuel(f)) && reaches(
                            shapes,
                            frsnap.orig@.stack[old_vals.len() as int],
                            curv,
                            f,
                        );
                    let ghost nb = (frsnap.fbound@ + f0) as nat;
                    fr.fbound = Ghost(nb);
                    proof {
                        // lift the recorded facts and the newly finished
                        // argument to one common bound
                        assert(fr.vals@ =~= old_vals.push(v));
                        assert forall|k: int| #![trigger fr.vals@[k]]
                            0 <= k < fr.vals@.len() implies reaches(
                            shapes,
                            fr.orig@.stack[k],
                            bare(fr.vals@[k]),
                            fr.fbound@,
                        ) by {
                            if k < old_vals.len() {
                                assert(fr.vals@[k] == old_vals[k]);
                                assert(reaches(
                                    shapes,
                                    frsnap.orig@.stack[k],
                                    bare(old_vals[k]),
                                    frsnap.fbound@,
                                ));
                                lemma_reaches_mono(
                                    shapes,
                                    fr.orig@.stack[k],
                                    bare(fr.vals@[k]),
                                    frsnap.fbound@,
                                    nb,
                                );
                            } else {
                                assert(fr.vals@[k] == v);
                                assert(curv == bare(v));
                                lemma_reaches_mono(
                                    shapes,
                                    fr.orig@.stack[k],
                                    bare(fr.vals@[k]),
                                    f0,
                                    nb,
                                );
                            }
                        }
                    }
                    if fr.vals.len() == params {
                        // all strict arguments are ready: run the callback
                        let atom = match self.call_prim(fr.def_id, &fr.vals) {
                            Some(a) => a,
                            None => {
                                let prim_name = self.name_text_of(fr.def_id);
                                let arg_text = vals_text(&fr.vals);
                                proof {
                                    let di = fr.def_id as int;
                                    assert(shapes[di] == def_shape(self.defs@[di]));
                                    assert(failed_prim_witness(shapes, prim_name@)) by {
                                        assert(shapes[di].body is Prim);
                                    }
                                }
                                return Err(
                                    Error::PrimopFailure { def_name: prim_name, arg: arg_text },
                                );
                            },
                        };
                        let PrimFrame { def_id: _, vals: _, node, orig, fbound: _ } = fr;
                        let Node { head: _, stack } = node;
                        let newcur = Node { head: atom, stack };
                        proof {
                            lemma_node_view_parts(newcur);
                            assert(newcur@.stack =~= orig@.stack.skip(params as int));
                            // the finished primitive application is one
                            // head step of the original node
                            let valseq = fr.vals@;
                            let g = fr.fbound@;
                            assert forall|k: int| #![trigger valseq[k]]
                                0 <= k < params implies reaches(
                                shapes,
                                orig@.stack[k],
                                bare(valseq[k]),
                                g,
                            ) by {
                                assert(reaches(shapes, fr.orig@.stack[k], bare(fr.vals@[k]), fr.fbound@));
                            }
                            assert(head_step(shapes, orig@, newcur@, g)) by {
                                assert(valseq.len() == params && (forall|k: int| #![trigger valseq[k]]
                                    0 <= k < params ==> reaches(
                                        shapes,
                                        orig@.stack[k],
                                        bare(valseq[k]),
                                        g,
                                    )));
                            }
                            // well-formedness of the new node
                            assert forall|k: int| 0 <= k < newcur@.stack.len() implies nodeview_wf(
                                #[trigger] newcur@.stack[k],
                                n_defs as nat,
                            ) by {
                                assert(newcur@.stack[k] == orig@.stack[k + params]);
                            }
                            assert(nodeview_wf(newcur@, n_defs as nat));
                            // extend the reduction chain one level out
                            if frames@.len() == 0 {
                                lemma_chain_extend(shapes, startv, orig@, newcur@, g);
                            } else {
                                let parent = frames@[frames@.len() - 1];
                                let f0 = choose|f: nat|
                                    (#[trigger] via_fuel(f)) && reaches(
                                        shapes,
                                        parent.orig@.stack[parent.vals@.len() as int],
                                        orig@,
                                        f,
                                    );
                                lemma_chain_extend(
                                    shapes,
                                    parent.orig@.stack[parent.vals@.len() as int],
                                    orig@,
                                    newcur@,
                                    g,
                                );
                            }
                        }
                        cur = newcur;
                    } else {
                        // fetch the next strict argument
                        proof {
                            assert(fr.node@.stack == fr.orig@.stack.skip(old_vals.len() as int + 1));
                            assert(fr.orig@.stack.len() > fr.vals@.len());
                            assert(fr.node@.stack.len() > 0);
                            lemma_node_view_parts(fr.node);
                        }
                        let ghost frnode_pre = fr.node;
                        proof {
                            lemma_node_view_parts(frnode_pre);
                        }
                        let arg = match fr.node.stack.pop_front() {
                            Some(a) => a,
                            None => {
                                proof {
                                    assert(false);
                                }
                                vstd::pervasive::unreached()
                            },
                        };
                        proof {
                            lemma_node_view_parts(fr.node);
                            lemma_node_view_parts(frnode_pre);
                            assert(arg == frnode_pre.stack@[0]);
                            assert(node_view(arg) == frnode_pre@.stack[0]);
                            assert(fr.node@.stack =~= fr.orig@.stack.skip(fr.vals@.len() as int + 1));
                            assert(node_view(arg) == fr.orig@.stack[fr.vals@.len() as int]);
                            assert(via_fuel(0nat) && reaches(
                                shapes,
                                fr.orig@.stack[fr.vals@.len() as int],
                                node_view(arg),
                                0nat,
                            ));
                            assert(nodeview_wf(node_view(arg), n_defs as nat));
                        }
                        cur = arg;
                        frames.push(fr);
                    }
                },
                Some(params) => {
                    let i = match cur.head {
                        Atom::Sc(i) => i,
                        Atom::Prim(_) => {
                            proof {
                                assert(false);
                            }
                            vstd::pervasive::unreached()
                        },
                    };
                    let is_body = match &self.defs[i].body {
                        ScBody::Body(_) => true,
                        ScBody::Prim(_) => false,
                    };
                    proof {
                        assert(shapes[i as int] == def_shape(self.defs@[i as int]));
                    }
                    if is_body {
                        // ordinary supercombinator: one beta step in place
                        self.beta_apply(i, &mut cur);
                        proof {
                            assert(head_step(shapes, curv, cur@, 0nat));
                            if frames@.len() == 0 {
                                lemma_chain_extend(shapes, startv, curv, cur@, 0nat);
                            } else {
                                let parent = frames@[frames@.len() - 1];
                                lemma_chain_extend(
                                    shapes,
                                    parent.orig@.stack[parent.vals@.len() as int],
                                    curv,
                                    cur@,
                                    0nat,
                                );
                            }
                        }
                    } else if params == 0 {
                        // a primitive of arity zero: call it at once
                        let vals: Vec<i64> = Vec::new();
                        let atom = match self.call_prim(i, &vals) {
                            Some(a) => a,
                            None => {
                                let prim_name = self.name_text_of(i);
                                let arg_text = vals_text(&vals);
                                proof {
                                    assert(shapes[i as int] == def_shape(self.defs@[i as int]));
                                    assert(failed_prim_witness(shapes, prim_name@)) by {
                                        assert(shapes[i as int].body is Prim);
                                    }
                                }
                                return Err(
                                    Error::PrimopFailure { def_name: prim_name, arg: arg_text },
                                );
                            },
                        };
                        let Node { head: _, stack } = cur;
                        let newcur = Node { head: atom, stack };
                        proof {
                            lemma_node_view_parts(newcur);
                            assert(newcur@.stack =~= curv.stack.skip(0));
                            assert(vals@ =~= Seq::<i64>::empty());
                            assert(via_fuel(0nat) && (forall|k: int| #![trigger vals@[k]]
                                0 <= k < 0 ==> reaches(shapes, curv.stack[k], bare(vals@[k]), 0nat)));
                            assert(head_step(shapes, curv, newcur@, 0nat)) by {
                                assert(vals@.len() == 0);
                            }
                            assert forall|k: int| 0 <= k < newcur@.stack.len() implies nodeview_wf(
                                #[trigger] newcur@.stack[k],
                                n_defs as nat,
                            ) by {
                                assert(newcur@.stack[k] == curv.stack[k]);
                            }
                            if frames@.len() == 0 {
                                lemma_chain_extend(shapes, startv, curv, newcur@, 0nat);
                            } else {
                                let parent = frames@[frames@.len() - 1];
                                lemma_chain_extend(
                                    shapes,
                                    parent.orig@.stack[parent.vals@.len() as int],
                                    curv,
                                    newcur@,
                                    0nat,
                                );
                            }
                        }
                        cur = newcur;
                    } else {
                        // a saturated primitive: start evaluating its first
                        // strict argument
                        let Node { head, stack } = cur;
                        let mut stackd = stack;
                        proof {
                            assert(curv.stack.len() >= params);
                        }
                        let arg = match stackd.pop_front() {
                            Some(a) => a,
                            None => {
                                proof {
                                    assert(false);
                                }
                                vstd::pervasive::unreached()
                            },
                        };
                        let newframe = PrimFrame {
                            def_id: i,
                            vals: Vec::new(),
                            node: Node { head, stack: stackd },
                            orig: Ghost(curv),
                            fbound: Ghost(0nat),
                        };
                        proof {
                            lemma_node_view_parts(newframe.node);
                            assert(newframe.node@.stack =~= curv.stack.skip(1));
                            assert(node_view(arg) == curv.stack[0]);
                            assert(via_fuel(0nat) && reaches(
                                shapes,
                                curv.stack[0],
                                node_view(arg),
                                0nat,
                            ));
                            assert(frame_ok(shapes, newframe, node_view(arg)));
                            assert(nodeview_wf(node_view(arg), n_defs as nat));
                        }
                        let ghost frames_pre = frames@;
                        frames.push(newframe);
                        proof {
                            assert(frames@ =~= frames_pre.push(newframe));
                            assert forall|j: int|
                                0 <= j < frames@.len() - 1 implies frame_ok(
                                shapes,
                                #[trigger] frames@[j],
                                frames@[j + 1].orig@,
                            ) by {
                                if j < frames_pre.len() - 1 {
                                    assert(frames@[j] == frames_pre[j]);
                                    assert(frames@[j + 1] == frames_pre[j + 1]);
                                } else {
                                    assert(frames@[j] == frames_pre[j]);
                                    assert(frames@[j + 1] == newframe);
                                    assert(newframe.orig@ == curv);
                                }
                            }
                        }
                        cur = arg;
                    }
                },
            }
        }
    }
}


/// The bare integer nodes for a sequence of values.
pub open spec fn bare_nodes(vs: Seq<i64>) -> Seq<NodeView> {
    Seq::new(vs.len(), |j: int| bare(vs[j]))
}

proof fn lemma_head_once_error_state(
    shapes: Seq<DefShape>,
    rootv: NodeView,
    finalv: NodeView,
    vals: Seq<i64>,
    midv: NodeView,
    k: int,
    fb: nat,
    nd: nat,
)
    requires
        finalv.head == rootv.head,
        finalv.stack == bare_nodes(vals) + seq![midv] + rootv.stack.skip(k + 1),
        vals.len() == k,
        0 <= k < rootv.stack.len(),
        forall|j: int| #![trigger vals[j]]
            0 <= j < k ==> reaches(shapes, rootv.stack[j], bare(vals[j]), fb),
        tree_reaches(shapes, rootv.stack[k], midv, fb),
        nodeview_wf(rootv, nd),
        nodeview_wf(midv, nd),
    ensures
        finalv.stack.len() == rootv.stack.len(),
        nodeview_wf(finalv, nd),
        forall|j: int| #![trigger finalv.stack[j]]
            0 <= j < rootv.stack.len() ==> tree_reaches(
                shapes,
                rootv.stack[j],
                finalv.stack[j],
                fb,
            ),
{
    assert forall|j: int| 0 <= j < finalv.stack.len() implies nodeview_wf(
        #[trigger] finalv.stack[j],
        nd,
    ) by {
        if j < k {
            assert(finalv.stack[j] == bare(vals[j]));
            assert(nodeview_wf(bare(vals[j]), nd));
        } else if j == k {
            assert(finalv.stack[j] == midv);
        } else {
            assert(finalv.stack[j] == rootv.stack[j]);
        }
    }
    assert(nodeview_wf(finalv, nd));
    assert forall|j: int| #![trigger finalv.stack[j]]
        0 <= j < rootv.stack.len() implies tree_reaches(
        shapes,
        rootv.stack[j],
        finalv.stack[j],
        fb,
    ) by {
        if j < k {
            assert(finalv.stack[j] == bare(vals[j]));
            lemma_reaches_tree(shapes, rootv.stack[j], bare(vals[j]), fb);
        } else if j == k {
            assert(finalv.stack[j] == midv);
        } else {
            assert(finalv.stack[j] == rootv.stack[j]);
            lemma_tree_reaches_mono(shapes, rootv.stack[j], finalv.stack[j], 0nat, fb);
        }
    }
}

proof fn lemma_head_once_failure_state(
    shapes: Seq<DefShape>,
    rootv: NodeView,
    finalv: NodeView,
    vals: Seq<i64>,
    fb: nat,
    nd: nat,
)
    requires
        finalv.head == rootv.head,
        finalv.stack == bare_nodes(vals) + Seq::<NodeView>::empty() + rootv.stack.skip(
            vals.len() as int,
        ),
        vals.len() <= rootv.stack.len(),
        forall|j: int| #![trigger vals[j]]
            0 <= j < vals.len() ==> reaches(shapes, rootv.stack[j], bare(vals[j]), fb),
        nodeview_wf(rootv, nd),
    ensures
        finalv.stack.len() == rootv.stack.len(),
        nodeview_wf(finalv, nd),
        forall|j: int| #![trigger finalv.stack[j]]
            0 <= j < rootv.stack.len() ==> tree_reaches(
                shapes,
                rootv.stack[j],
                finalv.stack[j],
                fb,
            ),
{
    assert forall|j: int| 0 <= j < finalv.stack.len() implies nodeview_wf(
        #[trigger] finalv.stack[j],
        nd,
    ) by {
        if j < vals.len() {
            assert(finalv.stack[j] == bare(vals[j]));
            assert(nodeview_wf(bare(vals[j]), nd));
        } else {
            assert(finalv.stack[j] == rootv.stack[j]);
        }
    }
    assert(nodeview_wf(finalv, nd));
    assert forall|j: int| #![trigger finalv.stack[j]]
        0 <= j < rootv.stack.len() implies tree_reaches(
        shapes,
        rootv.stack[j],
        finalv.stack[j],
        fb,
    ) by {
        if j < vals.len() {
            assert(finalv.stack[j] == bare(vals[j]));
            lemma_reaches_tree(shapes, rootv.stack[j], bare(vals[j]), fb);
        } else {
            assert(finalv.stack[j] == rootv.stack[j]);
            lemma_tree_reaches_mono(shapes, rootv.stack[j], finalv.stack[j], 0nat, fb);
        }
    }
}

/// Puts the consumed arguments of a failed primitive step back on the
/// front of the stack: first the optional in-flight argument, then the
/// already-evaluated ones as bare integers, in their original order.
fn restore_args(root: &mut Node, vals: &Vec<i64>, extra: Option<Node>)
    ensures
        final(root)@.head == old(root)@.head,
        final(root)@.stack == bare_nodes(vals@) + (match extra {
            Some(x) => seq![x@],
            None => Seq::<NodeView>::empty(),
        }) + old(root)@.stack,
{
    let ghost base = root@.stack;
    let ghost esnap = extra;
    let ghost mid = (match esnap {
        Some(x) => seq![x@],
        None => Seq::<NodeView>::empty(),
    });
    match extra {
        Some(x) => {
            let ghost rsnap = *root;
            let ghost xv = x@;
            root.stack.push_front(x);
            proof {
                lemma_node_view_parts(rsnap);
                lemma_node_view_parts(*root);
                assert(root@.stack =~= mid + base);
            }
        },
        None => {
            proof {
                assert(root@.stack =~= mid + base);
            }
        },
    }
    let mut j = vals.len();
    while j > 0
        invariant
            j <= vals@.len(),
            root.head == old(root).head,
            root@.stack =~= bare_nodes(vals@.skip(j as int)) + mid + base,
        decreases j,
    {
        j = j - 1;
        let entry = Node { head: Atom::Prim(vals[j]), stack: VecDeque::new() };
        let ghost rsnap = *root;
        let ghost ev = entry@;
        root.stack.push_front(entry);
        proof {
            lemma_node_view_parts(rsnap);
            lemma_node_view_parts(*root);
            assert(ev =~= bare(vals@[j as int])) by {
                assert(ev.stack =~= Seq::<NodeView>::empty());
            }
            assert(root@.stack =~= seq![ev] + rsnap@.stack);
            assert(root@.stack =~= bare_nodes(vals@.skip(j as int)) + mid + base);
        }
    }
    proof {
        assert(vals@.skip(0) =~= vals@);
        assert(root@.stack =~= bare_nodes(vals@) + mid + base);
    }
}

impl<P: Primop> ScPrimProgram<P> {
    /// Tries one head reduction on `root`: a beta step, or one complete
    /// primitive step whose strict arguments are first reduced to bare
    /// integers.  Returns whether a reduction happened; `Ok(false)` means
    /// `root` is already in weak head normal form and is left untouched.
    /// On a failed primitive step the consumed arguments go back on the
    /// stack, the already-evaluated ones as bare integers.
    pub fn reduce_head_once(&mut self, root: &mut Node, fuel: &mut u64) -> (r: Result<bool, Error>)
        requires
            shapes_wf(prog_shape(*old(self))),
            nodeview_wf(old(root)@, old(self).defs@.len() as nat),
        ensures
            prog_shape(*final(self)) == prog_shape(*old(self)),
            final(self).defs@.len() == old(self).defs@.len(),
            *final(fuel) <= *old(fuel),
            nodeview_wf(final(root)@, old(self).defs@.len() as nat),
            head_blocked(prog_shape(*old(self)), old(root)@) ==> r matches Ok(false),
            (r matches Ok(false) ==> {
                &&& final(root)@ == old(root)@
                &&& head_blocked(prog_shape(*old(self)), old(root)@)
                &&& *final(fuel) == *old(fuel)
                &&& *final(self) == *old(self)
            }),
            (r matches Ok(true) ==> *final(fuel) < *old(fuel) && exists|f: nat|
                (#[trigger] via_fuel(f)) && head_step(
                    prog_shape(*old(self)),
                    old(root)@,
                    final(root)@,
                    f,
                )),
            ({
                &&& old(root)@.head matches Atom::Sc(i)
                &&& i < prog_shape(*old(self)).len()
                &&& prog_shape(*old(self))[i as int].body is Body
                &&& old(root)@.stack.len() >= prog_shape(*old(self))[i as int].params
            }) ==> *final(self) == *old(self),
            (r matches Err(e) ==> e@ is UnexpectedPrimApp || e@ is PrimopFailure
                || e@ is OutOfFuel),
            (r matches Err(e) && e@ is OutOfFuel ==> *final(fuel) == 0),
            ({
                &&& old(root)@.head matches Atom::Sc(i)
                &&& i < prog_shape(*old(self)).len()
                &&& prog_shape(*old(self))[i as int].body is Body
                &&& old(root)@.stack.len() >= prog_shape(*old(self))[i as int].params
                &&& *old(fuel) > 0
            }) ==> r matches Ok(true),
            (match r {
                Err(e) => {
                    &&& (pure_shapes(prog_shape(*old(self))) ==> e@ is OutOfFuel)
                    &&& (e@ matches ErrorView::UnexpectedPrimApp { prim_name }
                        ==> stuck_prim_witness(prog_shape(*old(self)), prim_name))
                    &&& (e@ matches ErrorView::PrimopFailure { def_name } ==> failed_prim_witness(
                        prog_shape(*old(self)),
                        def_name,
                    ))
                    &&& final(root)@.head == old(root)@.head
                    &&& final(root)@.stack.len() == old(root)@.stack.len()
                    &&& (exists|g: nat|
                        (#[trigger] via_fuel(g)) && (forall|j: int|
                            #![trigger final(root)@.stack[j]]
                            0 <= j < old(root)@.stack.len() ==> tree_reaches(
                                prog_shape(*old(self)),
                                old(root)@.stack[j],
                                final(root)@.stack[j],
                                g,
                            )))
                },
                Ok(b) => true,
            }),
    {
        let ghost shapes = prog_shape(*old(self));
        let ghost rootv = old(root)@;
        let n_defs = self.defs.len();
        proof {
            lemma_node_view_parts(*root);
        }
        let redex_params: Option<usize> = match root.head {
            Atom::Prim(_) => None,
            Atom::Sc(i) => {
                let p = self.defs[i].params;
                proof {
                    assert(shapes[i as int] == def_shape(self.defs@[i as int]));
                }
                if root.stack.len() >= p {
                    Some(p)
                } else {
                    None
                }
            },
        };
        let params = match redex_params {
            None => {
                return Ok(false);
            },
            Some(p) => p,
        };
        let i = match root.head {
            Atom::Sc(i) => i,
            Atom::Prim(_) => {
                proof {
                    assert(false);
                }
                vstd::pervasive::unreached()
            },
        };
        if *fuel == 0 {
            proof {
                assert forall|j: int| #![trigger rootv.stack[j]]
                    0 <= j < rootv.stack.len() implies tree_reaches(
                    shapes,
                    rootv.stack[j],
                    rootv.stack[j],
                    0nat,
                ) by {}
                assert(via_fuel(0nat));
            }
            return Err(Error::OutOfFuel);
        }
        *fuel = *fuel - 1;
        let is_body = match &self.defs[i].body {
            ScBody::Body(_) => true,
            ScBody::Prim(_) => false,
        };
        proof {
            assert(shapes[i as int] == def_shape(self.defs@[i as int]));
        }
        if is_body {
            self.beta_apply(i, root);
            proof {
                assert(head_step(shapes, rootv, root@, 0nat));
                assert(via_fuel(0nat));
            }
            return Ok(true);
        }
        // a saturated primitive: reduce each strict argument to a bare
        // integer, left to right, then run the callback
        let mut vals: Vec<i64> = Vec::new();
        let ghost fbound = 0nat;
        let mut k: usize = 0;
        while k < params
            invariant
                k <= params,
                vals@.len() == k,
                shapes == prog_shape(*old(self)),
                prog_shape(*self) == shapes,
                self.defs@.len() == n_defs,
                n_defs == old(self).defs@.len(),
                shapes.len() == n_defs,
                shapes_wf(shapes),
                i < n_defs,
                shapes[i as int].body is Prim,
                params == shapes[i as int].params,
                rootv.stack.len() >= params,
                rootv.head == Atom::Sc(i),
                root.head == Atom::Sc(i),
                head_redex(shapes, rootv),
                rootv == old(root)@,
                root@.stack =~= rootv.stack.skip(k as int),
                nodeview_wf(rootv, n_defs as nat),
                *fuel <= *old(fuel),
                *fuel < *old(fuel),
                forall|j: int| #![trigger vals@[j]]
                    0 <= j < k ==> reaches(shapes, rootv.stack[j], bare(vals@[j]), fbound),
            decreases params - k,
        {
            let ghost pre = root@;
            let ghost rsnap = *root;
            proof {
                lemma_node_view_parts(rsnap);
            }
            let arg = match root.stack.pop_front() {
                Some(a) => a,
                None => {
                    proof {
                        assert(pre.stack.len() > 0);
                        assert(false);
                    }
                    vstd::pervasive::unreached()
                },
            };
            proof {
                lemma_node_view_parts(*root);
                assert(arg == rsnap.stack@[0]);
                assert(node_view(arg) == pre.stack[0]);
                assert(node_view(arg) == rootv.stack[k as int]);
                assert(root@.stack =~= rootv.stack.skip(k as int + 1));
                assert(nodeview_wf(node_view(arg), n_defs as nat));
            }
            let backup = arg.clone();
            let ghost argv = node_view(arg);
            let w = match self.eval_whnf(arg, fuel) {
                Ok(w) => w,
                Err(e) => {
                    restore_args(root, &vals, Some(backup));
                    proof {
                        lemma_tree_reaches_mono(shapes, rootv.stack[k as int], argv, 0nat, fbound);
                        lemma_head_once_error_state(
                            shapes,
                            rootv,
                            root@,
                            vals@,
                            argv,
                            k as int,
                            fbound,
                            n_defs as nat,
                        );
                        assert(via_fuel(fbound));
                    }
                    return Err(e);
                },
            };
            proof {
                lemma_node_view_parts(w);
            }
            let bare_v: Option<i64> = match w.head {
                Atom::Prim(v) => if w.stack.len() == 0 {
                    Some(v)
                } else {
                    None
                },
                Atom::Sc(_) => None,
            };
            let v = match bare_v {
                Some(v) => v,
                None => {
                    // a strict argument stopped at a non-integer weak head
                    // normal form: report it and put the consumed
                    // arguments back
                    let prim_name = self.name_text_of(i);
                    let arg_text = self.whnf_text(&w);
                    let ghost wv = w@;
                    let ghost fw0 = choose|f: nat|
                        (#[trigger] via_fuel(f)) && reaches(shapes, argv, wv, f);
                    restore_args(root, &vals, Some(w));
                    proof {
                        assert(shapes[i as int] == def_shape(self.defs@[i as int]));
                        assert(!(wv.head is Prim && wv.stack.len() == 0)) by {
                            lemma_node_view_parts(*root);
                        }
                        assert(stuck_prim_witness(shapes, prim_name@)) by {
                            assert(reaches(shapes, rootv.stack[k as int], wv, fw0));
                        }
                        lemma_reaches_tree(shapes, argv, wv, fw0);
                        let fb2 = (fbound + fw0) as nat;
                        lemma_tree_reaches_mono(shapes, rootv.stack[k as int], wv, fw0, fb2);
                        assert forall|j: int| #![trigger vals@[j]]
                            0 <= j < k implies reaches(
                            shapes,
                            rootv.stack[j],
                            bare(vals@[j]),
                            fb2,
                        ) by {
                            lemma_reaches_mono(shapes, rootv.stack[j], bare(vals@[j]), fbound, fb2);
                        }
                        lemma_head_once_error_state(
                            shapes,
                            rootv,
                            root@,
                            vals@,
                            wv,
                            k as int,
                            fb2,
                            n_defs as nat,
                        );
                        assert(via_fuel(fb2));
                    }
                    return Err(Error::UnexpectedPrimApp { prim_name, arg: arg_text });
                },
            };
            proof {
                assert(w@ =~= bare(v)) by {
                    assert(w@.stack =~= Seq::<NodeView>::empty());
                }
            }
            let ghost old_vals = vals@;
            let ghost old_fbound = fbound;
            vals.push(v);
            let ghost fw = choose|f: nat|
                (#[trigger] via_fuel(f)) && reaches(shapes, node_view(arg), w@, f);
            proof {
                fbound = (old_fbound + fw) as nat;
                assert(vals@ =~= old_vals.push(v));
                assert forall|j: int| #![trigger vals@[j]]
                    0 <= j < vals@.len() implies reaches(
                    shapes,
                    rootv.stack[j],
                    bare(vals@[j]),
                    fbound,
                ) by {
                    if j < old_vals.len() {
                        assert(vals@[j] == old_vals[j]);
                        assert(reaches(shapes, rootv.stack[j], bare(old_vals[j]), old_fbound));
                        lemma_reaches_mono(
                            shapes,
                            rootv.stack[j],
                            bare(vals@[j]),
                            old_fbound,
                            fbound,
                        );
                    } else {
                        assert(vals@[j] == v);
                        assert(reaches(shapes, rootv.stack[j], w@, fw));
                        lemma_reaches_mono(shapes, rootv.stack[j], bare(v), fw, fbound);
                    }
                }
            }
            k = k + 1;
        }
        let atom = match self.call_prim(i, &vals) {
            Some(a) => a,
            None => {
                // the callback declined: put the evaluated arguments back
                let def_name = self.name_text_of(i);
                let arg_text = vals_text(&vals);
                restore_args(root, &vals, None);
                proof {
                    assert(shapes[i as int] == def_shape(self.defs@[i as int]));
                    assert(failed_prim_witness(shapes, def_name@)) by {
                        assert(shapes[i as int].body is Prim);
                    }
                    lemma_head_once_failure_state(
                        shapes,
                        rootv,
                        root@,
                        vals@,
                        fbound,
                        n_defs as nat,
                    );
                    assert(via_fuel(fbound));
                }
                return Err(Error::PrimopFailure { def_name, arg: arg_text });
            },
        };
        root.head = atom;
        proof {
            lemma_node_view_parts(*root);
            assert(root@.stack =~= rootv.stack.skip(params as int));
            assert(head_step(shapes, rootv, root@, fbound)) by {
                assert(vals@.len() == params && (forall|j: int| #![trigger vals@[j]]
                    0 <= j < params ==> reaches(shapes, rootv.stack[j], bare(vals@[j]), fbound)));
            }
            assert(via_fuel(fbound));
            assert forall|j: int| 0 <= j < root@.stack.len() implies nodeview_wf(
                #[trigger] root@.stack[j],
                n_defs as nat,
            ) by {
                assert(root@.stack[j] == rootv.stack[j + params]);
            }
        }
        Ok(true)
    }

    /// Reduces `root` to weak head normal form: head reductions are applied
    /// until none remains or the budget runs out.
    pub fn reduce_to_whnf(&mut self, root: &mut Node, fuel: &mut u64) -> (r: Result<(), Error>)
        requires
            shapes_wf(prog_shape(*old(self))),
            nodeview_wf(old(root)@, old(self).defs@.len() as nat),
        ensures
            prog_shape(*final(self)) == prog_shape(*old(self)),
            final(self).defs@.len() == old(self).defs@.len(),
            *final(fuel) <= *old(fuel),
            nodeview_wf(final(root)@, old(self).defs@.len() as nat),
            (r matches Ok(u) ==> {
                &&& head_blocked(prog_shape(*old(self)), final(root)@)
                &&& exists|f: nat|
                    (#[trigger] via_fuel(f)) && reaches(
                        prog_shape(*old(self)),
                        old(root)@,
                        final(root)@,
                        f,
                    )
            }),
            (r matches Err(e) ==> e@ is UnexpectedPrimApp || e@ is PrimopFailure
                || e@ is OutOfFuel),
            (r matches Err(e) && e@ is OutOfFuel ==> *final(fuel) == 0),
            head_blocked(prog_shape(*old(self)), old(root)@) ==> {
                &&& r matches Ok(u)
                &&& final(root)@ == old(root)@
                &&& *final(fuel) == *old(fuel)
            },
            (match r {
                Err(e) => {
                    &&& (pure_shapes(prog_shape(*old(self))) ==> e@ is OutOfFuel)
                    &&& (e@ matches ErrorView::UnexpectedPrimApp { prim_name }
                        ==> stuck_prim_witness(prog_shape(*old(self)), prim_name))
                    &&& (e@ matches ErrorView::PrimopFailure { def_name } ==> failed_prim_witness(
                        prog_shape(*old(self)),
                        def_name,
                    ))
                    &&& (exists|f: nat|
                        (#[trigger] via_fuel(f)) && tree_reaches(
                            prog_shape(*old(self)),
                            old(root)@,
                            final(root)@,
                            f,
                        ))
                },
                Ok(u) => true,
            }),
    {
        let ghost shapes = prog_shape(*old(self));
        let ghost rootv = old(root)@;
        let n_defs = self.defs.len();
        proof {
            assert(via_fuel(0nat) && reaches(shapes, rootv, rootv, 0nat));
        }
        loop
            invariant
                shapes == prog_shape(*old(self)),
                prog_shape(*self) == shapes,
                self.defs@.len() == n_defs,
                n_defs == old(self).defs@.len(),
                shapes_wf(shapes),
                nodeview_wf(root@, n_defs as nat),
                rootv == old(root)@,
                *fuel <= *old(fuel),
                exists|f: nat| (#[trigger] via_fuel(f)) && reaches(shapes, rootv, root@, f),
                head_blocked(shapes, rootv) ==> (root@ == rootv && *fuel == *old(fuel)),
            decreases *fuel,
        {
            let ghost pre = root@;
            match self.reduce_head_once(root, fuel) {
                Ok(true) => {
                    proof {
                        let fs = choose|f: nat|
                            (#[trigger] via_fuel(f)) && head_step(shapes, pre, root@, f);
                        lemma_chain_extend(shapes, rootv, pre, root@, fs);
                    }
                },
                Ok(false) => {
                    return Ok(());
                },
                Err(e) => {
                    proof {
                        let fr = choose|f: nat|
                            (#[trigger] via_fuel(f)) && reaches(shapes, rootv, pre, f);
                        lemma_reaches_tree(shapes, rootv, pre, fr);
                        let g = choose|g: nat|
                            (#[trigger] via_fuel(g)) && (forall|j: int|
                                #![trigger root@.stack[j]]
                                0 <= j < pre.stack.len() ==> tree_reaches(
                                    shapes,
                                    pre.stack[j],
                                    root@.stack[j],
                                    g,
                                ));
                        lemma_stack_evolved(shapes, pre, root@, g);
                        lemma_tree_reaches_trans(
                            shapes,
                            rootv,
                            pre,
                            root@,
                            fr,
                            (pre.stack.len() * g) as nat,
                        );
                        assert(via_fuel((fr + pre.stack.len() * g) as nat));
                    }
                    return Err(e);
                },
            }
        }
    }
}


proof fn lemma_tree_step_mono(shapes: Seq<DefShape>, n1: NodeView, n2: NodeView, f: nat, f2: nat)
    requires
        tree_step(shapes, n1, n2, f),
        f <= f2,
    ensures
        tree_step(shapes, n1, n2, f2),
    decreases n1,
{
    if head_step(shapes, n1, n2, f) {
        lemma_head_step_mono(shapes, n1, n2, f, f2);
    } else {
        let k = choose|k: int|
            0 <= k < n1.stack.len() && tree_step(shapes, #[trigger] n1.stack[k], n2.stack[k], f)
                && (forall|j: int|
                0 <= j < n1.stack.len() && j != k ==> n1.stack[j] == n2.stack[j]);
        lemma_tree_step_mono(shapes, n1.stack[k], n2.stack[k], f, f2);
        assert(0 <= k < n1.stack.len() && tree_step(shapes, n1.stack[k], n2.stack[k], f2) && (
        forall|j: int| 0 <= j < n1.stack.len() && j != k ==> n1.stack[j] == n2.stack[j]));
    }
}

proof fn lemma_tree_reaches_mono(
    shapes: Seq<DefShape>,
    n1: NodeView,
    n2: NodeView,
    f: nat,
    f2: nat,
)
    requires
        tree_reaches(shapes, n1, n2, f),
        f <= f2,
    ensures
        tree_reaches(shapes, n1, n2, f2),
    decreases f2,
{
    if n1 != n2 {
        let m = choose|m: NodeView|
            (#[trigger] via_node(m)) && tree_step(shapes, n1, m, (f - 1) as nat) && tree_reaches(
                shapes,
                m,
                n2,
                (f - 1) as nat,
            );
        lemma_tree_step_mono(shapes, n1, m, (f - 1) as nat, (f2 - 1) as nat);
        lemma_tree_reaches_mono(shapes, m, n2, (f - 1) as nat, (f2 - 1) as nat);
        assert(via_node(m) && tree_step(shapes, n1, m, (f2 - 1) as nat) && tree_reaches(
            shapes,
            m,
            n2,
            (f2 - 1) as nat,
        ));
    }
}

proof fn lemma_tree_reaches_trans(
    shapes: Seq<DefShape>,
    a: NodeView,
    b: NodeView,
    c: NodeView,
    f1: nat,
    f2: nat,
)
    requires
        tree_reaches(shapes, a, b, f1),
        tree_reaches(shapes, b, c, f2),
    ensures
        tree_reaches(shapes, a, c, (f1 + f2) as nat),
    decreases f1,
{
    if a == b {
        lemma_tree_reaches_mono(shapes, b, c, f2, (f1 + f2) as nat);
    } else {
        let m = choose|m: NodeView|
            (#[trigger] via_node(m)) && tree_step(shapes, a, m, (f1 - 1) as nat) && tree_reaches(
                shapes,
                m,
                b,
                (f1 - 1) as nat,
            );
        lemma_tree_reaches_trans(shapes, m, b, c, (f1 - 1) as nat, f2);
        lemma_tree_step_mono(shapes, a, m, (f1 - 1) as nat, (f1 + f2 - 1) as nat);
        lemma_tree_reaches_mono(shapes, m, c, (f1 - 1 + f2) as nat, (f1 + f2 - 1) as nat);
        assert(via_node(m) && tree_step(shapes, a, m, (f1 + f2 - 1) as nat) && tree_reaches(
            shapes,
            m,
            c,
            (f1 + f2 - 1) as nat,
        ));
    }
}

proof fn lemma_reaches_tree(shapes: Seq<DefShape>, a: NodeView, b: NodeView, f: nat)
    requires
        reaches(shapes, a, b, f),
    ensures
        tree_reaches(shapes, a, b, f),
    decreases f,
{
    if a != b {
        let m = choose|m: NodeView|
            (#[trigger] via_node(m)) && head_step(shapes, a, m, (f - 1) as nat) && reaches(
                shapes,
                m,
                b,
                (f - 1) as nat,
            );
        lemma_reaches_tree(shapes, m, b, (f - 1) as nat);
        assert(tree_step(shapes, a, m, (f - 1) as nat));
        assert(via_node(m) && tree_step(shapes, a, m, (f - 1) as nat) && tree_reaches(
            shapes,
            m,
            b,
            (f - 1) as nat,
        ));
    }
}

proof fn lemma_tree_step_in_child(
    shapes: Seq<DefShape>,
    h: Atom,
    pre: Seq<NodeView>,
    post: Seq<NodeView>,
    c1: NodeView,
    c2: NodeView,
    f: nat,
)
    requires
        tree_step(shapes, c1, c2, f),
    ensures
        tree_step(
            shapes,
            NodeView { head: h, stack: pre + seq![c1] + post },
            NodeView { head: h, stack: pre + seq![c2] + post },
            f,
        ),
{
    let p1 = NodeView { head: h, stack: pre + seq![c1] + post };
    let p2 = NodeView { head: h, stack: pre + seq![c2] + post };
    let k = pre.len() as int;
    assert(p1.stack[k] == c1);
    assert(p2.stack[k] == c2);
    assert(forall|j: int| 0 <= j < p1.stack.len() && j != k ==> p1.stack[j] == p2.stack[j]);
    assert(0 <= k < p1.stack.len() && tree_step(shapes, p1.stack[k], p2.stack[k], f) && (forall|
        j: int,
    | 0 <= j < p1.stack.len() && j != k ==> p1.stack[j] == p2.stack[j]));
}

proof fn lemma_tree_reaches_in_child(
    shapes: Seq<DefShape>,
    h: Atom,
    pre: Seq<NodeView>,
    post: Seq<NodeView>,
    c1: NodeView,
    c2: NodeView,
    f: nat,
)
    requires
        tree_reaches(shapes, c1, c2, f),
    ensures
        tree_reaches(
            shapes,
            NodeView { head: h, stack: pre + seq![c1] + post },
            NodeView { head: h, stack: pre + seq![c2] + post },
            f,
        ),
    decreases f,
{
    if c1 != c2 {
        let m = choose|m: NodeView|
            (#[trigger] via_node(m)) && tree_step(shapes, c1, m, (f - 1) as nat) && tree_reaches(
                shapes,
                m,
                c2,
                (f - 1) as nat,
            );
        lemma_tree_step_in_child(shapes, h, pre, post, c1, m, (f - 1) as nat);
        lemma_tree_reaches_in_child(shapes, h, pre, post, m, c2, (f - 1) as nat);
        let pm = NodeView { head: h, stack: pre + seq![m] + post };
        assert(via_node(pm) && tree_step(
            shapes,
            NodeView { head: h, stack: pre + seq![c1] + post },
            pm,
            (f - 1) as nat,
        ) && tree_reaches(
            shapes,
            pm,
            NodeView { head: h, stack: pre + seq![c2] + post },
            (f - 1) as nat,
        ));
    }
}

proof fn lemma_stack_evolved_prefix(
    shapes: Seq<DefShape>,
    a: NodeView,
    b: NodeView,
    g: nat,
    m: int,
)
    requires
        a.head == b.head,
        a.stack.len() == b.stack.len(),
        forall|j: int| #![trigger b.stack[j]]
            0 <= j < a.stack.len() ==> tree_reaches(shapes, a.stack[j], b.stack[j], g),
        0 <= m <= a.stack.len(),
    ensures
        tree_reaches(
            shapes,
            a,
            NodeView { head: a.head, stack: b.stack.take(m) + a.stack.skip(m) },
            (m * g) as nat,
        ),
    decreases m,
{
    if m == 0 {
        assert(b.stack.take(0) + a.stack.skip(0) =~= a.stack);
    } else {
        lemma_stack_evolved_prefix(shapes, a, b, g, m - 1);
        let prev = NodeView { head: a.head, stack: b.stack.take(m - 1) + a.stack.skip(m - 1) };
        let next = NodeView { head: a.head, stack: b.stack.take(m) + a.stack.skip(m) };
        let pre = b.stack.take(m - 1);
        let post = a.stack.skip(m);
        assert(prev.stack =~= pre + seq![a.stack[m - 1]] + post);
        assert(next.stack =~= pre + seq![b.stack[m - 1]] + post);
        lemma_tree_reaches_in_child(
            shapes,
            a.head,
            pre,
            post,
            a.stack[m - 1],
            b.stack[m - 1],
            g,
        );
        lemma_tree_reaches_trans(
            shapes,
            a,
            prev,
            next,
            ((m - 1) * g) as nat,
            g,
        );
        assert(((m - 1) * g + g) as nat == (m * g) as nat) by (nonlinear_arith);
    }
}

proof fn lemma_stack_evolved(shapes: Seq<DefShape>, a: NodeView, b: NodeView, g: nat)
    requires
        a.head == b.head,
        a.stack.len() == b.stack.len(),
        forall|j: int| #![trigger b.stack[j]]
            0 <= j < a.stack.len() ==> tree_reaches(shapes, a.stack[j], b.stack[j], g),
    ensures
        tree_reaches(shapes, a, b, (a.stack.len() * g) as nat),
{
    lemma_stack_evolved_prefix(shapes, a, b, g, a.stack.len() as int);
    let m = a.stack.len() as int;
    assert(b.stack.take(m) + a.stack.skip(m) =~= b.stack);
    assert(NodeView { head: a.head, stack: b.stack.take(m) + a.stack.skip(m) } == b);
}

/// One partly rebuilt node on the way to normal form: the blocked head,
/// the arguments already normalized, and the arguments still waiting.
struct NfFrame {
    head: Atom,
    done: Vec<Node>,
    rest: VecDeque<Node>,
}

spec fn nf_frame_comp(fr: NfFrame, x: NodeView) -> NodeView {
    NodeView { head: fr.head, stack: nodes_view(fr.done@) + seq![x] + nodes_view(fr.rest@) }
}

spec fn nf_zip_comp(frames: Seq<NfFrame>, x: NodeView) -> NodeView
    decreases frames.len(),
{
    if frames.len() == 0 {
        x
    } else {
        nf_zip_comp(frames.drop_last(), nf_frame_comp(frames.last(), x))
    }
}

spec fn nf_frame_ok(shapes: Seq<DefShape>, fr: NfFrame) -> bool {
    &&& atom_wf(fr.head, shapes.len() as nat)
    &&& (match fr.head {
        Atom::Prim(_) => true,
        Atom::Sc(i) => fr.done@.len() + 1 + fr.rest@.len() < shapes[i as int].params,
    })
    &&& (forall|j: int|
        0 <= j < fr.done@.len() ==> node_nf(shapes, node_view(#[trigger] fr.done@[j])))
    &&& (forall|j: int|
        0 <= j < fr.done@.len() ==> nodeview_wf(
            node_view(#[trigger] fr.done@[j]),
            shapes.len() as nat,
        ))
    &&& (forall|j: int|
        0 <= j < fr.rest@.len() ==> nodeview_wf(
            node_view(#[trigger] fr.rest@[j]),
            shapes.len() as nat,
        ))
}

proof fn lemma_nf_zip_reaches(
    shapes: Seq<DefShape>,
    frames: Seq<NfFrame>,
    a: NodeView,
    b: NodeView,
    f: nat,
)
    requires
        tree_reaches(shapes, a, b, f),
    ensures
        tree_reaches(shapes, nf_zip_comp(frames, a), nf_zip_comp(frames, b), f),
    decreases frames.len(),
{
    if frames.len() > 0 {
        let fr = frames.last();
        lemma_tree_reaches_in_child(
            shapes,
            fr.head,
            nodes_view(fr.done@),
            nodes_view(fr.rest@),
            a,
            b,
            f,
        );
        lemma_nf_zip_reaches(
            shapes,
            frames.drop_last(),
            nf_frame_comp(fr, a),
            nf_frame_comp(fr, b),
            f,
        );
    }
}

proof fn lemma_nf_extend(
    shapes: Seq<DefShape>,
    base: NodeView,
    frames: Seq<NfFrame>,
    a: NodeView,
    b: NodeView,
)
    requires
        exists|f: nat| (#[trigger] via_fuel(f)) && tree_reaches(shapes, base, nf_zip_comp(frames, a), f),
        exists|g: nat| (#[trigger] via_fuel(g)) && tree_reaches(shapes, a, b, g),
    ensures
        exists|h: nat| (#[trigger] via_fuel(h)) && tree_reaches(shapes, base, nf_zip_comp(frames, b), h),
{
    let f = choose|f: nat|
        (#[trigger] via_fuel(f)) && tree_reaches(shapes, base, nf_zip_comp(frames, a), f);
    let g = choose|g: nat| (#[trigger] via_fuel(g)) && tree_reaches(shapes, a, b, g);
    lemma_nf_zip_reaches(shapes, frames, a, b, g);
    lemma_tree_reaches_trans(
        shapes,
        base,
        nf_zip_comp(frames, a),
        nf_zip_comp(frames, b),
        f,
        g,
    );
    assert(via_fuel((f + g) as nat) && tree_reaches(
        shapes,
        base,
        nf_zip_comp(frames, b),
        (f + g) as nat,
    ));
}


/// Rebuilds the node a normal-form walk was working on from its zipper:
/// each frame contributes its head, the arguments already normalized, the
/// node in hand, and the arguments still waiting.
fn reassemble(frames: Vec<NfFrame>, cur: Node, Ghost(shapes): Ghost<Seq<DefShape>>) -> (r: Node)
    requires
        forall|j: int| 0 <= j < frames@.len() ==> nf_frame_ok(shapes, #[trigger] frames@[j]),
        nodeview_wf(cur@, shapes.len() as nat),
    ensures
        r@ == nf_zip_comp(frames@, cur@),
        nodeview_wf(r@, shapes.len() as nat),
{
    let ghost oframes = frames@;
    let ghost ocur = cur@;
    let mut frames = frames;
    let mut cur = cur;
    while frames.len() > 0
        invariant
            forall|j: int| 0 <= j < frames@.len() ==> nf_frame_ok(shapes, #[trigger] frames@[j]),
            nodeview_wf(cur@, shapes.len() as nat),
            nf_zip_comp(frames@, cur@) == nf_zip_comp(oframes, ocur),
        decreases frames@.len(),
    {
        let ghost frames_pre = frames@;
        let fr = match frames.pop() {
            Some(fr) => fr,
            None => {
                proof {
                    assert(false);
                }
                vstd::pervasive::unreached()
            },
        };
        let ghost frsnap = fr;
        let ghost curv = cur@;
        let NfFrame { head, done, rest } = fr;
        let mut dvec = done;
        let mut st: VecDeque<Node> = VecDeque::new();
        let ghost dall = dvec@;
        let ghost taken = 0int;
        proof {
            assert(dall.skip(0) =~= dvec@);
            assert(st@ =~= Seq::<Node>::empty());
        }
        while dvec.len() > 0
            invariant
                0 <= taken <= dall.len(),
                taken + dvec@.len() == dall.len(),
                dall.skip(taken) =~= dvec@,
                st@ =~= dall.take(taken),
            decreases dvec@.len(),
        {
            let x = dvec.remove(0);
            st.push_back(x);
            proof {
                taken = taken + 1;
                assert(dall.skip(taken) =~= dvec@);
                assert(st@ =~= dall.take(taken));
            }
        }
        proof {
            assert(dall.take(taken) =~= dall);
            assert(st@ =~= dall);
        }
        st.push_back(cur);
        let mut restq = rest;
        let ghost rall = restq@;
        let ghost moved = 0int;
        proof {
            assert(rall.skip(0) =~= restq@);
            assert(st@ =~= dall + seq![st@[dall.len() as int]] + rall.take(0));
        }
        while restq.len() > 0
            invariant
                0 <= moved <= rall.len(),
                moved + restq@.len() == rall.len(),
                rall.skip(moved) =~= restq@,
                st@ =~= dall + seq![st@[dall.len() as int]] + rall.take(moved),
                st@.len() == dall.len() + 1 + moved,
                node_view(st@[dall.len() as int]) == curv,
            decreases restq@.len(),
        {
            let x = match restq.pop_front() {
                Some(x) => x,
                None => {
                    proof {
                        assert(false);
                    }
                    vstd::pervasive::unreached()
                },
            };
            st.push_back(x);
            proof {
                moved = moved + 1;
                assert(rall.skip(moved) =~= restq@);
                assert(st@ =~= dall + seq![st@[dall.len() as int]] + rall.take(moved));
            }
        }
        proof {
            assert(rall.take(moved) =~= rall);
        }
        let newcur = Node { head, stack: st };
        proof {
            lemma_node_view_parts(newcur);
            assert(dall == frsnap.done@);
            assert(rall == frsnap.rest@);
            assert forall|j: int|
                0 <= j < newcur@.stack.len() implies #[trigger] newcur@.stack[j] == (nodes_view(
                dall,
            ) + seq![curv] + nodes_view(rall))[j] by {
                assert(newcur@.stack[j] == node_view(st@[j]));
                if j < dall.len() {
                    assert(st@[j] == dall[j]);
                } else if j == dall.len() {
                } else {
                    assert(st@[j] == rall[j - dall.len() - 1]);
                }
            }
            assert(newcur@.stack =~= nodes_view(frsnap.done@) + seq![curv] + nodes_view(
                frsnap.rest@,
            ));
            assert(newcur@ == nf_frame_comp(frsnap, curv));
            assert(frames@ =~= frames_pre.drop_last());
            assert(nf_zip_comp(frames@, newcur@) == nf_zip_comp(frames_pre, curv));
            assert(nodeview_wf(newcur@, shapes.len() as nat)) by {
                assert(nf_frame_ok(shapes, frsnap));
                assert forall|j: int| 0 <= j < newcur@.stack.len() implies nodeview_wf(
                    #[trigger] newcur@.stack[j],
                    shapes.len() as nat,
                ) by {
                    if j < frsnap.done@.len() {
                        assert(newcur@.stack[j] == node_view(frsnap.done@[j]));
                    } else if j == frsnap.done@.len() {
                        assert(newcur@.stack[j] == curv);
                    } else {
                        assert(newcur@.stack[j] == node_view(
                            frsnap.rest@[j - frsnap.done@.len() - 1],
                        ));
                    }
                }
            }
        }
        cur = newcur;
    }
    proof {
        assert(nf_zip_comp(frames@, cur@) == cur@);
    }
    cur
}

impl<P: Primop> ScPrimProgram<P> {
    /// Whether `n` is already in normal form under this program.
    fn check_nf(&self, n: &Node) -> (r: bool)
        ensures
            r == node_nf(prog_shape(*self), n@),
        decreases *n,
    {
        let ghost shapes = prog_shape(*self);
        proof {
            lemma_node_view_parts(*n);
        }
        let blocked = match n.head {
            Atom::Prim(_) => true,
            Atom::Sc(i) => {
                if i < self.defs.len() {
                    proof {
                        assert(shapes[i as int] == def_shape(self.defs@[i as int]));
                    }
                    n.stack.len() < self.defs[i].params
                } else {
                    true
                }
            },
        };
        if !blocked {
            return false;
        }
        let len = n.stack.len();
        let mut k: usize = 0;
        while k < len
            invariant
                k <= len,
                len == n.stack@.len(),
                shapes == prog_shape(*self),
                head_blocked(shapes, n@),
                forall|j: int| 0 <= j < k ==> node_nf(shapes, n@.stack[j]),
            decreases len - k,
        {
            proof {
                lemma_node_view_parts(*n);
                assert(decreases_to!(*n => n.stack));
                assert(decreases_to!(n.stack => n.stack[k as int]));
            }
            if !self.check_nf(&n.stack[k]) {
                proof {
                    assert(n@.stack[k as int] == node_view(n.stack@[k as int]));
                }
                return false;
            }
            proof {
                assert(n@.stack[k as int] == node_view(n.stack@[k as int]));
            }
            k = k + 1;
        }
        true
    }

    /// Reduces `root` to normal form: first to weak head normal form, then
    /// every pending argument in turn, walking the tree with an explicit
    /// zipper instead of recursion.  On an error the partly normalized
    /// tree is reassembled and left in `root`.
    pub fn reduce_to_nf(&mut self, root: &mut Node, fuel: &mut u64) -> (r: Result<(), Error>)
        requires
            shapes_wf(prog_shape(*old(self))),
            nodeview_wf(old(root)@, old(self).defs@.len() as nat),
        ensures
            prog_shape(*final(self)) == prog_shape(*old(self)),
            final(self).defs@.len() == old(self).defs@.len(),
            *final(fuel) <= *old(fuel),
            nodeview_wf(final(root)@, old(self).defs@.len() as nat),
            (r matches Ok(u) ==> {
                &&& node_nf(prog_shape(*old(self)), final(root)@)
                &&& exists|f: nat|
                    (#[trigger] via_fuel(f)) && tree_reaches(
                        prog_shape(*old(self)),
                        old(root)@,
                        final(root)@,
                        f,
                    )
            }),
            (r matches Err(e) ==> e@ is UnexpectedPrimApp || e@ is PrimopFailure
                || e@ is OutOfFuel),
            (r matches Err(e) && e@ is OutOfFuel ==> *final(fuel) == 0),
            node_nf(prog_shape(*old(self)), old(root)@) ==> {
                &&& r matches Ok(u)
                &&& final(root)@ == old(root)@
                &&& *final(fuel) == *old(fuel)
            },
            (match r {
                Err(e) => {
                    &&& (pure_shapes(prog_shape(*old(self))) ==> e@ is OutOfFuel)
                    &&& (e@ matches ErrorView::UnexpectedPrimApp { prim_name }
                        ==> stuck_prim_witness(prog_shape(*old(self)), prim_name))
                    &&& (e@ matches ErrorView::PrimopFailure { def_name } ==> failed_prim_witness(
                        prog_shape(*old(self)),
                        def_name,
                    ))
                    &&& (exists|f: nat|
                        (#[trigger] via_fuel(f)) && tree_reaches(
                            prog_shape(*old(self)),
                            old(root)@,
                            final(root)@,
                            f,
                        ))
                },
                Ok(u) => true,
            }),
    {
        let ghost shapes = prog_shape(*old(self));
        let ghost rootv = old(root)@;
        let n_defs = self.defs.len();
        if self.check_nf(root) {
            proof {
                assert(via_fuel(0nat) && tree_reaches(shapes, rootv, rootv, 0nat));
            }
            return Ok(());
        }
        let mut cur = Node { head: Atom::Prim(0), stack: VecDeque::new() };
        core::mem::swap(root, &mut cur);
        proof {
            lemma_node_view_parts(*root);
            assert(root@.stack =~= Seq::<NodeView>::empty());
            assert(cur@ == rootv);
            assert(via_fuel(0nat) && tree_reaches(shapes, rootv, rootv, 0nat));
        }
        let mut frames: Vec<NfFrame> = Vec::new();
        let mut done_mode = false;
        loop
            invariant
                shapes == prog_shape(*old(self)),
                prog_shape(*self) == shapes,
                self.defs@.len() == n_defs,
                n_defs == old(self).defs@.len(),
                shapes.len() == n_defs,
                shapes_wf(shapes),
                rootv == old(root)@,
                !node_nf(shapes, rootv),
                nodeview_wf(cur@, n_defs as nat),
                nodeview_wf(root@, n_defs as nat),
                forall|j: int| 0 <= j < frames@.len() ==> nf_frame_ok(shapes, #[trigger] frames@[j]),
                done_mode ==> node_nf(shapes, cur@),
                exists|f: nat|
                    (#[trigger] via_fuel(f)) && tree_reaches(
                        shapes,
                        rootv,
                        nf_zip_comp(frames@, cur@),
                        f,
                    ),
                *fuel <= *old(fuel),
            decreases *fuel,
        {
            if *fuel == 0 {
                // put the partly normalized tree back together before
                // reporting the exhausted budget
                let ghost fsnap = frames@;
                let ghost csnap = cur@;
                let rebuilt = reassemble(frames, cur, Ghost(shapes));
                *root = rebuilt;
                proof {
                    assert(root@ == nf_zip_comp(fsnap, csnap));
                }
                return Err(Error::OutOfFuel);
            }
            *fuel = *fuel - 1;
            if !done_mode {
                let ghost curv_pre = cur@;
                match self.reduce_to_whnf(&mut cur, fuel) {
                    Ok(u) => {},
                    Err(e) => {
                        proof {
                            lemma_nf_extend(shapes, rootv, frames@, curv_pre, cur@);
                        }
                        let ghost fsnap = frames@;
                        let ghost csnap = cur@;
                        let rebuilt = reassemble(frames, cur, Ghost(shapes));
                        *root = rebuilt;
                        proof {
                            assert(root@ == nf_zip_comp(fsnap, csnap));
                        }
                        return Err(e);
                    },
                }
                proof {
                    let fr = choose|f: nat|
                        (#[trigger] via_fuel(f)) && reaches(shapes, curv_pre, cur@, f);
                    lemma_reaches_tree(shapes, curv_pre, cur@, fr);
                    assert(via_fuel(fr) && tree_reaches(shapes, curv_pre, cur@, fr));
                    lemma_nf_extend(shapes, rootv, frames@, curv_pre, cur@);
                }
                let ghost curv = cur@;
                proof {
                    lemma_node_view_parts(cur);
                }
                if cur.stack.len() == 0 {
                    done_mode = true;
                    proof {
                        assert(node_nf(shapes, cur@));
                    }
                } else {
                    // descend into the first pending argument
                    let Node { head, stack } = cur;
                    let mut rest = stack;
                    let first = match rest.pop_front() {
                        Some(a) => a,
                        None => {
                            proof {
                                assert(false);
                            }
                            vstd::pervasive::unreached()
                        },
                    };
                    let newframe = NfFrame { head, done: Vec::new(), rest };
                    proof {
                        assert(nodes_view(newframe.done@) =~= Seq::<NodeView>::empty());
                        assert(nodes_view(newframe.rest@) =~= curv.stack.skip(1));
                        assert(node_view(first) == curv.stack[0]);
                        assert(nf_frame_comp(newframe, node_view(first)).stack =~= curv.stack);
                        assert(nf_frame_comp(newframe, node_view(first)) == curv);
                        assert(nf_frame_ok(shapes, newframe)) by {
                            assert(head_blocked(shapes, curv));
                            assert(newframe.done@.len() + 1 + newframe.rest@.len()
                                == curv.stack.len());
                        }
                        assert(nodeview_wf(node_view(first), n_defs as nat));
                    }
                    let ghost frames_pre = frames@;
                    frames.push(newframe);
                    proof {
                        assert(frames@ =~= frames_pre.push(newframe));
                        assert(frames@.drop_last() =~= frames_pre);
                        assert(nf_zip_comp(frames@, node_view(first)) == nf_zip_comp(
                            frames_pre,
                            curv,
                        ));
                    }
                    cur = first;
                }
            } else {
                if frames.len() == 0 {
                    let ghost curv = cur@;
                    *root = cur;
                    proof {
                        assert(nf_zip_comp(frames@, curv) == curv);
                    }
                    return Ok(());
                }
                let ghost frames_pre = frames@;
                let mut fr = match frames.pop() {
                    Some(fr) => fr,
                    None => {
                        proof {
                            assert(false);
                        }
                        vstd::pervasive::unreached()
                    },
                };
                let ghost frsnap = fr;
                let ghost curv = cur@;
                let ghost done_pre = fr.done@;
                if fr.rest.len() > 0 {
                    fr.done.push(cur);
                    let ghost rest_pre = fr.rest@;
                    let nxt = match fr.rest.pop_front() {
                        Some(a) => a,
                        None => {
                            proof {
                                assert(false);
                            }
                            vstd::pervasive::unreached()
                        },
                    };
                    proof {
                        assert(nodes_view(fr.done@) =~= nodes_view(done_pre).push(curv));
                        assert(nodes_view(fr.rest@) =~= nodes_view(rest_pre).skip(1));
                        assert(node_view(nxt) == nodes_view(rest_pre)[0]);
                        assert(nf_frame_comp(fr, node_view(nxt)).stack =~= nf_frame_comp(
                            frsnap,
                            curv,
                        ).stack);
                        assert(nf_frame_comp(fr, node_view(nxt)) == nf_frame_comp(frsnap, curv));
                        assert(nf_frame_ok(shapes, fr)) by {
                            assert(nf_frame_ok(shapes, frsnap));
                            assert forall|j: int| 0 <= j < fr.done@.len() implies node_nf(
                                shapes,
                                node_view(#[trigger] fr.done@[j]),
                            ) && nodeview_wf(node_view(fr.done@[j]), shapes.len() as nat) by {
                                if j < done_pre.len() {
                                    assert(fr.done@[j] == frsnap.done@[j]);
                                } else {
                                    assert(node_view(fr.done@[j]) == curv);
                                }
                            }
                            assert forall|j: int| 0 <= j < fr.rest@.len() implies nodeview_wf(
                                node_view(#[trigger] fr.rest@[j]),
                                shapes.len() as nat,
                            ) by {
                                assert(fr.rest@[j] == rest_pre[j + 1]);
                            }
                        }
                        assert(nodeview_wf(node_view(nxt), n_defs as nat)) by {
                            assert(nf_frame_ok(shapes, frsnap));
                            assert(node_view(nxt) == node_view(rest_pre[0]));
                        }
                    }
                    let ghost frames_mid = frames@;
                    frames.push(fr);
                    proof {
                        assert(frames@ =~= frames_mid.push(fr));
                        assert(frames@.drop_last() =~= frames_mid);
                        assert(frames_mid =~= frames_pre.drop_last());
                        assert(nf_zip_comp(frames@, node_view(nxt)) == nf_zip_comp(
                            frames_pre,
                            curv,
                        ));
                    }
                    cur = nxt;
                    done_mode = false;
                } else {
                    // all arguments of this frame are normal: rebuild it
                    let NfFrame { head, done, rest: _ } = fr;
                    proof {
                        assert(done@ == done_pre);
                    }
                    let mut dvec = done;
                    let mut st: VecDeque<Node> = VecDeque::new();
                    let ghost dall = dvec@;
                    let ghost taken = 0int;
                    proof {
                        assert(dall.skip(0) =~= dvec@);
                        assert(st@ =~= Seq::<Node>::empty());
                    }
                    while dvec.len() > 0
                        invariant
                            0 <= taken <= dall.len(),
                            taken + dvec@.len() == dall.len(),
                            dall.skip(taken) =~= dvec@,
                            st@ =~= dall.take(taken),
                        decreases dvec@.len(),
                    {
                        let x = dvec.remove(0);
                        st.push_back(x);
                        proof {
                            taken = taken + 1;
                            assert(dall.skip(taken) =~= dvec@);
                            assert(st@ =~= dall.take(taken));
                        }
                    }
                    proof {
                        assert(dall.take(taken) =~= dall);
                        assert(st@ =~= dall);
                    }
                    st.push_back(cur);
                    let newcur = Node { head, stack: st };
                    proof {
                        lemma_node_view_parts(newcur);
                        assert(newcur@.stack =~= nodes_view(dall).push(curv));
                        assert(nodes_view(frsnap.rest@) =~= Seq::<NodeView>::empty());
                        assert(nf_frame_comp(frsnap, curv).stack =~= nodes_view(dall).push(curv));
                        assert(newcur@ == nf_frame_comp(frsnap, curv));
                        assert(frames@ =~= frames_pre.drop_last());
                        assert(node_nf(shapes, newcur@)) by {
                            assert(nf_frame_ok(shapes, frsnap));
                            assert(head_blocked(shapes, newcur@)) by {
                                assert(newcur@.stack.len() == dall.len() + 1);
                            }
                            assert forall|j: int| 0 <= j < newcur@.stack.len() implies node_nf(
                                shapes,
                                #[trigger] newcur@.stack[j],
                            ) by {
                                if j < dall.len() {
                                    assert(newcur@.stack[j] == node_view(dall[j]));
                                } else {
                                    assert(newcur@.stack[j] == curv);
                                }
                            }
                        }
                        assert(nodeview_wf(newcur@, n_defs as nat)) by {
                            assert(nf_frame_ok(shapes, frsnap));
                            assert forall|j: int| 0 <= j < newcur@.stack.len() implies nodeview_wf(
                                #[trigger] newcur@.stack[j],
                                n_defs as nat,
                            ) by {
                                if j < dall.len() {
                                    assert(newcur@.stack[j] == node_view(dall[j]));
                                } else {
                                    assert(newcur@.stack[j] == curv);
                                }
                            }
                        }
                    }
                    cur = newcur;
                }
            }
        }
    }
}


/// Whether every definition has an ordinary body, so that reduction
/// involves no host callback.
pub open spec fn pure_shapes(shapes: Seq<DefShape>) -> bool {
    forall|i: int| 0 <= i < shapes.len() ==> (#[trigger] shapes[i]).body is Body
}

/// With pure definitions, head reduction is deterministic: a head step is
/// always the beta step, so two head steps from one node agree.
pub proof fn lemma_head_step_deterministic(
    shapes: Seq<DefShape>,
    n: NodeView,
    a: NodeView,
    b: NodeView,
    f1: nat,
    f2: nat,
)
    requires
        pure_shapes(shapes),
        head_step(shapes, n, a, f1),
        head_step(shapes, n, b, f2),
    ensures
        a == b,
{
}

/// With pure definitions, weak head normal forms are unique: if one node
/// head-reduces to two blocked nodes, they are the same node.  This
/// settles determinism at the weak-head level only; uniqueness of full
/// normal forms under steps anywhere in the tree would need a confluence
/// argument and is not proved here.
pub proof fn lemma_whnf_unique(
    shapes: Seq<DefShape>,
    n: NodeView,
    a: NodeView,
    b: NodeView,
    f1: nat,
    f2: nat,
)
    requires
        pure_shapes(shapes),
        reaches(shapes, n, a, f1),
        head_blocked(shapes, a),
        reaches(shapes, n, b, f2),
        head_blocked(shapes, b),
    ensures
        a == b,
    decreases f1,
{
    if n == a {
        if n != b {
            let m = choose|m: NodeView|
                (#[trigger] via_node(m)) && head_step(shapes, n, m, (f2 - 1) as nat)
                    && reaches(shapes, m, b, (f2 - 1) as nat);
            assert(head_redex(shapes, n));
            assert(false);
        }
    } else {
        let m1 = choose|m: NodeView|
            (#[trigger] via_node(m)) && head_step(shapes, n, m, (f1 - 1) as nat) && reaches(
                shapes,
                m,
                a,
                (f1 - 1) as nat,
            );
        if n == b {
            assert(head_redex(shapes, n));
            assert(false);
        }
        let m2 = choose|m: NodeView|
            (#[trigger] via_node(m)) && head_step(shapes, n, m, (f2 - 1) as nat) && reaches(
                shapes,
                m,
                b,
                (f2 - 1) as nat,
            );
        lemma_head_step_deterministic(shapes, n, m1, m2, (f1 - 1) as nat, (f2 - 1) as nat);
        lemma_whnf_unique(shapes, m1, a, b, (f1 - 1) as nat, (f2 - 1) as nat);
    }
}


/// Strictness of primitives: a primitive head step happens only once every
/// consumed argument has itself been head-reduced to a bare integer, and
/// exactly the first `params` arguments are consumed.
pub proof fn lemma_primitive_strictness(
    shapes: Seq<DefShape>,
    n1: NodeView,
    n2: NodeView,
    f: nat,
    i: usize,
)
    requires
        head_step(shapes, n1, n2, f),
        n1.head == Atom::Sc(i),
        shapes[i as int].body is Prim,
    ensures
        n2.stack == n1.stack.skip(shapes[i as int].params as int),
        exists|vals: Seq<i64>|
            vals.len() == shapes[i as int].params && (forall|k: int|
                0 <= k < shapes[i as int].params ==> reaches(
                    shapes,
                    n1.stack[k],
                    bare(#[trigger] vals[k]),
                    f,
                )),
{
}

} // verus!
