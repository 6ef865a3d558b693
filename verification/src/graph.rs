//! The combinator graph: one node per expression of a program, shared where
//! the program shares, with reachability and redex marks.

use vstd::prelude::*;
use crate::arena::graph_in;
use crate::arena::graph_nodes;
use crate::arena::graph_out;
use crate::arena::Link;
use petgraph::stable_graph::StableGraph;
use crate::comb::Combinator;
use crate::expr::Expr;
use crate::expr::Index;
use crate::expr::ProgramView;
use crate::expr::Term;

verus! {

/// A node of a combinator graph.
#[derive(Debug)]
pub struct CombNode<T> {
    /// The expression the node stands for.
    pub expr: Expr,
    /// Whether the last marking found a path from the root to the node.
    pub reachable: bool,
    /// The combinator that can fire at this node, if one was found.
    pub redex: Option<Combinator>,
    /// Whatever else is known of the node.
    pub meta: T,
}

impl<T: Clone> Clone for CombNode<T> {
    fn clone(&self) -> (node: CombNode<T>)
        ensures
            node.expr@ == self.expr@,
            node.reachable == self.reachable,
            node.redex == self.redex,
            cloned(self.meta, node.meta),
    {
        CombNode {
            expr: self.expr.clone(),
            reachable: self.reachable,
            redex: self.redex,
            meta: self.meta.clone(),
        }
    }
}

impl<T> CombNode<T> {
    /// The same node with its `meta` replaced by what `f` makes of it.
    pub fn map<U, F: FnOnce(&T) -> U>(&self, f: F) -> (node: CombNode<U>)
        requires
            f.requires((&self.meta,)),
        ensures
            node.expr@ == self.expr@,
            node.reachable == self.reachable,
            node.redex == self.redex,
            f.ensures((&self.meta,), node.meta),
    {
        CombNode {
            expr: self.expr.clone(),
            reachable: self.reachable,
            redex: self.redex,
            meta: f(&self.meta),
        }
    }
}

/// The kinds of edges.
#[derive(Debug, Clone, Copy, PartialEq, Eq, Structural)]
pub enum CombEdge {
    /// From an application to its function.
    Fun,
    /// From an application to its argument.
    Arg,
    /// From a reference to the definition it names.
    Ind,
    /// From an array to one of its elements.
    Arr,
}

/// The integer that identifies nodes and edges.
pub type CombIx = u32;

/// The edges are directed.
pub type CombTy = petgraph::Directed;

/// A combinator graph and its root.
#[verifier::reject_recursive_types(T)]
pub struct CombGraph<T> {
    /// The nodes and edges.
    pub g: StableGraph<CombNode<T>, CombEdge, CombTy, CombIx>,
    /// The node of the program's root expression.
    pub root: usize,
}

/// What a node's outgoing edges must look like, given its expression: an
/// application has its argument edge and its function edge, an array one
/// element edge for each element it declares, a reference one indirection,
/// and any other node none.
pub open spec fn shaped(t: Term, out: Seq<Link>) -> bool {
    match t {
        Term::App(_, _, _) => out.len() == 2 && out[0].1 == CombEdge::Arg && out[1].1
            == CombEdge::Fun,
        Term::Array(n, _) => out.len() == n && forall|k: int|
            0 <= k < out.len() ==> (#[trigger] out[k]).1 == CombEdge::Arr,
        Term::Ref(_) => out.len() == 1 && out[0].1 == CombEdge::Ind,
        _ => out.len() == 0,
    }
}

/// Whether `adj` gives every node of `dom`, and no other, its links, each to
/// a node of `dom`.
pub open spec fn linked(adj: Map<usize, Seq<Link>>, dom: Set<usize>) -> bool {
    &&& adj.dom() == dom
    &&& forall|n: usize, k: int|
        dom.contains(n) && 0 <= k < adj[n].len() ==> dom.contains((#[trigger] adj[n][k]).0)
}

/// Whether the incoming edges are the outgoing edges, seen from their other
/// end: `a` has an edge of some kind to `b` if and only if `b` has one of
/// that kind from `a`.
pub open spec fn mirrored(out: Map<usize, Seq<Link>>, inc: Map<usize, Seq<Link>>) -> bool {
    forall|a: usize, b: usize, kind: CombEdge|
        #![trigger out[a].contains((b, kind))]
        #![trigger inc[b].contains((a, kind))]
        (out.dom().contains(a) && out[a].contains((b, kind))) <==> (inc.dom().contains(b)
            && inc[b].contains((a, kind)))
}

/// What a sequence holds with one more element in front.
pub proof fn lemma_prepend_contains<A>(x: A, s: Seq<A>, y: A)
    ensures
        (seq![x] + s).contains(y) <==> y == x || s.contains(y),
{
    let longer = seq![x] + s;
    if longer.contains(y) {
        let i = choose|i: int| 0 <= i < longer.len() && longer[i] == y;
        if i > 0 {
            assert(s[i - 1] == y);
        }
    }
    if s.contains(y) {
        let i = choose|i: int| 0 <= i < s.len() && s[i] == y;
        assert(longer[i + 1] == y);
    }
    if y == x {
        assert(longer[0] == y);
    }
}

/// What a filtered sequence holds: what the sequence holds and the filter
/// lets pass.
pub proof fn lemma_filter_holds<A>(s: Seq<A>, pred: spec_fn(A) -> bool, x: A)
    ensures
        s.filter(pred).contains(x) <==> s.contains(x) && pred(x),
{
    if s.filter(pred).contains(x) {
        s.lemma_filter_contains_rev(pred, x);
        let i = choose|i: int| 0 <= i < s.filter(pred).len() && s.filter(pred)[i] == x;
        s.lemma_filter_pred(pred, i);
    }
    if s.contains(x) && pred(x) {
        let i = choose|i: int| 0 <= i < s.len() && s[i] == x;
        s.lemma_filter_contains(pred, i);
    }
}

/// Where the edges of an expression go, by position in the body, in the
/// order in which the graph walks them: the latest added first.
pub open spec fn aims(t: Term, defs: Seq<Index>) -> Seq<(Index, CombEdge)> {
    match t {
        Term::App(f, _, a) => seq![(a, CombEdge::Arg), (f, CombEdge::Fun)],
        Term::Array(_, v) => Seq::new(v.len(), |k: int| (v[v.len() - 1 - k], CombEdge::Arr)),
        Term::Ref(r) => seq![(defs[r as int], CombEdge::Ind)],
        _ => Seq::empty(),
    }
}

/// Whether the links `links` are the edges `aims`: of the same kinds, each to
/// the node that stands for the expression aimed at.
pub open spec fn follows(
    links: Seq<Link>,
    aims: Seq<(Index, CombEdge)>,
    nodes: Map<usize, CombNode<Index>>,
) -> bool {
    &&& links.len() == aims.len()
    &&& forall|k: int|
        0 <= k < links.len() ==> {
            &&& (#[trigger] links[k]).1 == aims[k].1
            &&& nodes.dom().contains(links[k].0)
            &&& nodes[links[k].0].meta == aims[k].0
        }
}

/// Whether some node stands for the expression at position `j`.
pub open spec fn stands(nodes: Map<usize, CombNode<Index>>, j: int) -> bool {
    exists|n: usize| #[trigger] nodes.dom().contains(n) && nodes[n].meta == j
}

impl CombGraph<Index> {
    /// The nodes, by identifier.
    pub open spec fn nodes(&self) -> Map<usize, CombNode<Index>> {
        graph_nodes(self.g)
    }

    /// The outgoing edges of each node.
    pub open spec fn out(&self) -> Map<usize, Seq<Link>> {
        graph_out(self.g)
    }

    /// The incoming edges of each node.
    pub open spec fn inc(&self) -> Map<usize, Seq<Link>> {
        graph_in(self.g)
    }

    /// The invariant of a combinator graph: finitely many nodes, the root
    /// among them, edges between them only, each listed at both its ends,
    /// and every node with the outgoing edges that its expression calls for.
    pub open spec fn wf(&self) -> bool {
        &&& self.nodes().dom().finite()
        &&& self.nodes().dom().contains(self.root)
        &&& linked(self.out(), self.nodes().dom())
        &&& linked(self.inc(), self.nodes().dom())
        &&& mirrored(self.out(), self.inc())
        &&& forall|n: usize| #[trigger]
            self.nodes().dom().contains(n) ==> shaped(self.nodes()[n].expr@, self.out()[n])
    }

    /// Whether the graph is that of the program `p`: `meta` maps the nodes one
    /// to one onto the positions of the body, each node carries the expression
    /// at its position, and its edges lead to the nodes of the expression's
    /// children; the root stands for the program's root.
    pub open spec fn represents(&self, p: ProgramView) -> bool {
        &&& forall|n: usize| #[trigger]
            self.nodes().dom().contains(n) ==> {
                &&& self.nodes()[n].meta < p.body.len()
                &&& self.nodes()[n].expr@ == p.body[self.nodes()[n].meta as int]
                &&& follows(
                    self.out()[n],
                    aims(p.body[self.nodes()[n].meta as int], p.defs),
                    self.nodes(),
                )
            }
        &&& forall|n: usize, m: usize|
            self.nodes().dom().contains(n) && self.nodes().dom().contains(m) && (
            #[trigger] self.nodes()[n]).meta == (#[trigger] self.nodes()[m]).meta ==> n == m
        &&& forall|j: int| 0 <= j < p.body.len() ==> #[trigger] stands(self.nodes(), j)
        &&& self.nodes()[self.root].meta == p.root
    }
}

/// Sharing: in the graph of a program, edges that aim at the same
/// expression lead to the same node, whether they are indirections of
/// references, function or argument edges of applications, or element edges
/// of arrays.
pub proof fn lemma_sharing(graph: CombGraph<Index>, p: ProgramView, n: usize, j: int, m: usize, k: int)
    requires
        graph.represents(p),
        graph.nodes().dom().contains(n),
        graph.nodes().dom().contains(m),
        0 <= j < graph.out()[n].len(),
        0 <= k < graph.out()[m].len(),
        aims(p.body[graph.nodes()[n].meta as int], p.defs)[j].0 == aims(
            p.body[graph.nodes()[m].meta as int],
            p.defs,
        )[k].0,
    ensures
        graph.out()[n][j].0 == graph.out()[m][k].0,
{
    let nodes = graph.nodes();
    let x = graph.out()[n][j];
    let y = graph.out()[m][k];
    assert(follows(graph.out()[n], aims(p.body[nodes[n].meta as int], p.defs), nodes));
    assert(follows(graph.out()[m], aims(p.body[nodes[m].meta as int], p.defs), nodes));
    assert(nodes[x.0].meta == nodes[y.0].meta);
}

} // verus!
