//! Graph lowering: from the flat program to its graph, one node for each
//! expression, in one pass over the body.

use vstd::prelude::*;
use crate::arena::graph_edge_count;
use crate::arena::graph_in;
use crate::arena::graph_nodes;
use crate::arena::graph_out;
use crate::arena::store_add_edge;
use crate::arena::store_add_node;
use crate::arena::store_new;
use crate::arena::store_node_mut;
use crate::arena::Link;
use crate::arena::Store;
use crate::expr::total_degree;
use crate::expr::Expr;
use crate::expr::Index;
use crate::expr::Program;
use crate::expr::ProgramView;
use crate::expr::Term;
use crate::graph::aims;
use crate::graph::follows;
use crate::graph::lemma_prepend_contains;
use crate::graph::linked;
use crate::graph::mirrored;
use crate::graph::shaped;
use crate::graph::stands;
use crate::graph::CombEdge;
use crate::graph::CombGraph;
use crate::graph::CombNode;

verus! {

/// The number of positions that have no node yet.
spec fn vacant(index: Seq<Option<usize>>) -> nat
    decreases index.len(),
{
    if index.len() == 0 {
        0
    } else {
        vacant(index.drop_last()) + if index.last() is None {
            1nat
        } else {
            0nat
        }
    }
}

proof fn lemma_vacant_fill(index: Seq<Option<usize>>, j: int, t: usize)
    requires
        0 <= j < index.len(),
        index[j] is None,
    ensures
        vacant(index.update(j, Some(t))) + 1 == vacant(index),
    decreases index.len(),
{
    let next = index.update(j, Some(t));
    if j == index.len() - 1 {
        assert(next.drop_last() =~= index.drop_last());
    } else {
        assert(next.drop_last() =~= index.drop_last().update(j, Some(t)));
        lemma_vacant_fill(index.drop_last(), j, t);
    }
}

proof fn lemma_vacant_push(index: Seq<Option<usize>>)
    ensures
        vacant(index.push(None)) == vacant(index) + 1,
{
    assert(index.push(None).drop_last() =~= index);
}

proof fn lemma_total_degree_rises(body: Seq<Term>, a: nat, b: nat)
    requires
        a <= b,
    ensures
        total_degree(body, a) <= total_degree(body, b),
    decreases b,
{
    if a < b {
        lemma_total_degree_rises(body, a, (b - 1) as nat);
    }
}

/// Whether a node carries the expression `t`, fresh: reachable, no redex.
spec fn filled(node: CombNode<Index>, t: Term) -> bool {
    node.expr@ == t && node.reachable && node.redex is None
}

/// What holds of node `n` while the pass stands before position `done`, or,
/// with `cur`, in the middle of it with that many of its edges laid: a node
/// whose turn has come carries its expression and its edges, the others are
/// placeholders without edges.
spec fn placed(
    p: ProgramView,
    nodes: Map<usize, CombNode<Index>>,
    out: Map<usize, Seq<Link>>,
    index: Seq<Option<usize>>,
    done: int,
    cur: Option<nat>,
    n: usize,
) -> bool {
    let j = nodes[n].meta as int;
    let a = aims(p.body[j], p.defs);
    &&& j < p.body.len()
    &&& index[j] is Some
    &&& index[j].unwrap() == n
    &&& if j < done {
        filled(nodes[n], p.body[j]) && follows(out[n], a, nodes)
    } else if j == done && cur is Some {
        &&& filled(nodes[n], p.body[j])
        &&& cur.unwrap() <= a.len()
        &&& follows(out[n], a.subrange(a.len() - cur.unwrap(), a.len() as int), nodes)
    } else {
        out[n].len() == 0
    }
}

/// The state of the pass: see [`placed`]. `index` holds the node of each
/// position that has one.
spec fn lowering(
    p: ProgramView,
    g: Store,
    index: Seq<Option<usize>>,
    done: int,
    cur: Option<nat>,
) -> bool {
    let nodes = graph_nodes(g);
    &&& 0 <= done <= p.body.len()
    &&& index.len() == p.body.len()
    &&& nodes.dom().finite()
    &&& nodes.dom().len() + vacant(index) == p.body.len()
    &&& linked(graph_out(g), nodes.dom())
    &&& linked(graph_in(g), nodes.dom())
    &&& mirrored(graph_out(g), graph_in(g))
    &&& forall|j: int|
        0 <= j < index.len() && (#[trigger] index[j]) is Some ==> {
            &&& nodes.dom().contains(index[j].unwrap())
            &&& nodes[index[j].unwrap()].meta == j
        }
    &&& forall|j: int| 0 <= j < done ==> (#[trigger] index[j]) is Some
    &&& cur is Some ==> done < p.body.len() && index[done] is Some
    &&& forall|n: usize| #[trigger]
        nodes.dom().contains(n) ==> placed(p, nodes, graph_out(g), index, done, cur, n)
    &&& graph_edge_count(g) == total_degree(p.body, done as nat) + match cur {
        Some(c) => c,
        None => 0,
    }
}

/// The node that stands for position `j`: the one there is, or a new
/// placeholder.
fn ensure(
    g: &mut Store,
    index: &mut Vec<Option<usize>>,
    j: usize,
    Ghost(p): Ghost<ProgramView>,
    Ghost(done): Ghost<int>,
    Ghost(cur): Ghost<Option<nat>>,
) -> (t: usize)
    requires
        lowering(p, *old(g), old(index)@, done, cur),
        j < p.body.len() < u32::MAX,
    ensures
        lowering(p, *final(g), final(index)@, done, cur),
        final(index)@[j as int] == Some(t),
        forall|k: int|
            0 <= k < old(index)@.len() && (#[trigger] old(index)@[k]) is Some ==> final(index)@[k]
                == old(index)@[k],
{
    match index[j] {
        Some(t) => t,
        None => {
            let ghost nodes = graph_nodes(*g);
            let t = store_add_node(
                g,
                CombNode { expr: Expr::Unknown(Vec::new()), reachable: true, redex: None, meta: j },
            );
            index.set(j, Some(t));
            proof {
                lemma_vacant_fill(old(index)@, j as int, t);
                let new_nodes = graph_nodes(*g);
                assert forall|n: usize| #[trigger] new_nodes.dom().contains(n) implies placed(
                    p,
                    new_nodes,
                    graph_out(*g),
                    index@,
                    done,
                    cur,
                    n,
                ) by {
                    if n != t {
                        assert(nodes.dom().contains(n));
                        assert(placed(p, nodes, graph_out(*old(g)), old(index)@, done, cur, n));
                    }
                }
            }
            t
        },
    }
}

/// One more edge of the node in turn: from `this`, the node of position
/// `done`, to `to`, the node of the next expression it aims at.
fn lay(
    g: &mut Store,
    this: usize,
    to: usize,
    kind: CombEdge,
    Ghost(p): Ghost<ProgramView>,
    Ghost(index): Ghost<Seq<Option<usize>>>,
    Ghost(done): Ghost<int>,
    Ghost(c): Ghost<nat>,
)
    requires
        lowering(p, *old(g), index, done, Some(c)),
        p.edges() < u32::MAX,
        index[done] == Some(this),
        c < aims(p.body[done], p.defs).len(),
        ({
            let a = aims(p.body[done], p.defs);
            let aim = a[a.len() - 1 - c];
            index[aim.0 as int] == Some(to) && aim.0 < p.body.len() && aim.1 == kind
        }),
    ensures
        lowering(p, *final(g), index, done, Some(c + 1)),
{
    let ghost a = aims(p.body[done], p.defs);
    let ghost nodes = graph_nodes(*g);
    let ghost out = graph_out(*g);
    let ghost inc = graph_in(*g);
    proof {
        assert(a.len() == p.body[done].degree());
        lemma_total_degree_rises(p.body, (done + 1) as nat, p.body.len());
        assert(nodes.dom().contains(this));
        assert(nodes.dom().contains(to));
        assert(placed(p, nodes, out, index, done, Some(c), this));
    }
    store_add_edge(g, this, to, kind);
    proof {
        let new_out = graph_out(*g);
        let new_in = graph_in(*g);
        assert(linked(new_out, nodes.dom())) by {
            assert(new_out.dom() =~= nodes.dom());
            assert forall|n: usize, k: int|
                nodes.dom().contains(n) && 0 <= k < new_out[n].len() implies nodes.dom().contains(
                (#[trigger] new_out[n][k]).0,
            ) by {
                if n == this && k > 0 {
                    assert(new_out[n][k] == out[n][k - 1]);
                }
            }
        }
        assert(linked(new_in, nodes.dom())) by {
            assert(new_in.dom() =~= nodes.dom());
            assert forall|n: usize, k: int|
                nodes.dom().contains(n) && 0 <= k < new_in[n].len() implies nodes.dom().contains(
                (#[trigger] new_in[n][k]).0,
            ) by {
                if n == to && k > 0 {
                    assert(new_in[n][k] == inc[n][k - 1]);
                }
            }
        }
        assert(mirrored(new_out, new_in)) by {
            assert forall|a: usize, b: usize, k: CombEdge|
                #![trigger new_out[a].contains((b, k))]
                #![trigger new_in[b].contains((a, k))]
                (new_out.dom().contains(a) && new_out[a].contains((b, k))) <==> (
                new_in.dom().contains(b) && new_in[b].contains((a, k))) by {
                lemma_prepend_contains((to, kind), out[this], (b, k));
                lemma_prepend_contains((this, kind), inc[to], (a, k));
                assert(out.dom().contains(a) && out[a].contains((b, k)) <==> inc.dom().contains(b)
                    && inc[b].contains((a, k)));
            }
        }
        assert forall|n: usize| #[trigger] nodes.dom().contains(n) implies placed(
            p,
            nodes,
            new_out,
            index,
            done,
            Some(c + 1),
            n,
        ) by {
            assert(placed(p, nodes, out, index, done, Some(c), n));
            if n == this {
                let before = a.subrange(a.len() - c, a.len() as int);
                let after = a.subrange(a.len() - (c + 1), a.len() as int);
                assert forall|k: int| 0 <= k < new_out[n].len() implies {
                    &&& (#[trigger] new_out[n][k]).1 == after[k].1
                    &&& nodes.dom().contains(new_out[n][k].0)
                    &&& nodes[new_out[n][k].0].meta == after[k].0
                } by {
                    if k > 0 {
                        assert(new_out[n][k] == out[n][k - 1]);
                        assert(after[k] == before[k - 1]);
                    }
                }
            }
        }
    }
}

impl CombGraph<Index> {
    /// The graph of a program: a node for every expression, those that the
    /// program shares shared, with edges for applications, arrays and
    /// references. A node is made when the pass first meets its position, as
    /// a child or in its own turn, and filled in its own turn.
    pub fn from(program: &Program) -> (graph: CombGraph<Index>)
        requires
            program@.fits(),
        ensures
            graph.wf(),
            graph.represents(program@),
            forall|n: usize| #[trigger]
                graph.nodes().dom().contains(n) ==> graph.nodes()[n].reachable
                    && graph.nodes()[n].redex is None,
    {
        let ghost p = program@;
        let len = program.body.len();
        let mut index: Vec<Option<usize>> = Vec::new();
        let mut i: usize = 0;
        while i < len
            invariant
                i <= len,
                index@.len() == i,
                vacant(index@) == i,
                forall|j: int| 0 <= j < i ==> (#[trigger] index@[j]) is None,
            decreases len - i,
        {
            proof {
                lemma_vacant_push(index@);
            }
            index.push(None);
            i += 1;
        }
        let mut g = store_new();
        i = 0;
        while i < len
            invariant
                i <= len,
                len == p.body.len(),
                p == program@,
                p.fits(),
                lowering(p, g, index@, i as int, None),
            decreases len - i,
        {
            let ghost t = p.body[i as int];
            assert(t == program.body@[i as int]@);
            assert(t.closed(p.body.len(), p.defs));
            let fresh = CombNode {
                expr: program.body[i].clone(),
                reachable: true,
                redex: None,
                meta: i,
            };
            let this = match index[i] {
                Some(this) => {
                    let ghost nodes = graph_nodes(g);
                    let node = store_node_mut(&mut g, this);
                    *node = fresh;
                    proof {
                        let new_nodes = graph_nodes(g);
                        assert(new_nodes.dom() =~= nodes.dom());
                        assert forall|n: usize| #[trigger] new_nodes.dom().contains(n) implies placed(
                            p,
                            new_nodes,
                            graph_out(g),
                            index@,
                            i as int,
                            Some(0),
                            n,
                        ) by {
                            assert(placed(p, nodes, graph_out(g), index@, i as int, None, n));
                        }
                    }
                    this
                },
                None => {
                    let ghost nodes = graph_nodes(g);
                    let ghost old_index = index@;
                    let this = store_add_node(&mut g, fresh);
                    index.set(i, Some(this));
                    proof {
                        lemma_vacant_fill(old_index, i as int, this);
                        let new_nodes = graph_nodes(g);
                        assert forall|n: usize| #[trigger] new_nodes.dom().contains(n) implies placed(
                            p,
                            new_nodes,
                            graph_out(g),
                            index@,
                            i as int,
                            Some(0),
                            n,
                        ) by {
                            if n != this {
                                assert(nodes.dom().contains(n));
                                assert(placed(p, nodes, graph_out(g), old_index, i as int, None, n));
                            }
                        }
                    }
                    this
                },
            };
            assert(lowering(p, g, index@, i as int, Some(0)));
            match &program.body[i] {
                Expr::App(f, _, a) => {
                    let to = ensure(&mut g, &mut index, *f, Ghost(p), Ghost(i as int), Ghost(Some(0)));
                    lay(&mut g, this, to, CombEdge::Fun, Ghost(p), Ghost(index@), Ghost(i as int), Ghost(0));
                    let to = ensure(&mut g, &mut index, *a, Ghost(p), Ghost(i as int), Ghost(Some(1)));
                    lay(&mut g, this, to, CombEdge::Arg, Ghost(p), Ghost(index@), Ghost(i as int), Ghost(1));
                },
                Expr::Ref(r) => {
                    let d = program.defs[*r];
                    let to = ensure(&mut g, &mut index, d, Ghost(p), Ghost(i as int), Ghost(Some(0)));
                    lay(&mut g, this, to, CombEdge::Ind, Ghost(p), Ghost(index@), Ghost(i as int), Ghost(0));
                },
                Expr::Array(_, v) => {
                    let mut k: usize = 0;
                    while k < v.len()
                        invariant
                            k <= v.len(),
                            i < len,
                            len == p.body.len(),
                            p.fits(),
                            t == p.body[i as int],
                            t matches Term::Array(_, items) && items == v@,
                            index@[i as int] == Some(this),
                            lowering(p, g, index@, i as int, Some(k as nat)),
                        decreases v.len() - k,
                    {
                        let to = ensure(
                            &mut g,
                            &mut index,
                            v[k],
                            Ghost(p),
                            Ghost(i as int),
                            Ghost(Some(k as nat)),
                        );
                        lay(
                            &mut g,
                            this,
                            to,
                            CombEdge::Arr,
                            Ghost(p),
                            Ghost(index@),
                            Ghost(i as int),
                            Ghost(k as nat),
                        );
                        k += 1;
                    }
                },
                _ => {},
            }
            proof {
                let nodes = graph_nodes(g);
                let a = aims(t, p.defs);
                assert(lowering(p, g, index@, i as int, Some(a.len())));
                assert(a.subrange(0, a.len() as int) =~= a);
                assert forall|n: usize| #[trigger] nodes.dom().contains(n) implies placed(
                    p,
                    nodes,
                    graph_out(g),
                    index@,
                    i + 1,
                    None,
                    n,
                ) by {
                    assert(placed(p, nodes, graph_out(g), index@, i as int, Some(a.len()), n));
                }
            }
            i += 1;
        }
        assert(index@[program.root as int] is Some);
        let root = match index[program.root] {
            Some(root) => root,
            None => vstd::pervasive::unreached(),
        };
        let graph = CombGraph { g, root };
        proof {
            let nodes = graph.nodes();
            assert forall|n: usize| #[trigger] nodes.dom().contains(n) implies {
                &&& shaped(nodes[n].expr@, graph.out()[n])
                &&& nodes[n].reachable
                &&& nodes[n].redex is None
                &&& nodes[n].meta < p.body.len()
                &&& nodes[n].expr@ == p.body[nodes[n].meta as int]
                &&& follows(graph.out()[n], aims(p.body[nodes[n].meta as int], p.defs), nodes)
            } by {
                assert(placed(p, nodes, graph.out(), index@, len as int, None, n));
                let t = p.body[nodes[n].meta as int];
                assert(t.closed(p.body.len(), p.defs));
            }
            assert forall|j: int| 0 <= j < p.body.len() implies #[trigger] stands(nodes, j) by {
                assert(index@[j] is Some);
                assert(nodes.dom().contains(index@[j].unwrap()));
            }
            assert forall|n: usize, m: usize|
                nodes.dom().contains(n) && nodes.dom().contains(m) && (#[trigger] nodes[n]).meta == (
                #[trigger] nodes[m]).meta implies n == m by {
                assert(placed(p, nodes, graph.out(), index@, len as int, None, n));
                assert(placed(p, nodes, graph.out(), index@, len as int, None, m));
            }
        }
        graph
    }
}

impl Expr {
    /// Whether everything the expression points at exists, in a body of
    /// `len` expressions and with the definitions `defs`, and an array holds
    /// as many elements as it declares.
    pub fn is_closed(&self, len: usize, defs: &Vec<Index>) -> (r: bool)
        ensures
            r == self@.closed(len as nat, defs@),
    {
        match self {
            Expr::App(f, _, a) => *f < len && *a < len,
            Expr::Array(n, v) => {
                if *n != v.len() {
                    return false;
                }
                let mut k: usize = 0;
                while k < v.len()
                    invariant
                        k <= v.len(),
                        self@ == Term::Array(*n, v@),
                        forall|j: int| 0 <= j < k ==> #[trigger] v@[j] < len,
                    decreases v.len() - k,
                {
                    if v[k] >= len {
                        assert(!(v@[k as int] < len));
                        return false;
                    }
                    k += 1;
                }
                true
            },
            Expr::Ref(r) => *r < defs.len() && defs[*r] < len,
            _ => true,
        }
    }

    /// The number of edges that leave the node of the expression.
    pub fn degree(&self) -> (d: usize)
        ensures
            d == self@.degree(),
    {
        match self {
            Expr::App(_, _, _) => 2,
            Expr::Array(_, v) => v.len(),
            Expr::Ref(_) => 1,
            _ => 0,
        }
    }
}

impl Program {
    /// Whether the program's graph can be held: the program is closed, and
    /// has fewer expressions and fewer edges than the largest `u32`.
    pub fn fits(&self) -> (r: bool)
        ensures
            r == self@.fits(),
    {
        let len = self.body.len();
        if self.root >= len || len >= u32::MAX as usize {
            return false;
        }
        let ghost p = self@;
        let mut edges: usize = 0;
        let mut i: usize = 0;
        while i < len
            invariant
                i <= len,
                len == self.body@.len(),
                p == self@,
                edges == total_degree(p.body, i as nat),
                edges < u32::MAX,
                forall|j: int| 0 <= j < i ==> (#[trigger] p.body[j]).closed(len as nat, p.defs),
            decreases len - i,
        {
            let expr = &self.body[i];
            assert(expr@ == p.body[i as int]);
            if !expr.is_closed(len, &self.defs) {
                return false;
            }
            let degree = expr.degree();
            if degree >= u32::MAX as usize - edges {
                proof {
                    lemma_total_degree_rises(p.body, (i + 1) as nat, len as nat);
                }
                return false;
            }
            edges += degree;
            i += 1;
        }
        true
    }

    /// The graph of the program, where it can be held: see [`Program::fits`].
    pub fn to_graph(&self) -> (r: Option<CombGraph<Index>>)
        ensures
            r.is_some() == self@.fits(),
            r matches Some(graph) ==> {
                &&& graph.wf()
                &&& graph.represents(self@)
                &&& forall|n: usize| #[trigger]
                    graph.nodes().dom().contains(n) ==> graph.nodes()[n].reachable
                        && graph.nodes()[n].redex is None
            },
    {
        if self.fits() {
            Some(CombGraph::from(self))
        } else {
            None
        }
    }
}

} // verus!
