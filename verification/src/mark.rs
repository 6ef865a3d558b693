//! Reachability: marking what the root reaches, and sweeping away the rest.

use vstd::prelude::*;
use crate::arena::dfs_new;
use crate::arena::dfs_next;
use crate::arena::dfs_seen;
use crate::arena::dfs_stack;
use crate::arena::dfs_yields;
use crate::arena::graph_edge_count;
use crate::arena::graph_in;
use crate::arena::graph_nodes;
use crate::arena::graph_out;
use crate::arena::kept;
use crate::arena::pruned;
use crate::arena::store_node_ids;
use crate::arena::store_node_mut;
use crate::arena::store_sweep;
use crate::arena::successors;
use crate::arena::Link;
use crate::expr::Index;
use crate::graph::lemma_filter_holds;
use crate::graph::linked;
use crate::graph::CombEdge;
use crate::graph::CombGraph;
use crate::graph::CombNode;

verus! {

/// Whether the graph has an edge, of any kind, from `a` to `b`.
pub open spec fn edge(out: Map<usize, Seq<Link>>, a: usize, b: usize) -> bool {
    out.dom().contains(a) && exists|k: int| 0 <= k < out[a].len() && (#[trigger] out[a][k]).0 == b
}

/// Whether each node of `path` has an edge to the next.
pub open spec fn is_path(out: Map<usize, Seq<Link>>, path: Seq<usize>) -> bool {
    forall|i: int| 0 <= i < path.len() - 1 ==> edge(out, #[trigger] path[i], path[i + 1])
}

/// Whether a directed path, possibly of no edges, leads from `from` to `to`.
pub open spec fn reaches(out: Map<usize, Seq<Link>>, from: usize, to: usize) -> bool {
    exists|path: Seq<usize>|
        path.len() > 0 && #[trigger] is_path(out, path) && path[0] == from && path.last() == to
}

/// The node `node` with its reachability mark set to `mark`.
pub open spec fn marked(node: CombNode<Index>, mark: bool) -> CombNode<Index> {
    CombNode { expr: node.expr, reachable: mark, redex: node.redex, meta: node.meta }
}

/// Every node reaches itself.
pub proof fn lemma_reaches_self(out: Map<usize, Seq<Link>>, n: usize)
    ensures
        reaches(out, n, n),
{
    let path = seq![n];
    assert(is_path(out, path));
    assert(path[0] == n && path.last() == n);
}

/// What reaches the start of an edge reaches its end.
pub proof fn lemma_reaches_step(out: Map<usize, Seq<Link>>, from: usize, a: usize, b: usize)
    requires
        reaches(out, from, a),
        edge(out, a, b),
    ensures
        reaches(out, from, b),
{
    let path = choose|path: Seq<usize>|
        path.len() > 0 && #[trigger] is_path(out, path) && path[0] == from && path.last() == a;
    let longer = path.push(b);
    assert forall|i: int| 0 <= i < longer.len() - 1 implies edge(
        out,
        #[trigger] longer[i],
        longer[i + 1],
    ) by {
        if i < path.len() - 1 {
            assert(longer[i] == path[i]);
            assert(longer[i + 1] == path[i + 1]);
        }
    }
    assert(is_path(out, longer));
    assert(longer[0] == from && longer.last() == b);
}

/// A set of nodes that holds `from` and, with every node, all that the node
/// has an edge to, holds everything that `from` reaches.
pub proof fn lemma_closed_holds_reached(
    out: Map<usize, Seq<Link>>,
    from: usize,
    to: usize,
    closed: Set<usize>,
)
    requires
        closed.contains(from),
        forall|a: usize, b: usize| closed.contains(a) && #[trigger] edge(out, a, b) ==> closed.contains(b),
        reaches(out, from, to),
    ensures
        closed.contains(to),
{
    let path = choose|path: Seq<usize>|
        path.len() > 0 && #[trigger] is_path(out, path) && path[0] == from && path.last() == to;
    lemma_closed_holds_path(out, path, closed, path.len() - 1);
}

proof fn lemma_closed_holds_path(out: Map<usize, Seq<Link>>, path: Seq<usize>, closed: Set<usize>, i: int)
    requires
        path.len() > 0,
        is_path(out, path),
        closed.contains(path[0]),
        forall|a: usize, b: usize| closed.contains(a) && #[trigger] edge(out, a, b) ==> closed.contains(b),
        0 <= i < path.len(),
    ensures
        closed.contains(path[i]),
    decreases i,
{
    if i > 0 {
        lemma_closed_holds_path(out, path, closed, i - 1);
        assert(edge(out, path[i - 1], path[i - 1 + 1]));
    }
}

/// The number of clear bits.
spec fn clear_bits(seen: Seq<bool>) -> nat
    decreases seen.len(),
{
    if seen.len() == 0 {
        0
    } else {
        clear_bits(seen.drop_last()) + if seen.last() {
            0nat
        } else {
            1nat
        }
    }
}

proof fn lemma_clear_bits_set(seen: Seq<bool>, i: int)
    requires
        0 <= i < seen.len(),
        !seen[i],
    ensures
        clear_bits(seen.update(i, true)) + 1 == clear_bits(seen),
    decreases seen.len(),
{
    let next = seen.update(i, true);
    if i == seen.len() - 1 {
        assert(next.drop_last() =~= seen.drop_last());
    } else {
        assert(next.drop_last() =~= seen.drop_last().update(i, true));
        lemma_clear_bits_set(seen.drop_last(), i);
    }
}

/// The state of a marking in progress: the search has discovered only nodes
/// that the root reaches, holds on its stack only such nodes, has the root
/// and every successor of a discovered node discovered or on the stack, and
/// the nodes marked reachable are the discovered ones.
spec fn marking(
    before: Map<usize, CombNode<Index>>,
    nodes: Map<usize, CombNode<Index>>,
    out: Map<usize, Seq<Link>>,
    root: usize,
    stack: Seq<usize>,
    seen: Seq<bool>,
) -> bool {
    &&& nodes.dom() == before.dom()
    &&& linked(out, nodes.dom())
    &&& forall|n: usize| #[trigger] nodes.dom().contains(n) ==> n < seen.len()
    &&& forall|n: usize| #[trigger]
        nodes.dom().contains(n) ==> nodes[n] == marked(before[n], seen[n as int])
    &&& forall|j: int|
        0 <= j < stack.len() ==> nodes.dom().contains(#[trigger] stack[j]) && reaches(
            out,
            root,
            stack[j],
        )
    &&& forall|n: usize|
        n < seen.len() && #[trigger] seen[n as int] ==> nodes.dom().contains(n) && reaches(
            out,
            root,
            n,
        )
    &&& seen[root as int] || stack.contains(root)
    &&& forall|n: usize, t: usize|
        n < seen.len() && seen[n as int] && #[trigger] edge(out, n, t) ==> seen[t as int]
            || stack.contains(t)
}

proof fn lemma_marking_step(
    before: Map<usize, CombNode<Index>>,
    nodes: Map<usize, CombNode<Index>>,
    out: Map<usize, Seq<Link>>,
    root: usize,
    stack: Seq<usize>,
    seen: Seq<bool>,
    n: usize,
    k: int,
    pushed: Seq<usize>,
    new_stack: Seq<usize>,
    new_seen: Seq<bool>,
)
    requires
        marking(before, nodes, out, root, stack, seen),
        dfs_yields(stack, seen, out, n, k, pushed, new_stack, new_seen),
        nodes.dom().contains(root),
    ensures
        nodes.dom().contains(n),
        marking(before, nodes.insert(n, marked(nodes[n], true)), out, root, new_stack, new_seen),
        clear_bits(new_seen) < clear_bits(seen),
{
    let new_nodes = nodes.insert(n, marked(nodes[n], true));
    assert(nodes.dom().contains(stack[k]));
    assert(new_nodes.dom() =~= before.dom());
    lemma_clear_bits_set(seen, n as int);
    assert forall|t: usize| pushed.contains(t) implies edge(out, n, t) by {
        let s = successors(out, n);
        assert(s.contains(t));
        let i = choose|i: int| 0 <= i < s.len() && s[i] == t;
        assert(out[n][i].0 == t);
    }
    assert forall|j: int| 0 <= j < new_stack.len() implies new_nodes.dom().contains(
        #[trigger] new_stack[j],
    ) && reaches(out, root, new_stack[j]) by {
        if j < k {
            assert(new_stack[j] == stack[j]);
        } else {
            let t = pushed[j - k];
            assert(new_stack[j] == t);
            assert(pushed.contains(t));
            let i = choose|i: int| 0 <= i < out[n].len() && (#[trigger] out[n][i]).0 == t;
            lemma_reaches_step(out, root, n, t);
        }
    }
    assert(new_seen[root as int] || new_stack.contains(root)) by {
        if !seen[root as int] {
            let j = choose|j: int| 0 <= j < stack.len() && stack[j] == root;
            if j < k {
                assert(new_stack[j] == stack[j]);
            } else if j > k {
                assert(seen[stack[j] as int]);
            }
        }
    }
    assert forall|m: usize, t: usize|
        m < new_seen.len() && new_seen[m as int] && #[trigger] edge(out, m, t) implies new_seen[t as int]
        || new_stack.contains(t) by {
        let i = choose|i: int| 0 <= i < out[m].len() && (#[trigger] out[m][i]).0 == t;
        assert(nodes.dom().contains(out[m][i].0));
        if m == n {
            let s = successors(out, n);
            assert(s[i] == t);
            assert(s.contains(t));
            if !new_seen[t as int] {
                assert(pushed.contains(t));
                let q = choose|q: int| 0 <= q < pushed.len() && pushed[q] == t;
                assert(new_stack[k + q] == t);
            }
        } else if !seen[t as int] {
            let j = choose|j: int| 0 <= j < stack.len() && stack[j] == t;
            if j < k {
                assert(new_stack[j] == stack[j]);
            } else if j > k {
                assert(seen[stack[j] as int]);
            }
        }
    }
}

impl CombGraph<Index> {
    /// Whether the root reaches the node `n`.
    pub open spec fn reached(&self, n: usize) -> bool {
        reaches(self.out(), self.root, n)
    }

    /// Whether two graphs have the same root, nodes and edges.
    pub open spec fn same(&self, other: CombGraph<Index>) -> bool {
        &&& self.root == other.root
        &&& self.nodes() == other.nodes()
        &&& self.out() == other.out()
        &&& self.inc() == other.inc()
    }

    /// Whether this graph is `before` after a marking: the same root, nodes
    /// and edges, with every node marked reachable if and only if a directed
    /// path leads from the root to it, and otherwise as it was.
    pub open spec fn marks(&self, before: CombGraph<Index>) -> bool {
        &&& self.root == before.root
        &&& self.out() == before.out()
        &&& self.inc() == before.inc()
        &&& self.nodes().dom() == before.nodes().dom()
        &&& forall|n: usize| #[trigger]
            self.nodes().dom().contains(n) ==> self.nodes()[n] == marked(
                before.nodes()[n],
                before.reached(n),
            )
    }

    /// Whether this graph is `before` after a sweep: the same root; of the
    /// nodes, those that the root reached, each under its old identifier,
    /// marked reachable, with its old expression and outgoing edges; of the
    /// incoming edges, those that come from such a node.
    pub open spec fn sweeps(&self, before: CombGraph<Index>) -> bool {
        &&& self.root == before.root
        &&& forall|n: usize|
            #![trigger self.nodes().dom().contains(n)]
            #![trigger before.nodes().dom().contains(n)]
            self.nodes().dom().contains(n) <==> before.nodes().dom().contains(n) && before.reached(
                n,
            )
        &&& forall|n: usize| #[trigger]
            self.nodes().dom().contains(n) ==> {
                &&& self.nodes()[n] == marked(before.nodes()[n], true)
                &&& self.out()[n] == before.out()[n]
            }
        &&& self.out().dom() == self.nodes().dom()
        &&& self.inc() == pruned(before.inc(), self.nodes().dom())
    }

    /// Marks every node with whether the root reaches it.
    ///
    /// First marks everything unreachable, then marks reachable nodes through DFS.
    pub fn mark(&mut self)
        requires
            old(self).wf(),
        ensures
            final(self).wf(),
            final(self).marks(*old(self)),
    {
        let ghost before = graph_nodes(self.g);
        let ghost out = graph_out(self.g);
        let ghost root = self.root;
        let ids = store_node_ids(&self.g);
        let mut i: usize = 0;
        while i < ids.len()
            invariant
                i <= ids.len(),
                graph_out(self.g) == out,
                graph_in(self.g) == old(self).inc(),
                graph_edge_count(self.g) == graph_edge_count(old(self).g),
                self.root == old(self).root,
                graph_nodes(self.g).dom() == before.dom(),
                forall|n: usize| ids@.contains(n) <==> before.dom().contains(n),
                forall|n: usize| #[trigger]
                    before.dom().contains(n) ==> graph_nodes(self.g)[n] == marked(
                        before[n],
                        before[n].reachable && !ids@.subrange(0, i as int).contains(n),
                    ),
            decreases ids.len() - i,
        {
            let id = ids[i];
            assert(ids@.contains(id));
            let ghost nodes = graph_nodes(self.g);
            let node = store_node_mut(&mut self.g, id);
            node.reachable = false;
            proof {
                let new_nodes = graph_nodes(self.g);
                assert(new_nodes.dom() =~= before.dom());
                let prefix = ids@.subrange(0, i as int);
                let longer = ids@.subrange(0, i + 1);
                assert(longer[i as int] == id);
                assert forall|n: usize| #[trigger] before.dom().contains(n) implies new_nodes[n]
                    == marked(before[n], before[n].reachable && !longer.contains(n)) by {
                    if n != id {
                        if longer.contains(n) {
                            let j = choose|j: int| 0 <= j < longer.len() && longer[j] == n;
                            assert(prefix[j] == n);
                        }
                        if prefix.contains(n) {
                            let j = choose|j: int| 0 <= j < prefix.len() && prefix[j] == n;
                            assert(longer[j] == n);
                        }
                    }
                }
            }
            i += 1;
        }
        let mut dfs = dfs_new(&self.g, self.root);
        proof {
            assert(ids@.subrange(0, ids@.len() as int) =~= ids@);
            lemma_reaches_self(out, root);
            assert(dfs_stack(dfs)[0] == self.root);
            assert(marking(before, graph_nodes(self.g), out, root, dfs_stack(dfs), dfs_seen(dfs)));
        }
        loop
            invariant
                graph_out(self.g) == out,
                graph_in(self.g) == old(self).inc(),
                self.root == old(self).root,
                root == self.root,
                before.dom().contains(root),
                marking(before, graph_nodes(self.g), out, root, dfs_stack(dfs), dfs_seen(dfs)),
            ensures
                graph_out(self.g) == out,
                graph_in(self.g) == old(self).inc(),
                self.root == old(self).root,
                marking(before, graph_nodes(self.g), out, root, dfs_stack(dfs), dfs_seen(dfs)),
                dfs_stack(dfs).len() == 0,
            decreases clear_bits(dfs_seen(dfs)),
        {
            let ghost stack = dfs_stack(dfs);
            let ghost seen = dfs_seen(dfs);
            let ghost nodes = graph_nodes(self.g);
            match dfs_next(&mut dfs, &self.g) {
                Some(n) => {
                    proof {
                        let (k, pushed) = choose|k: int, pushed: Seq<usize>| #[trigger]
                            dfs_yields(
                                stack,
                                seen,
                                out,
                                n,
                                k,
                                pushed,
                                dfs_stack(dfs),
                                dfs_seen(dfs),
                            );
                        lemma_marking_step(
                            before,
                            nodes,
                            out,
                            root,
                            stack,
                            seen,
                            n,
                            k,
                            pushed,
                            dfs_stack(dfs),
                            dfs_seen(dfs),
                        );
                    }
                    let node = store_node_mut(&mut self.g, n);
                    node.reachable = true;
                    assert(graph_nodes(self.g) =~= nodes.insert(n, marked(nodes[n], true)));
                },
                None => {
                    proof {
                        assert forall|n: usize, t: usize|
                            n < seen.len() && seen[n as int] && #[trigger] edge(out, n, t) implies seen[t as int]
                            || dfs_stack(dfs).contains(t) by {
                            if !seen[t as int] {
                                let j = choose|j: int| 0 <= j < stack.len() && stack[j] == t;
                                assert(seen[stack[j] as int]);
                            }
                        }
                        if !seen[root as int] {
                            let j = choose|j: int| 0 <= j < stack.len() && stack[j] == root;
                            assert(seen[stack[j] as int]);
                        }
                    }
                    break ;
                },
            }
        }
        proof {
            let seen = dfs_seen(dfs);
            let nodes = graph_nodes(self.g);
            let found = Set::new(|n: usize| n < seen.len() && seen[n as int]);
            assert(dfs_stack(dfs) =~= Seq::empty());
            assert forall|a: usize, b: usize| found.contains(a) && #[trigger] edge(out, a, b) implies found.contains(
                b,
            ) by {
                let i = choose|i: int| 0 <= i < out[a].len() && (#[trigger] out[a][i]).0 == b;
                assert(nodes.dom().contains(out[a][i].0));
            }
            assert forall|n: usize| #[trigger] nodes.dom().contains(n) implies nodes[n] == marked(
                before[n],
                reaches(out, root, n),
            ) by {
                if reaches(out, root, n) {
                    lemma_closed_holds_reached(out, root, n, found);
                }
            }
        }
    }
}

/// A filter that every element passes changes nothing.
proof fn lemma_filter_all<A>(s: Seq<A>, pred: spec_fn(A) -> bool)
    requires
        forall|i: int| 0 <= i < s.len() ==> pred(#[trigger] s[i]),
    ensures
        s.filter(pred) == s,
    decreases s.len(),
{
    reveal(Seq::filter);
    if s.len() > 0 {
        lemma_filter_all(s.drop_last(), pred);
        assert(s.drop_last().push(s.last()) =~= s);
    }
}

impl CombGraph<Index> {
    /// Ye goode olde mark und sweepe: marks, then removes every node that the
    /// root does not reach, with the edges from it. What stays keeps its
    /// identifier, its expression and its outgoing edges.
    ///
    /// Note that this won't actually free up any memory, since the store keeps
    /// the slots of removed nodes.
    pub fn gc(&mut self)
        requires
            old(self).wf(),
        ensures
            final(self).wf(),
            final(self).sweeps(*old(self)),
    {
        self.mark();
        let ghost nodes = graph_nodes(self.g);
        let ghost out = graph_out(self.g);
        let ghost keep = kept(nodes);
        store_sweep(&mut self.g);
        proof {
            let new_nodes = graph_nodes(self.g);
            let new_out = graph_out(self.g);
            let new_in = graph_in(self.g);
            let root = self.root;
            lemma_reaches_self(out, root);
            assert(new_nodes.dom() =~= keep);
            assert(keep.subset_of(nodes.dom()));
            vstd::set_lib::lemma_set_subset_finite(nodes.dom(), keep);
            assert(new_out.dom() =~= keep);
            assert(new_in.dom() =~= keep);
            let pred = |l: Link| keep.contains(l.0);
            assert forall|n: usize| #[trigger] keep.contains(n) implies new_out[n] == out[n] by {
                assert forall|i: int| 0 <= i < out[n].len() implies pred(#[trigger] out[n][i]) by {
                    let t = out[n][i].0;
                    assert(nodes.dom().contains(t));
                    assert(edge(out, n, t));
                    lemma_reaches_step(out, root, n, t);
                }
                lemma_filter_all(out[n], pred);
            }
            assert forall|n: usize, k: int|
                keep.contains(n) && 0 <= k < new_in[n].len() implies keep.contains(
                (#[trigger] new_in[n][k]).0,
            ) by {
                graph_in(old(self).g)[n].lemma_filter_pred(pred, k);
            }
            assert(new_in =~= pruned(old(self).inc(), new_nodes.dom()));
            let inc = graph_in(old(self).g);
            assert forall|a: usize, b: usize, k: CombEdge|
                #![trigger new_out[a].contains((b, k))]
                #![trigger new_in[b].contains((a, k))]
                (new_out.dom().contains(a) && new_out[a].contains((b, k))) <==> (
                new_in.dom().contains(b) && new_in[b].contains((a, k))) by {
                assert(out.dom().contains(a) && out[a].contains((b, k)) <==> inc.dom().contains(b)
                    && inc[b].contains((a, k)));
                if keep.contains(a) {
                    lemma_filter_holds(out[a], pred, (b, k));
                    if out[a].contains((b, k)) {
                        let i = choose|i: int| 0 <= i < out[a].len() && out[a][i] == (b, k);
                        assert(nodes.dom().contains(out[a][i].0));
                    }
                }
                if keep.contains(b) {
                    lemma_filter_holds(inc[b], pred, (a, k));
                    if inc[b].contains((a, k)) {
                        let i = choose|i: int| 0 <= i < inc[b].len() && inc[b][i] == (a, k);
                        assert(nodes.dom().contains(inc[b][i].0));
                    }
                }
            }
        }
    }
}

/// A path from the root of a swept graph, found before the sweep, is a path
/// after it: the sweep keeps every node on it.
proof fn lemma_path_survives(before: CombGraph<Index>, after: CombGraph<Index>, path: Seq<usize>, i: int)
    requires
        before.wf(),
        after.sweeps(before),
        path.len() > 0,
        is_path(before.out(), path),
        path[0] == before.root,
        0 <= i < path.len(),
    ensures
        after.nodes().dom().contains(path[i]),
        is_path(after.out(), path.subrange(0, i + 1)),
    decreases i,
{
    let out = before.out();
    if i == 0 {
        lemma_reaches_self(out, before.root);
        assert(before.nodes().dom().contains(path[0]) && before.reached(path[0]));
        assert(is_path(after.out(), path.subrange(0, 1)));
    } else {
        lemma_path_survives(before, after, path, i - 1);
        let shorter = path.subrange(0, i);
        let longer = path.subrange(0, i + 1);
        assert(edge(out, path[i - 1], path[i - 1 + 1]));
        let a = path[i - 1];
        let k = choose|k: int| 0 <= k < out[a].len() && (#[trigger] out[a][k]).0 == path[i];
        assert(before.nodes().dom().contains(out[a][k].0));
        assert(is_path(out, shorter)) by {
            assert forall|j: int| 0 <= j < shorter.len() - 1 implies edge(
                out,
                #[trigger] shorter[j],
                shorter[j + 1],
            ) by {
                assert(edge(out, path[j], path[j + 1]));
            }
        }
        assert(reaches(out, before.root, a)) by {
            assert(shorter[0] == before.root && shorter.last() == a);
        }
        lemma_reaches_step(out, before.root, a, path[i]);
        assert(before.nodes().dom().contains(path[i]) && before.reached(path[i]));
        assert forall|j: int| 0 <= j < longer.len() - 1 implies edge(
            after.out(),
            #[trigger] longer[j],
            longer[j + 1],
        ) by {
            if j < i - 1 {
                assert(edge(after.out(), shorter[j], shorter[j + 1]));
            } else {
                assert(after.out()[a] == out[a]);
                assert(after.out()[a][k].0 == path[i]);
            }
        }
    }
}

/// Marking twice is marking once: a second marking changes nothing.
pub proof fn lemma_mark_idempotent(start: CombGraph<Index>, once: CombGraph<Index>, twice: CombGraph<Index>)
    requires
        once.marks(start),
        twice.marks(once),
    ensures
        twice.same(once),
{
    assert(twice.nodes() =~= once.nodes());
}

/// After a sweep every node that is left is marked reachable, and the root
/// reaches it.
pub proof fn lemma_swept_reachable(start: CombGraph<Index>, swept: CombGraph<Index>, n: usize)
    requires
        start.wf(),
        swept.sweeps(start),
        swept.nodes().dom().contains(n),
    ensures
        swept.nodes()[n].reachable,
        swept.reached(n),
{
    let out = start.out();
    assert(start.nodes().dom().contains(n) && start.reached(n));
    let path = choose|path: Seq<usize>|
        path.len() > 0 && #[trigger] is_path(out, path) && path[0] == start.root && path.last()
            == n;
    lemma_path_survives(start, swept, path, path.len() - 1);
    assert(path.subrange(0, path.len() as int) =~= path);
    assert(path[0] == swept.root && path.last() == n);
}

/// Sweeping twice is sweeping once: a second sweep removes nothing and
/// changes nothing.
pub proof fn lemma_gc_idempotent(start: CombGraph<Index>, once: CombGraph<Index>, twice: CombGraph<Index>)
    requires
        start.wf(),
        once.sweeps(start),
        twice.sweeps(once),
    ensures
        twice.same(once),
{
    assert forall|n: usize| once.nodes().dom().contains(n) implies once.reached(n) by {
        lemma_swept_reachable(start, once, n);
    }
    assert forall|n: usize| twice.nodes().dom().contains(n) <==> once.nodes().dom().contains(
        n,
    ) by {
        assert(twice.nodes().dom().contains(n) <==> once.nodes().dom().contains(n) && once.reached(
            n,
        ));
    }
    assert(twice.nodes().dom() =~= once.nodes().dom());
    assert(twice.nodes() =~= once.nodes());
    assert(twice.out() =~= once.out());
    let keep = once.nodes().dom();
    let pred = |l: Link| keep.contains(l.0);
    assert forall|n: usize| #[trigger] keep.contains(n) implies twice.inc()[n] == once.inc()[n] by {
        assert(start.nodes().dom().contains(n) && start.reached(n));
        assert(start.inc().dom().contains(n));
        assert(once.inc()[n] == start.inc()[n].filter(pred));
        assert forall|k: int| 0 <= k < once.inc()[n].len() implies pred(
            #[trigger] once.inc()[n][k],
        ) by {
            start.inc()[n].lemma_filter_pred(pred, k);
        }
        lemma_filter_all(once.inc()[n], pred);
    }
    assert(twice.inc() =~= once.inc());
}

} // verus!
