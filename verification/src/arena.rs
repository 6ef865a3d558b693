//! The node store: `petgraph`'s `StableGraph`, its depth-first search and its
//! visit map, behind contracts. Nothing in this file is proved; each contract
//! restates what the outside source does.

use vstd::prelude::*;
use fixedbitset::FixedBitSet;
use petgraph::stable_graph::NodeIndex;
use petgraph::stable_graph::StableGraph;
use petgraph::visit::Dfs;
use petgraph::visit::EdgeRef;
use petgraph::visit::VisitMap;
use petgraph::visit::Visitable;
use petgraph::Directed;
use petgraph::Direction;
use crate::expr::Index;
use crate::graph::CombEdge;
use crate::graph::CombNode;

verus! {

#[verifier::external_type_specification]
#[verifier::external_body]
#[verifier::reject_recursive_types(N)]
#[verifier::reject_recursive_types(E)]
#[verifier::reject_recursive_types(Ty)]
#[verifier::reject_recursive_types(Ix)]
pub struct ExStableGraph<N, E, Ty, Ix>(StableGraph<N, E, Ty, Ix>);

#[verifier::external_type_specification]
#[verifier::external_body]
pub struct ExDirected(Directed);

#[verifier::external_type_specification]
#[verifier::external_body]
#[verifier::reject_recursive_types(Ix)]
pub struct ExNodeIndex<Ix>(NodeIndex<Ix>);

#[verifier::external_type_specification]
#[verifier::external_body]
pub struct ExFixedBitSet(FixedBitSet);

#[verifier::external_type_specification]
#[verifier::external_body]
#[verifier::reject_recursive_types(N)]
#[verifier::reject_recursive_types(VM)]
pub struct ExDfs<N, VM>(Dfs<N, VM>);

/// The graph that holds the nodes: directed, indexed by `u32`.
pub type Store = StableGraph<CombNode<Index>, CombEdge, Directed, u32>;

/// A depth-first search over a [`Store`].
pub type Search = Dfs<NodeIndex<u32>, FixedBitSet>;

/// One end of an edge as seen from the other: the node there, and the edge's kind.
pub type Link = (usize, CombEdge);

/// The nodes of the graph: each live node identifier with its weight.
pub uninterp spec fn graph_nodes(g: Store) -> Map<usize, CombNode<Index>>;

/// For each live node, its outgoing edges in the order in which the graph
/// walks them, the latest added first: the target and the kind of each.
pub uninterp spec fn graph_out(g: Store) -> Map<usize, Seq<Link>>;

/// For each live node, its incoming edges in the order in which the graph
/// walks them, the latest added first: the source and the kind of each.
pub uninterp spec fn graph_in(g: Store) -> Map<usize, Seq<Link>>;

/// The number of edges in the graph.
pub uninterp spec fn graph_edge_count(g: Store) -> nat;

/// The bits of a visit map, by position.
pub uninterp spec fn bits(b: FixedBitSet) -> Seq<bool>;

/// The stack of a search: the nodes still to be looked at, the next one last.
pub uninterp spec fn dfs_stack(d: Search) -> Seq<usize>;

/// The nodes a search has discovered, as one bit per node identifier.
pub uninterp spec fn dfs_seen(d: Search) -> Seq<bool>;

/// The nodes that a sweep keeps: those marked reachable.
pub open spec fn kept(nodes: Map<usize, CombNode<Index>>) -> Set<usize> {
    Set::new(|n: usize| nodes.dom().contains(n) && nodes[n].reachable)
}

/// Adjacency lists after a sweep: those of the nodes kept, without the links
/// that led to a node swept away, the others in their old order.
pub open spec fn pruned(adj: Map<usize, Seq<Link>>, keep: Set<usize>) -> Map<usize, Seq<Link>> {
    Map::new(
        |n: usize| adj.dom().contains(n) && keep.contains(n),
        |n: usize| adj[n].filter(|l: Link| keep.contains(l.0)),
    )
}

/// Whether `n` is a live node without outgoing edges.
pub open spec fn is_sink(out: Map<usize, Seq<Link>>, n: usize) -> bool {
    out.dom().contains(n) && out[n].len() == 0
}

/// Whether a sequence of identifiers rises strictly.
pub open spec fn rising(ids: Seq<usize>) -> bool {
    forall|i: int, j: int| 0 <= i < j < ids.len() ==> ids[i] < ids[j]
}

/// The nodes that `n` has an edge to, in the order of its outgoing edges.
pub open spec fn successors(out: Map<usize, Seq<Link>>, n: usize) -> Seq<usize> {
    if out.dom().contains(n) {
        out[n].map_values(|l: Link| l.0)
    } else {
        Seq::empty()
    }
}

/// One step of a depth-first search that yields `n`: the stack is popped down
/// to entry `k`, which is `n`, the first from the top not yet discovered; `n`
/// becomes discovered; and `pushed`, those successors of `n` that are still
/// undiscovered, go on the stack.
pub open spec fn dfs_yields(
    stack: Seq<usize>,
    seen: Seq<bool>,
    out: Map<usize, Seq<Link>>,
    n: usize,
    k: int,
    pushed: Seq<usize>,
    new_stack: Seq<usize>,
    new_seen: Seq<bool>,
) -> bool {
    &&& 0 <= k < stack.len()
    &&& stack[k] == n
    &&& !seen[n as int]
    &&& forall|j: int| k < j < stack.len() ==> seen[#[trigger] stack[j] as int]
    &&& new_seen == seen.update(n as int, true)
    &&& new_stack == stack.subrange(0, k) + pushed
    &&& forall|t: usize| #[trigger]
        pushed.contains(t) <==> successors(out, n).contains(t) && !(0 <= t < new_seen.len()
            && new_seen[t as int])
}

/// `StableGraph::new`: a graph without nodes and without edges.
#[verifier::external_body]
pub(crate) fn store_new() -> (g: Store)
    ensures
        graph_nodes(g) =~= Map::empty(),
        graph_out(g) =~= Map::empty(),
        graph_in(g) =~= Map::empty(),
        graph_edge_count(g) == 0,
{
    StableGraph::new()
}

/// `StableGraph::add_node`: the weight enters under an identifier that was not
/// in use, with no edges; all else stays. The call panics only when every
/// `u32` below the largest is a live node, which the bound on their number
/// rules out.
#[verifier::external_body]
pub(crate) fn store_add_node(g: &mut Store, weight: CombNode<Index>) -> (id: usize)
    requires
        graph_nodes(*old(g)).dom().finite(),
        graph_nodes(*old(g)).dom().len() < u32::MAX,
    ensures
        id < u32::MAX,
        !graph_nodes(*old(g)).dom().contains(id),
        graph_nodes(*final(g)) == graph_nodes(*old(g)).insert(id, weight),
        graph_out(*final(g)) == graph_out(*old(g)).insert(id, Seq::empty()),
        graph_in(*final(g)) == graph_in(*old(g)).insert(id, Seq::empty()),
        graph_edge_count(*final(g)) == graph_edge_count(*old(g)),
{
    g.add_node(weight).index()
}

/// `StableGraph::add_edge`: the edge goes to the front of the outgoing edges
/// of `a` and of the incoming edges of `b`; parallel edges are kept. The call
/// panics where an end is no live node or the graph holds the largest number
/// of edges, hence the two demands.
#[verifier::external_body]
pub(crate) fn store_add_edge(g: &mut Store, a: usize, b: usize, kind: CombEdge)
    requires
        graph_nodes(*old(g)).dom().contains(a),
        graph_nodes(*old(g)).dom().contains(b),
        graph_edge_count(*old(g)) < u32::MAX,
    ensures
        graph_nodes(*final(g)) == graph_nodes(*old(g)),
        graph_out(*final(g)) == graph_out(*old(g)).insert(
            a,
            seq![(b, kind)] + graph_out(*old(g))[a],
        ),
        graph_in(*final(g)) == graph_in(*old(g)).insert(
            b,
            seq![(a, kind)] + graph_in(*old(g))[b],
        ),
        graph_edge_count(*final(g)) == graph_edge_count(*old(g)) + 1,
{
    g.add_edge(NodeIndex::new(a), NodeIndex::new(b), kind);
}

/// Indexing a `StableGraph` by a node: the weight of a live node.
#[verifier::external_body]
pub(crate) fn store_node(g: &Store, id: usize) -> (node: &CombNode<Index>)
    requires
        graph_nodes(*g).dom().contains(id),
    ensures
        *node == graph_nodes(*g)[id],
{
    &g[NodeIndex::new(id)]
}

/// Indexing a `StableGraph` mutably by a node: the weight of a live node, to
/// be changed in place. Nothing else in the graph changes.
#[verifier::external_body]
pub(crate) fn store_node_mut(g: &mut Store, id: usize) -> (node: &mut CombNode<Index>)
    requires
        graph_nodes(*old(g)).dom().contains(id),
    ensures
        *node == graph_nodes(*old(g))[id],
        graph_nodes(*final(g)) == graph_nodes(*old(g)).insert(id, *final(node)),
        graph_out(*final(g)) == graph_out(*old(g)),
        graph_in(*final(g)) == graph_in(*old(g)),
        graph_edge_count(*final(g)) == graph_edge_count(*old(g)),
{
    &mut g[NodeIndex::new(id)]
}

/// `StableGraph::node_indices`: every live node once, by rising identifier.
#[verifier::external_body]
pub(crate) fn store_node_ids(g: &Store) -> (ids: Vec<usize>)
    ensures
        rising(ids@),
        forall|n: usize| ids@.contains(n) <==> graph_nodes(*g).dom().contains(n),
{
    g.node_indices().map(|n| n.index()).collect()
}

/// `StableGraph::externals` with `Outgoing`: the live nodes without outgoing
/// edges, each once, by rising identifier.
#[verifier::external_body]
pub(crate) fn store_sinks(g: &Store) -> (ids: Vec<usize>)
    ensures
        rising(ids@),
        forall|n: usize| ids@.contains(n) <==> is_sink(graph_out(*g), n),
{
    g.externals(Direction::Outgoing).map(|n| n.index()).collect()
}

/// `StableGraph::edges_directed` with `Incoming`: the incoming edges of a live
/// node in the graph's order, each as its source and its kind.
#[verifier::external_body]
pub(crate) fn store_incoming(g: &Store, id: usize) -> (links: Vec<Link>)
    requires
        graph_nodes(*g).dom().contains(id),
    ensures
        links@ == graph_in(*g)[id],
{
    g.edges_directed(NodeIndex::new(id), Direction::Incoming).map(
        |e| (e.source().index(), *e.weight()),
    ).collect()
}

/// `StableGraph::retain_nodes`, keeping the nodes marked reachable: the others
/// leave with every edge from or to them, and what stays keeps its identifier,
/// its weight and the order of its edges.
#[verifier::external_body]
pub(crate) fn store_sweep(g: &mut Store)
    ensures
        graph_nodes(*final(g)) == graph_nodes(*old(g)).restrict(kept(graph_nodes(*old(g)))),
        graph_out(*final(g)) == pruned(graph_out(*old(g)), kept(graph_nodes(*old(g)))),
        graph_in(*final(g)) == pruned(graph_in(*old(g)), kept(graph_nodes(*old(g)))),
        graph_edge_count(*final(g)) <= graph_edge_count(*old(g)),
{
    g.retain_nodes(|frozen, id| frozen[id].reachable);
}

/// `Visitable::visit_map` of a `StableGraph`: a visit map with all bits
/// clear, long enough for every live node.
#[verifier::external_body]
pub(crate) fn store_visit_map(g: &Store) -> (map: FixedBitSet)
    ensures
        forall|i: int| 0 <= i < bits(map).len() ==> !#[trigger] bits(map)[i],
        forall|n: usize| #[trigger] graph_nodes(*g).dom().contains(n) ==> n < bits(map).len(),
{
    g.visit_map()
}

/// `VisitMap::visit` on a `FixedBitSet`: sets the bit of a node and says
/// whether it was clear before. The call panics on a position beyond the
/// map's length.
#[verifier::external_body]
pub(crate) fn visit(map: &mut FixedBitSet, id: usize) -> (first: bool)
    requires
        id < bits(*old(map)).len(),
    ensures
        first == !bits(*old(map))[id as int],
        bits(*final(map)) == bits(*old(map)).update(id as int, true),
{
    map.visit(id)
}

/// `Dfs::new`: a search with nothing discovered and the start on its stack.
/// Its map of discovered nodes is the graph's visit map.
#[verifier::external_body]
pub(crate) fn dfs_new(g: &Store, start: usize) -> (dfs: Search)
    requires
        graph_nodes(*g).dom().contains(start),
    ensures
        dfs_stack(dfs) == seq![start],
        forall|i: int| 0 <= i < dfs_seen(dfs).len() ==> !#[trigger] dfs_seen(dfs)[i],
        forall|n: usize| #[trigger] graph_nodes(*g).dom().contains(n) ==> n < dfs_seen(dfs).len(),
{
    Dfs::new(g, NodeIndex::new(start))
}

/// `Dfs::next`: pops the stack down to the first node not yet discovered,
/// marks it, pushes those of its successors that are not discovered, and
/// yields it; or finds only discovered nodes, empties the stack and yields
/// nothing. Marking panics on a node beyond the map's length, so the stack
/// must hold none.
#[verifier::external_body]
pub(crate) fn dfs_next(dfs: &mut Search, g: &Store) -> (next: Option<usize>)
    requires
        forall|j: int|
            0 <= j < dfs_stack(*old(dfs)).len() ==> #[trigger] dfs_stack(*old(dfs))[j]
                < dfs_seen(*old(dfs)).len(),
    ensures
        match next {
            Some(n) => exists|k: int, pushed: Seq<usize>| #[trigger]
                dfs_yields(
                    dfs_stack(*old(dfs)),
                    dfs_seen(*old(dfs)),
                    graph_out(*g),
                    n,
                    k,
                    pushed,
                    dfs_stack(*final(dfs)),
                    dfs_seen(*final(dfs)),
                ),
            None => {
                &&& forall|j: int|
                    0 <= j < dfs_stack(*old(dfs)).len() ==> dfs_seen(*old(dfs))[#[trigger] dfs_stack(
                        *old(dfs),
                    )[j] as int]
                &&& dfs_stack(*final(dfs)).len() == 0
                &&& dfs_seen(*final(dfs)) == dfs_seen(*old(dfs))
            },
        },
{
    dfs.next(g).map(|n| n.index())
}

} // verus!
