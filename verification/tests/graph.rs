use lice::comb::{CombFile, Combinator, Expr, Prim, Program};
use lice::graph::{CombEdge, CombGraph};
use petgraph::stable_graph::NodeIndex;
use petgraph::visit::EdgeRef;
use petgraph::Direction;

fn lower(text: &str) -> (Program, CombGraph<usize>) {
    let file = CombFile::parse(text.as_bytes()).unwrap();
    let graph = file.program.to_graph().unwrap();
    (file.program, graph)
}

/// The node that stands for the expression at position `i`.
fn node_of(g: &CombGraph<usize>, i: usize) -> NodeIndex {
    let mut found = g.g.node_indices().filter(|&n| g.g[n].meta == i);
    let n = found.next().unwrap();
    assert!(found.next().is_none());
    n
}

/// The outgoing edges of a node in the order in which they were added.
fn out_edges(g: &CombGraph<usize>, n: NodeIndex) -> Vec<(CombEdge, usize)> {
    let mut edges: Vec<_> = g
        .g
        .edges_directed(n, Direction::Outgoing)
        .map(|e| (*e.weight(), g.g[e.target()].meta))
        .collect();
    edges.reverse();
    edges
}

#[test]
fn lower_shared_reference() {
    let (p, g) = lower("v1.0\n1\n((I :0 K) _0)");
    assert_eq!(g.g.node_count(), 5);
    assert_eq!(g.g.edge_count(), 5);
    assert_eq!(g.g[NodeIndex::new(g.root)].meta, p.root);
    // the reference points at the node that is the argument of the labeled application
    let labeled = node_of(&g, 2);
    let reference = node_of(&g, 3);
    assert_eq!(out_edges(&g, labeled), vec![(CombEdge::Fun, 0), (CombEdge::Arg, 1)]);
    assert_eq!(out_edges(&g, reference), vec![(CombEdge::Ind, 1)]);
    let arg = g
        .g
        .edges_directed(labeled, Direction::Outgoing)
        .find(|e| *e.weight() == CombEdge::Arg)
        .unwrap()
        .target();
    let ind = g.g.edges_directed(reference, Direction::Outgoing).next().unwrap().target();
    assert_eq!(arg, ind);
    assert_eq!(g.g.edges_directed(arg, Direction::Incoming).count(), 2);
}

#[test]
fn lower_gives_every_node_its_edges() {
    let (p, g) = lower("v6.19\n1\n(IO.>>= :0 ([5 #-42 &-4.2 \"Hello world!\\13\\10\" !\"Lyme's\" ^fork] K4))");
    assert_eq!(g.g.node_count(), p.body.len());
    for i in 0..p.body.len() {
        let n = node_of(&g, i);
        assert!(g.g[n].reachable);
        assert_eq!(g.g[n].redex, None);
        let edges = out_edges(&g, n);
        match &p.body[i] {
            Expr::App(f, _, a) => assert_eq!(edges, vec![(CombEdge::Fun, *f), (CombEdge::Arg, *a)]),
            Expr::Array(n, v) => {
                assert_eq!(edges.len(), *n);
                let want: Vec<_> = v.iter().map(|&e| (CombEdge::Arr, e)).collect();
                assert_eq!(edges, want);
            }
            Expr::Ref(r) => assert_eq!(edges, vec![(CombEdge::Ind, p.defs[*r])]),
            _ => assert!(edges.is_empty()),
        }
    }
}

#[test]
fn lower_forward_reference() {
    // The root points forward to expressions that stand later in the body.
    let p = Program {
        root: 0,
        body: vec![
            Expr::App(2, None, 1),
            Expr::Ref(0),
            Expr::Prim(Prim::Combinator(Combinator::Y)),
        ],
        defs: vec![0],
    };
    let g = CombGraph::from(&p);
    assert_eq!(g.g.node_count(), 3);
    assert_eq!(out_edges(&g, node_of(&g, 0)), vec![(CombEdge::Fun, 2), (CombEdge::Arg, 1)]);
    assert_eq!(out_edges(&g, node_of(&g, 1)), vec![(CombEdge::Ind, 0)]);
    assert!(matches!(g.g[node_of(&g, 2)].expr, Expr::Prim(Prim::Combinator(Combinator::Y))));
}

#[test]
fn to_graph_refuses_an_open_program() {
    let p = Program { root: 0, body: vec![Expr::App(0, None, 7)], defs: vec![] };
    assert!(!p.fits());
    assert!(p.to_graph().is_none());
    let q = Program { root: 0, body: vec![Expr::Array(2, vec![0])], defs: vec![] };
    assert!(q.to_graph().is_none());
    let r = Program { root: 1, body: vec![Expr::Ref(0)], defs: vec![0] };
    assert!(r.to_graph().is_none());
}

#[test]
fn unknown_primitive_is_a_leaf() {
    let (_, g) = lower("v1.0\n0\nFooBar");
    assert_eq!(g.g.node_count(), 1);
    assert_eq!(g.g.edge_count(), 0);
}

#[test]
fn mark_finds_what_the_root_reaches() {
    // position 3 is defined by nothing and reached by nothing
    let p = Program {
        root: 2,
        body: vec![
            Expr::Prim(Prim::Combinator(Combinator::I)),
            Expr::Prim(Prim::Combinator(Combinator::K)),
            Expr::App(0, None, 1),
            Expr::App(2, None, 4),
            Expr::Ffi(b"lost".to_vec()),
        ],
        defs: vec![],
    };
    let mut g = CombGraph::from(&p);
    g.mark();
    for i in 0..5 {
        assert_eq!(g.g[node_of(&g, i)].reachable, i < 3, "position {}", i);
    }
    g.mark();
    for i in 0..5 {
        assert_eq!(g.g[node_of(&g, i)].reachable, i < 3, "position {}", i);
    }
    assert_eq!(g.g.node_count(), 5);
}

#[test]
fn gc_removes_the_unreachable_and_keeps_identifiers() {
    // The label names the application at 3, and no reference names the label.
    let p = Program {
        root: 2,
        body: vec![
            Expr::Prim(Prim::Combinator(Combinator::I)),
            Expr::Prim(Prim::Combinator(Combinator::K)),
            Expr::App(0, None, 1),
            Expr::App(2, None, 4),
            Expr::Ffi(b"lost".to_vec()),
        ],
        defs: vec![3],
    };
    let mut g = CombGraph::from(&p);
    let before: Vec<_> = (0..3).map(|i| node_of(&g, i)).collect();
    g.gc();
    assert_eq!(g.g.node_count(), 3);
    assert_eq!(g.g.edge_count(), 2);
    for i in 0..3 {
        assert_eq!(node_of(&g, i), before[i]);
        assert!(g.g[before[i]].reachable);
    }
    // the edge from the lost application is gone with it
    assert_eq!(g.g.edges_directed(before[2], Direction::Incoming).count(), 0);
    g.gc();
    assert_eq!(g.g.node_count(), 3);
    assert_eq!(g.g.edge_count(), 2);
}

#[test]
fn gc_preserves_a_shared_definition() {
    let (_, mut g) = lower("v1.0\n1\n((I :0 K) _0)");
    g.gc();
    assert_eq!(g.g.node_count(), 5);
    assert_eq!(g.g.edge_count(), 5);
}

#[test]
fn cycle_through_label() {
    let (p, mut g) = lower("v1.0\n1\n(Y :0 (K _0))");
    // Y, K, _0, (K _0), (Y :0 (K _0))
    assert_eq!(p.body.len(), 5);
    assert_eq!(p.defs, vec![3]);
    let inner = node_of(&g, 3);
    let reference = node_of(&g, 2);
    assert_eq!(out_edges(&g, inner), vec![(CombEdge::Fun, 1), (CombEdge::Arg, 2)]);
    assert_eq!(out_edges(&g, reference), vec![(CombEdge::Ind, 3)]);
    g.mark();
    assert!(g.g.node_indices().all(|n| g.g[n].reachable));
    g.gc();
    assert_eq!(g.g.node_count(), 5);
    assert_eq!(g.g.edge_count(), 5);
    assert_eq!(out_edges(&g, reference), vec![(CombEdge::Ind, 3)]);
}

#[test]
fn minimal_program_graph() {
    let (p, mut g) = lower("v1.0\n0\nI");
    assert_eq!(g.g.node_count(), 1);
    assert_eq!(g.g.edge_count(), 0);
    let root = NodeIndex::new(g.root);
    assert!(matches!(g.g[root].expr, Expr::Prim(Prim::Combinator(Combinator::I))));
    assert_eq!(g.g[root].meta, p.root);
    g.gc();
    assert_eq!(g.g.node_count(), 1);
}

#[test]
fn node_map_keeps_all_but_meta() {
    let (_, g) = lower("v1.0\n0\n(S K)");
    let node = &g.g[NodeIndex::new(g.root)];
    let mapped = node.map(|&i| i as u64 + 40);
    assert_eq!(mapped.meta, 42);
    assert_eq!(mapped.reachable, node.reachable);
    assert_eq!(mapped.redex, node.redex);
    assert!(matches!(mapped.expr, Expr::App(0, None, 1)));
}
