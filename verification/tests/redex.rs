use lice::comb::{CombFile, Combinator, Expr, Prim, Program};
use lice::graph::CombGraph;
use petgraph::stable_graph::NodeIndex;

fn lower(text: &str) -> CombGraph<usize> {
    let file = CombFile::parse(text.as_bytes()).unwrap();
    file.program.to_graph().unwrap()
}

fn node_of(g: &CombGraph<usize>, i: usize) -> NodeIndex {
    g.g.node_indices().find(|&n| g.g[n].meta == i).unwrap()
}

fn redexes(g: &CombGraph<usize>) -> Vec<(usize, Combinator)> {
    let mut found: Vec<_> = g
        .g
        .node_indices()
        .filter_map(|n| g.g[n].redex.map(|c| (g.g[n].meta, c)))
        .collect();
    found.sort_by_key(|f| f.0);
    found
}

#[test]
fn arity_table() {
    assert_eq!(Combinator::K4.arity(), 5);
    assert_eq!(Combinator::S.arity(), 3);
    assert_eq!(Combinator::CCB.arity(), 4);
    assert_eq!(Combinator::Y.arity(), 1);
    let table = [
        (Combinator::S, 3),
        (Combinator::K, 2),
        (Combinator::I, 1),
        (Combinator::B, 3),
        (Combinator::C, 3),
        (Combinator::A, 2),
        (Combinator::Y, 1),
        (Combinator::SS, 4),
        (Combinator::BB, 4),
        (Combinator::CC, 4),
        (Combinator::P, 3),
        (Combinator::R, 3),
        (Combinator::O, 3),
        (Combinator::U, 2),
        (Combinator::Z, 3),
        (Combinator::K2, 3),
        (Combinator::K3, 4),
        (Combinator::K4, 5),
        (Combinator::CCB, 4),
    ];
    for (c, n) in table {
        assert_eq!(c.arity(), n);
    }
}

#[test]
fn no_redex_on_a_short_spine() {
    let mut g = lower(
        "v6.19\n1\n(IO.>>= :0 ([5 #-42 &-4.2 \"Hello world!\\13\\10\" !\"Lyme's\" ^fork] K4))",
    );
    g.mark_redexes();
    assert_eq!(redexes(&g), vec![]);
}

#[test]
fn redex_at_the_end_of_a_spine() {
    // K, I, (K I), S, ((K I) S)
    let mut g = lower("v1.0\n0\n((K I) S)");
    g.mark_redexes();
    assert_eq!(redexes(&g), vec![(4, Combinator::K)]);
    // a second run changes nothing
    g.mark_redexes();
    assert_eq!(redexes(&g), vec![(4, Combinator::K)]);
}

#[test]
fn redex_of_every_arity_one_head() {
    // I, K, (I K), Y, ((I K) Y): I fires at (I K) already
    let mut g = lower("v1.0\n0\n((I K) Y)");
    g.mark_redexes();
    assert_eq!(redexes(&g), vec![(2, Combinator::I)]);
}

#[test]
fn indirections_take_no_step() {
    // I, Y, (I :0 Y), _0, S, (_0 S), ((I :0 Y) (_0 S))
    let mut g = lower("v1.0\n1\n((I :0 Y) (_0 S))");
    g.mark_redexes();
    assert_eq!(redexes(&g), vec![(2, Combinator::I), (5, Combinator::Y)]);
}

#[test]
fn indirection_to_an_indirection() {
    // A reference to a reference to Y, applied.
    let p = Program {
        root: 4,
        body: vec![
            Expr::Prim(Prim::Combinator(Combinator::Y)),
            Expr::Ref(0),
            Expr::Ref(1),
            Expr::Int(1),
            Expr::App(2, None, 3),
        ],
        defs: vec![0, 1],
    };
    let mut g = CombGraph::from(&p);
    g.mark_redexes();
    assert_eq!(redexes(&g), vec![(4, Combinator::Y)]);
}

#[test]
fn shared_head_marks_every_spine() {
    // K applied twice through two references: both spines end in a redex.
    let p = Program {
        root: 9,
        body: vec![
            /* 0 */ Expr::Prim(Prim::Combinator(Combinator::K)),
            /* 1 */ Expr::Ref(0),
            /* 2 */ Expr::Ref(0),
            /* 3 */ Expr::Int(1),
            /* 4 */ Expr::App(1, None, 3),
            /* 5 */ Expr::App(4, None, 3),
            /* 6 */ Expr::App(2, None, 3),
            /* 7 */ Expr::App(6, None, 3),
            /* 8 */ Expr::App(5, None, 7),
            /* 9 */ Expr::App(8, None, 3),
        ],
        defs: vec![0],
    };
    let mut g = CombGraph::from(&p);
    g.mark_redexes();
    assert_eq!(redexes(&g), vec![(5, Combinator::K), (7, Combinator::K)]);
}

#[test]
fn redex_marks_survive_marking_and_gc() {
    let mut g = lower("v1.0\n0\n((K I) S)");
    g.mark_redexes();
    g.gc();
    assert_eq!(redexes(&g), vec![(4, Combinator::K)]);
    let root = node_of(&g, 4);
    assert_eq!(root.index(), g.root);
}
