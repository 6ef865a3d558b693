use lice::comb::{CombFile, Expr, Program};
use lice::graph::CombGraph;

#[test]
fn leaves_are_the_nodes_without_outgoing_edges() {
    let file = CombFile::parse(b"v1.0\n1\n((I :0 K) _0)").unwrap();
    let g = file.program.to_graph().unwrap();
    let leaves = g.leaves();
    let mut metas: Vec<_> = leaves
        .iter()
        .map(|&n| g.g[petgraph::stable_graph::NodeIndex::new(n)].meta)
        .collect();
    metas.sort();
    assert_eq!(metas, vec![0, 1]);
    assert!(leaves.windows(2).all(|w| w[0] < w[1]));
}

#[test]
fn print_leaves_reports_each_leaf() {
    let p = Program {
        root: 2,
        body: vec![
            Expr::Int(-7),
            Expr::String(b"a\n".to_vec()),
            Expr::App(0, None, 1),
            Expr::Array(0, vec![]),
            Expr::Unknown(b"Foo".to_vec()),
        ],
        defs: vec![],
    };
    let mut g = CombGraph::from(&p);
    assert_eq!(
        String::from_utf8(g.print_leaves()).unwrap(),
        "#-7: reachable=true\n\"a\\10\": reachable=true\n[0]: reachable=true\n?!Foo: reachable=true\n"
    );
    g.mark();
    assert_eq!(
        String::from_utf8(g.print_leaves()).unwrap(),
        "#-7: reachable=true\n\"a\\10\": reachable=true\n[0]: reachable=false\n?!Foo: reachable=false\n"
    );
}

#[test]
fn labels_of_inner_nodes() {
    assert_eq!(Expr::App(0, None, 1).label(), b"@");
    assert_eq!(Expr::Ref(3).label(), b"*");
    assert_eq!(Expr::Array(12, vec![]).label(), b"[12]");
    assert_eq!(Expr::Float(b"1.5".to_vec()).label(), b"&1.5");
}
