use lice::comb::{CombFile, Combinator, Expr, Prim, Program};
use lice::layout::{NodeMetadata, Visit};

fn program(text: &str) -> Program {
    CombFile::parse(text.as_bytes()).unwrap().program
}

#[test]
fn walk_visits_children_first() {
    let p = program("v1.0\n1\n((I :0 K) _0)");
    let visits = p.walk().unwrap();
    assert_eq!(
        visits,
        vec![
            Visit { index: 0, depth: 2, slot: Some(1) },
            Visit { index: 1, depth: 2, slot: Some(2) },
            Visit { index: 2, depth: 1, slot: None },
            Visit { index: 3, depth: 1, slot: Some(3) },
            Visit { index: 4, depth: 0, slot: None },
        ]
    );
}

#[test]
fn metadata_keeps_the_last_visit() {
    // The expression at 0 is the function of the root and of its argument:
    // it is walked twice, and the deeper visit comes last.
    let p = Program {
        root: 2,
        body: vec![
            Expr::Prim(Prim::Combinator(Combinator::I)),
            Expr::App(0, None, 0),
            Expr::App(0, None, 1),
        ],
        defs: vec![],
    };
    let visits = p.walk().unwrap();
    assert_eq!(visits.len(), 5);
    assert_eq!(visits[0], Visit { index: 0, depth: 1, slot: Some(1) });
    assert_eq!(visits[2], Visit { index: 0, depth: 2, slot: Some(3) });
    let metadata = p.build_metadata().unwrap();
    assert_eq!(
        metadata,
        vec![
            NodeMetadata { height: 0, depth: 2 },
            NodeMetadata { height: 0, depth: 1 },
            NodeMetadata { height: 0, depth: 0 },
        ]
    );
}

#[test]
fn metadata_of_an_array() {
    let p = program("v1.0\n0\n[3 I [0] K]");
    let metadata = p.build_metadata().unwrap();
    // I, [0], K, [3 ..]
    assert_eq!(metadata.iter().map(|m| m.depth).collect::<Vec<_>>(), vec![1, 1, 1, 0]);
    let visits = p.walk().unwrap();
    assert_eq!(visits[1], Visit { index: 1, depth: 1, slot: None });
    assert_eq!(visits[2], Visit { index: 2, depth: 1, slot: Some(2) });
}

#[test]
fn unvisited_expressions_keep_depth_zero() {
    let p = Program {
        root: 0,
        body: vec![Expr::Int(1), Expr::Int(2)],
        defs: vec![],
    };
    assert_eq!(
        p.build_metadata().unwrap(),
        vec![NodeMetadata { height: 0, depth: 0 }, NodeMetadata { height: 0, depth: 0 }]
    );
}

#[test]
fn walk_fails_on_a_circle_and_outside_the_body() {
    let circle = Program { root: 0, body: vec![Expr::App(0, None, 0)], defs: vec![] };
    assert!(circle.walk().is_none());
    assert!(circle.build_metadata().is_none());
    assert!(circle.text().is_none());
    let open = Program { root: 0, body: vec![Expr::App(1, None, 2)], defs: vec![] };
    assert!(open.walk().is_none());
    assert!(open.text().is_none());
    let empty = Program { root: 0, body: vec![], defs: vec![] };
    assert!(empty.walk().is_none());
    assert!(empty.text().is_none());
}
