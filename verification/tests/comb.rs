use std::str::FromStr;

use lice::comb::{
    Arith, Array, BuiltIn, CombFile, Combinator, Expr, FArith, Pointer, Prim, Program, IO,
};

#[test]
fn display_prims() {
    // Spot-check some random primitives
    assert_eq!(Combinator::A.to_string(), "A");
    assert_eq!(Combinator::SS.to_string(), "S'");
    assert_eq!(Combinator::CCB.to_string(), "C'B");
    assert_eq!(Combinator::K2.to_string(), "K2");

    assert_eq!(Prim::Combinator(Combinator::A).to_string(), "A");
    assert_eq!(Prim::Combinator(Combinator::SS).to_string(), "S'");
    assert_eq!(Prim::Combinator(Combinator::CCB).to_string(), "C'B");
    assert_eq!(Prim::Combinator(Combinator::K2).to_string(), "K2");

    assert_eq!(BuiltIn::Error.to_string(), "error");
    assert_eq!(BuiltIn::NoDefault.to_string(), "noDefault");

    assert_eq!(Arith::Add.to_string(), "+");
    assert_eq!(Arith::Neg.to_string(), "neg");
    assert_eq!(Arith::ULe.to_string(), "u<=");
    assert_eq!(Arith::ToInt.to_string(), "toInt");

    assert_eq!(IO::Bind.to_string(), "IO.>>=");
    assert_eq!(IO::Return.to_string(), "IO.return");
    assert_eq!(IO::StdOut.to_string(), "IO.stdout");
    assert_eq!(IO::PerformIO.to_string(), "IO.performIO");

    assert_eq!(Array::NewCAStringLen.to_string(), "newCAStringLen");
}

#[test]
fn parse_prims() {
    assert_eq!(Ok(Combinator::A), "A".parse());
    assert_eq!(Ok(Combinator::SS), "S'".parse());
    assert_eq!(Ok(Combinator::CCB), "C'B".parse());
    assert_eq!(Ok(Combinator::K2), "K2".parse());

    assert_eq!(Ok(Prim::Combinator(Combinator::A)), "A".parse());
    assert_eq!(Ok(Prim::Combinator(Combinator::SS)), "S'".parse());
    assert_eq!(Ok(Prim::Combinator(Combinator::CCB)), "C'B".parse());
    assert_eq!(Ok(Prim::Combinator(Combinator::K2)), "K2".parse());

    assert_eq!(Ok(Arith::Add), "+".parse());
    assert_eq!(Ok(Arith::Neg), "neg".parse());
    assert_eq!(Ok(Arith::ULe), "u<=".parse());
    assert_eq!(Ok(Arith::ToInt), "toInt".parse());

    assert!(Combinator::from_str("u<=").is_err());
    assert!(Arith::from_str("C'B").is_err());
}

#[test]
fn display_program() {
    // An arbitrarily constructed test case, deliberately featuring:
    // - at least one of each type of expr
    // - a root that doesn't have the last index
    // - negative floating and integer literals
    // - two app exprs that point to the same expr (without indirection)
    // - an otherwise confounding tree structure
    let p = CombFile {
        version: (6, 19),
        size: 1,
        program: Program {
            root: 10,
            body: vec![
                /* 0 */ Expr::Prim(Prim::Combinator(Combinator::K4)),
                /* 1 */ Expr::Prim(Prim::Combinator(Combinator::CCB)),
                /* 2 */ Expr::Prim(Prim::IO(IO::Bind)),
                /* 3 */ Expr::Int(-42),
                /* 4 */ Expr::Float("-4.2".as_bytes().to_vec()),
                /* 5 */ Expr::String("Hello world!\r\n".as_bytes().to_vec()),
                /* 6 */ Expr::Tick("Lyme's".as_bytes().to_vec()),
                /* 7 */ Expr::Ffi("fork".as_bytes().to_vec()),
                /* 8 */ Expr::Array(5, vec![3, 4, 5, 6, 7]),
                /* 9 */ Expr::Ffi("UNREACHABLE!".as_bytes().to_vec()),
                /* 10 */ Expr::App(2, Some(0), 13),
                /* 11 */ Expr::App(10, None, 14),
                /* 12 */ Expr::App(1, None, 2),
                /* 13 */ Expr::App(8, None, 0),
                /* 14 */ Expr::App(12, None, 15),
                /* 15 */ Expr::Ref(0),
            ],
            defs: vec![],
        },
    };

    assert_eq!(
        p.to_string(),
        r#"v6.19
1
(IO.>>= :0 ([5 #-42 &-4.2 "Hello world!\13\10" !"Lyme's" ^fork] K4))"#
    );
}

#[test]
fn every_token_reads_back() {
    let combinators = [
        Combinator::S, Combinator::K, Combinator::I, Combinator::B, Combinator::C, Combinator::A,
        Combinator::Y, Combinator::SS, Combinator::BB, Combinator::CC, Combinator::P,
        Combinator::R, Combinator::O, Combinator::U, Combinator::Z, Combinator::K2,
        Combinator::K3, Combinator::K4, Combinator::CCB,
    ];
    let builtins = [
        BuiltIn::Error, BuiltIn::NoDefault, BuiltIn::NoMatch, BuiltIn::Sequence, BuiltIn::Equal,
        BuiltIn::SEqual, BuiltIn::Compare, BuiltIn::SCmp, BuiltIn::ICmp, BuiltIn::Rnf,
    ];
    let ariths = [
        Arith::Add, Arith::Sub, Arith::Mul, Arith::Quot, Arith::Rem, Arith::Subtract,
        Arith::UQuot, Arith::URem, Arith::Neg, Arith::And, Arith::Or, Arith::Xor, Arith::Inv,
        Arith::Shl, Arith::Shr, Arith::AShr, Arith::Eq, Arith::Ne, Arith::Lt, Arith::Le,
        Arith::Gt, Arith::Ge, Arith::ULt, Arith::ULe, Arith::UGt, Arith::UGe, Arith::ToInt,
    ];
    let pointers = [Pointer::PEq, Pointer::PNull, Pointer::PAdd, Pointer::PSub, Pointer::ToPtr];
    let ios = [
        IO::Bind, IO::Then, IO::Return, IO::Serialize, IO::Deserialize, IO::StdIn, IO::StdOut,
        IO::StdErr, IO::GetArgs, IO::PerformIO, IO::GetTimeMilli, IO::Print, IO::Catch,
        IO::DynSym,
    ];
    let fariths = [
        FArith::FAdd, FArith::FSub, FArith::FMul, FArith::FDiv, FArith::FNeg, FArith::IToF,
        FArith::Feq, FArith::FNe, FArith::FLt, FArith::FLe, FArith::FGt, FArith::FGe,
        FArith::FShow, FArith::FRead,
    ];
    let arrays = [
        Array::Alloc, Array::Size, Array::Read, Array::Write, Array::Eq, Array::NewCAStringLen,
        Array::PeekCAString, Array::PeekCAStringLen,
    ];
    let mut all: Vec<Prim> = Vec::new();
    all.extend(combinators.iter().map(|&p| Prim::Combinator(p)));
    all.extend(builtins.iter().map(|&p| Prim::BuiltIn(p)));
    all.extend(ariths.iter().map(|&p| Prim::Arith(p)));
    all.extend(pointers.iter().map(|&p| Prim::Pointer(p)));
    all.extend(ios.iter().map(|&p| Prim::IO(p)));
    all.extend(fariths.iter().map(|&p| Prim::FArith(p)));
    all.extend(arrays.iter().map(|&p| Prim::Array(p)));
    assert_eq!(all.len(), 97);
    for p in all {
        assert_eq!(Prim::parse(p.token().as_bytes()), Some(p), "{}", p.token());
        assert_eq!(p.to_string().parse::<Prim>(), Ok(p));
    }
    for c in combinators {
        assert_eq!(Combinator::parse(c.token().as_bytes()), Some(c));
        assert_eq!(BuiltIn::parse(c.token().as_bytes()), None);
    }
    assert_eq!(Prim::parse(b"FooBar"), None);
    assert_eq!(Prim::parse(b""), None);
    assert_eq!(Prim::parse(b"S "), None);
    assert_eq!(Prim::parse(b"s"), None);
}
