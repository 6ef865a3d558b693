use lice::comb::{CombFile, Combinator, Expr, Prim, IO};
use lice::grammar::{ParseError, ParseErrorKind};

fn parse(text: &str) -> Result<CombFile, ParseError> {
    CombFile::parse(text.as_bytes())
}

fn kind_at(text: &str) -> (ParseErrorKind, usize) {
    let e = parse(text).unwrap_err();
    (e.kind, e.offset)
}

#[test]
fn minimal_program() {
    let text = "v1.0\n0\nI";
    let file = parse(text).unwrap();
    assert_eq!(file.version, (1, 0));
    assert_eq!(file.size, 0);
    assert_eq!(file.program.body.len(), 1);
    assert_eq!(file.program.root, 0);
    assert!(file.program.defs.is_empty());
    assert!(matches!(
        file.program.body[0],
        Expr::Prim(Prim::Combinator(Combinator::I))
    ));
    assert_eq!(file.to_string(), text);
    assert_eq!(file.text().unwrap(), text.as_bytes());
}

#[test]
fn labeled_reference() {
    let file = parse("v1.0\n1\n((I :0 K) _0)").unwrap();
    let body = &file.program.body;
    assert_eq!(body.len(), 5);
    assert!(matches!(body[0], Expr::Prim(Prim::Combinator(Combinator::I))));
    assert!(matches!(body[1], Expr::Prim(Prim::Combinator(Combinator::K))));
    assert!(matches!(body[2], Expr::App(0, Some(0), 1)));
    assert!(matches!(body[3], Expr::Ref(0)));
    assert!(matches!(body[4], Expr::App(2, None, 3)));
    assert_eq!(file.program.defs, vec![1]);
    assert_eq!(file.program.root, 4);
}

#[test]
fn array_with_mixed_leaves_round_trips() {
    let text = "v6.19\n1\n(IO.>>= :0 ([5 #-42 &-4.2 \"Hello world!\\13\\10\" !\"Lyme's\" ^fork] K4))";
    let file = parse(text).unwrap();
    assert_eq!(file.version, (6, 19));
    assert_eq!(file.size, 1);
    let body = &file.program.body;
    assert_eq!(body.len(), 10);
    assert!(matches!(body[0], Expr::Prim(Prim::IO(IO::Bind))));
    assert!(matches!(body[1], Expr::Int(-42)));
    assert!(matches!(&body[2], Expr::Float(f) if f == b"-4.2"));
    assert!(matches!(&body[3], Expr::String(s) if s == b"Hello world!\r\n"));
    assert!(matches!(&body[4], Expr::Tick(s) if s == b"Lyme's"));
    assert!(matches!(&body[5], Expr::Ffi(s) if s == b"fork"));
    assert!(matches!(&body[6], Expr::Array(5, v) if v == &vec![1, 2, 3, 4, 5]));
    assert!(matches!(body[7], Expr::Prim(Prim::Combinator(Combinator::K4))));
    assert!(matches!(body[8], Expr::App(6, None, 7)));
    // The labeled application ends last, so it is the root, and the label
    // names its argument.
    assert!(matches!(body[9], Expr::App(0, Some(0), 8)));
    assert_eq!(file.program.root, 9);
    assert_eq!(file.program.defs, vec![8]);
    assert_eq!(file.to_string(), text);
}

#[test]
fn unknown_primitive_is_kept() {
    let file = parse("v1.0\n0\nFooBar").unwrap();
    assert!(matches!(&file.program.body[0], Expr::Unknown(t) if t == b"FooBar"));
    assert_eq!(file.program.to_string(), "?!FooBar");
}

#[test]
fn white_space_between_tokens() {
    let file = parse("  v1.0 \t 1 \r\n ( I\n:0   K ) \n").unwrap();
    assert_eq!(file.to_string(), "v1.0\n1\n(I :0 K)");
}

#[test]
fn longest_token_wins() {
    let file = parse("v1.0\n0\n(S' C'B)").unwrap();
    assert!(matches!(file.program.body[0], Expr::Prim(Prim::Combinator(Combinator::SS))));
    assert!(matches!(file.program.body[1], Expr::Prim(Prim::Combinator(Combinator::CCB))));
}

#[test]
fn escapes_and_integers() {
    let file = parse("v0.1\n0\n[3 \"\\0\\255a\\09\" #-9223372036854775808 #9223372036854775807]").unwrap();
    let body = &file.program.body;
    assert!(matches!(&body[0], Expr::String(s) if s == &vec![0u8, 255, b'a', 9]));
    assert!(matches!(body[1], Expr::Int(i64::MIN)));
    assert!(matches!(body[2], Expr::Int(i64::MAX)));
    assert_eq!(
        file.to_string(),
        "v0.1\n0\n[3 \"\\0\\255a\\9\" #-9223372036854775808 #9223372036854775807]"
    );
}

#[test]
fn float_forms() {
    let file = parse("v0.1\n0\n[4 &1e5 &.5 &-0.25E-3 &inf]").unwrap();
    let body = &file.program.body;
    assert!(matches!(&body[0], Expr::Float(f) if f == b"1e5"));
    assert!(matches!(&body[1], Expr::Float(f) if f == b".5"));
    assert!(matches!(&body[2], Expr::Float(f) if f == b"-0.25E-3"));
    assert!(matches!(&body[3], Expr::Float(f) if f == b"inf"));
}

#[test]
fn ampersand_without_number_is_a_token() {
    let file = parse("v0.1\n0\n&x").unwrap();
    assert!(matches!(&file.program.body[0], Expr::Unknown(t) if t == b"&x"));
}

#[test]
fn later_label_overwrites() {
    let file = parse("v1.0\n1\n((I :0 K) (S :0 Y))").unwrap();
    assert_eq!(file.program.defs, vec![4]);
}

#[test]
fn lexical_errors() {
    assert_eq!(kind_at(""), (ParseErrorKind::Lexical, 0));
    assert_eq!(kind_at("x1.0 0 I"), (ParseErrorKind::Lexical, 0));
    assert_eq!(kind_at("v1 0 I"), (ParseErrorKind::Lexical, 2));
    assert_eq!(kind_at("v1.0 0 "), (ParseErrorKind::Lexical, 7));
    assert_eq!(kind_at("v1.0 0 (I K"), (ParseErrorKind::Lexical, 11));
    assert_eq!(kind_at("v1.0 0 (I K]"), (ParseErrorKind::Lexical, 11));
    assert_eq!(kind_at("v1.0 0 \"abc"), (ParseErrorKind::Lexical, 11));
    assert_eq!(kind_at("v1.0 0 \"a\\x\""), (ParseErrorKind::Lexical, 9));
    assert_eq!(kind_at("v1.0 0 #x"), (ParseErrorKind::Lexical, 8));
    assert_eq!(kind_at("v1.0 0 ^-"), (ParseErrorKind::Lexical, 8));
    assert_eq!(kind_at("v1.0 0 )"), (ParseErrorKind::Lexical, 7));
}

#[test]
fn numeric_errors() {
    assert_eq!(kind_at("v1.0 0 \"\\256\""), (ParseErrorKind::Numeric, 8));
    assert_eq!(kind_at("v1.0 0 #9223372036854775808"), (ParseErrorKind::Numeric, 8));
    assert_eq!(kind_at("v1.0 0 #-9223372036854775809"), (ParseErrorKind::Numeric, 8));
    assert_eq!(
        kind_at("v99999999999999999999999999.0 0 I"),
        (ParseErrorKind::Numeric, 1)
    );
}

#[test]
fn array_mismatch() {
    assert_eq!(kind_at("v1.0 0 [2 I]"), (ParseErrorKind::ArrayMismatch, 11));
    assert_eq!(kind_at("v1.0 0 [0 I]"), (ParseErrorKind::ArrayMismatch, 11));
    assert!(parse("v1.0 0 [0]").is_ok());
}

#[test]
fn unresolved_labels() {
    // a reference beyond the size
    assert_eq!(kind_at("v1.0 1 (I :0 _1)"), (ParseErrorKind::UnresolvedLabel, 13));
    // a definition beyond the size
    assert_eq!(kind_at("v1.0 1 (I :1 K)"), (ParseErrorKind::UnresolvedLabel, 10));
    // a label that nothing defines
    assert_eq!(kind_at("v1.0 1 (I K)"), (ParseErrorKind::UnresolvedLabel, 12));
    // more labels than the file has bytes
    assert_eq!(kind_at("v1.0 1000 I"), (ParseErrorKind::UnresolvedLabel, 5));
}

#[test]
fn trailing_input() {
    assert_eq!(kind_at("v1.0 0 I K"), (ParseErrorKind::TrailingInput, 9));
    assert!(parse("v1.0 0 I \n\t ").is_ok());
}

#[test]
fn from_str_reads_a_file() {
    let file: CombFile = "v1.0\n0\nI".parse().unwrap();
    assert_eq!(file.size, 0);
    assert!("v1.0\n0\n".parse::<CombFile>().is_err());
}

#[test]
fn text_of_a_file_reads_back_as_the_file() {
    let inputs = [
        "v1.0\n0\nI",
        "  v1.0 \t 1 \r\n ( I\n:0   K ) \n",
        "v1.0\n1\n((I :0 K) _0)",
        "v1.0\n1\n(Y :0 (K _0))",
        "v12.7 3 (S :2 ([4 #-12 \"a b\\0c\\200\" !\"\" ^x9] :1 (B' :0 u<=)))",
        "v0.0 0 [3 [0] [1 [0]] (IO.>>= A.==)]",
        "v0.0 2 ((+ :0 -) (* :1 (_1 _0)))",
    ];
    for input in inputs {
        let first = CombFile::parse(input.as_bytes()).unwrap();
        let text = first.text().unwrap();
        let second = CombFile::parse(&text).unwrap();
        assert_eq!(second.version, first.version);
        assert_eq!(second.size, first.size);
        assert_eq!(second.program.root, first.program.root);
        assert_eq!(second.program.defs, first.program.defs);
        assert_eq!(second.program.body.len(), first.program.body.len());
        assert_eq!(second.text().unwrap(), text);
    }
}

#[test]
fn strings_that_do_not_read_back() {
    // a quote in a string is written bare
    let file = CombFile::parse(b"v1.0 0 \"\\34\"").unwrap();
    assert_eq!(file.to_string(), "v1.0\n0\n\"\"\"");
    assert!(CombFile::parse(file.to_string().as_bytes()).is_err());
    // a digit behind a byte that is written as a number runs into the number
    let file = CombFile::parse(b"v1.0 0 \"\\1\\48\"").unwrap();
    assert_eq!(file.to_string(), "v1.0\n0\n\"\\10\"");
    let again = CombFile::parse(file.to_string().as_bytes()).unwrap();
    assert!(matches!(&again.program.body[0], Expr::String(s) if s == &vec![10u8]));
}

#[test]
fn unknown_tokens_are_listed() {
    let file = parse("v1.0 0 [4 FooBar I s' K]").unwrap();
    assert_eq!(file.program.unknowns(), vec![0, 2]);
    assert!(parse("v1.0 0 I").unwrap().program.unknowns().is_empty());
}
