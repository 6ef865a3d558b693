//! The grammar of combinator files, as functions on bytes.
//!
//! ```text
//! file   := "v" uint "." uint  uint  expr
//! expr   := app | array | float | int | ref | string | tick | ffi | prim
//! app    := "(" expr (":" uint)? expr ")"
//! array  := "[" uint expr* "]"
//! float  := "&" double
//! int    := "#" "-"? digits
//! ref    := "_" uint
//! string := "\"" (plain+ | "\\" digits)* "\""
//! tick   := "!" string
//! ffi    := "^" alnum+
//! prim   := (alnum | one of '.+-*/=<>&|!)+
//! ```
//!
//! Spaces, tabs and line ends may stand before a file, after the version and
//! the size, and before and after every expression. Each expression, once
//! read, goes to the end of the body, so that the body lists the expressions
//! in the order in which they end in the text.

use vstd::prelude::*;
use crate::comb::Prim;
use crate::expr::CombFileView;
use crate::expr::Index;
use crate::expr::Label;
use crate::expr::ProgramView;
use crate::expr::Term;
use crate::lex::dec_value;
use crate::lex::run;
use crate::lex::Class;

verus! {

/// What can be wrong with a combinator file.
#[derive(Debug, Clone, Copy, PartialEq, Eq, Structural)]
pub enum ParseErrorKind {
    /// The bytes match no production of the grammar.
    Lexical,
    /// A number is too large for its place.
    Numeric,
    /// An array holds more or fewer elements than it declares.
    ArrayMismatch,
    /// A label lies beyond the declared size, or no application defines it.
    UnresolvedLabel,
    /// Something other than white space follows the program.
    TrailingInput,
}

/// The first thing wrong with a combinator file, and where.
#[derive(Debug, Clone, Copy, PartialEq, Eq, Structural)]
pub struct ParseError {
    pub kind: ParseErrorKind,
    /// The position of the offending byte, counted from the start of the file.
    pub offset: usize,
}

/// The error of kind `kind` at position `pos`.
pub open spec fn fail(kind: ParseErrorKind, pos: int) -> ParseError {
    ParseError { kind, offset: pos as usize }
}

/// What `nom`'s `double` leaves unread of an input that starts with a number
/// in its syntax: the number of bytes after the number. `None` where the
/// input starts with no such number.
pub uninterp spec fn double_rest(input: Seq<u8>) -> Option<usize>;

/// The number of bytes from `pos` to the end of the input.
pub open spec fn left(s: Seq<u8>, pos: int) -> nat {
    if pos <= s.len() {
        (s.len() - pos) as nat
    } else {
        0
    }
}

/// The position after the white space that starts at `pos`.
pub open spec fn skip(s: Seq<u8>, pos: int) -> int {
    pos + run(s, pos, Class::Space)
}

/// An unsigned number at `pos`: a run of digits whose value fits `usize`.
pub open spec fn uint_at(s: Seq<u8>, pos: int) -> Result<(usize, int), ParseError> {
    let n = run(s, pos, Class::Digit);
    let value = dec_value(s.subrange(pos, pos + n));
    if n == 0 {
        Err(fail(ParseErrorKind::Lexical, pos))
    } else if value > usize::MAX {
        Err(fail(ParseErrorKind::Numeric, pos))
    } else {
        Ok((value as usize, pos + n))
    }
}

/// A signed number at `pos`: a minus sign or none, then a run of digits,
/// with a value that fits `i64`.
pub open spec fn int_at(s: Seq<u8>, pos: int) -> Result<(i64, int), ParseError> {
    let negative = 0 <= pos < s.len() && s[pos] == 45;
    let start = if negative {
        pos + 1
    } else {
        pos
    };
    let n = run(s, start, Class::Digit);
    let value = dec_value(s.subrange(start, start + n));
    if n == 0 {
        Err(fail(ParseErrorKind::Lexical, pos))
    } else if negative && value > 0x8000_0000_0000_0000 {
        Err(fail(ParseErrorKind::Numeric, pos))
    } else if !negative && value > 0x7fff_ffff_ffff_ffff {
        Err(fail(ParseErrorKind::Numeric, pos))
    } else if negative {
        Ok(((-value) as i64, start + n))
    } else {
        Ok((value as i64, start + n))
    }
}

/// The rest of a string literal from `pos`, behind its opening quote, with
/// `acc` the bytes read so far: runs of plain bytes stand for themselves, a
/// backslash and digits for the byte of that value, up to the closing quote.
pub open spec fn string_body(s: Seq<u8>, pos: int, acc: Seq<u8>) -> Result<
    (Seq<u8>, int),
    ParseError,
>
    decreases left(s, pos),
{
    if !(0 <= pos < s.len()) {
        Err(fail(ParseErrorKind::Lexical, pos))
    } else if s[pos] == 34 {
        Ok((acc, pos + 1))
    } else if s[pos] == 92 {
        let n = run(s, pos + 1, Class::Digit);
        let value = dec_value(s.subrange(pos + 1, pos + 1 + n));
        if n == 0 {
            Err(fail(ParseErrorKind::Lexical, pos))
        } else if value > 255 {
            Err(fail(ParseErrorKind::Numeric, pos))
        } else {
            string_body(s, pos + 1 + n, acc.push(value as u8))
        }
    } else {
        let n = 1 + run(s, pos + 1, Class::Plain);
        string_body(s, pos + n, acc + s.subrange(pos, pos + n))
    }
}

/// The token of a primitive at `pos`: the longest run of bytes that tokens
/// are made of. It names a primitive, or is kept as unknown.
pub open spec fn prim_at(s: Seq<u8>, pos: int) -> Result<(Term, int), ParseError> {
    let n = run(s, pos, Class::Prim);
    let token = s.subrange(pos, pos + n);
    if n == 0 {
        Err(fail(ParseErrorKind::Lexical, pos))
    } else {
        match Prim::spec_parse(token) {
            Some(p) => Ok((Term::Prim(p), pos + n)),
            None => Ok((Term::Unknown(token), pos + n)),
        }
    }
}

/// A floating point literal whose `&` stands at `pos`, given `rest`, the
/// number of bytes that the reader of numbers leaves unread of what follows
/// the `&`, or `None` where no number follows: the text of the number is
/// kept; without a number the `&` starts the token of a primitive.
pub open spec fn float_at(s: Seq<u8>, pos: int, rest: Option<usize>) -> Result<
    (Term, int),
    ParseError,
> {
    match rest {
        Some(rest) if rest < s.len() - (pos + 1) => Ok(
            (Term::Float(s.subrange(pos + 1, s.len() - rest)), s.len() - rest),
        ),
        _ => prim_at(s, pos),
    }
}

/// An expression without children at `pos`, where a byte stands that opens
/// neither an application nor an array. `size` is the number of labels.
pub open spec fn leaf_at(s: Seq<u8>, pos: int, size: nat) -> Result<(Term, int), ParseError> {
    let b = s[pos];
    if b == 38 {
        float_at(s, pos, double_rest(s.subrange(pos + 1, s.len() as int)))
    } else if b == 35 {
        match int_at(s, pos + 1) {
            Ok((i, end)) => Ok((Term::Int(i), end)),
            Err(e) => Err(e),
        }
    } else if b == 95 {
        match uint_at(s, pos + 1) {
            Ok((l, end)) => if l < size {
                Ok((Term::Ref(l), end))
            } else {
                Err(fail(ParseErrorKind::UnresolvedLabel, pos))
            },
            Err(e) => Err(e),
        }
    } else if b == 34 {
        match string_body(s, pos + 1, Seq::empty()) {
            Ok((bytes, end)) => Ok((Term::String(bytes), end)),
            Err(e) => Err(e),
        }
    } else if b == 33 && pos + 1 < s.len() && s[pos + 1] == 34 {
        match string_body(s, pos + 2, Seq::empty()) {
            Ok((bytes, end)) => Ok((Term::Tick(bytes), end)),
            Err(e) => Err(e),
        }
    } else if b == 94 {
        let n = run(s, pos + 1, Class::Alnum);
        if n == 0 {
            Err(fail(ParseErrorKind::Lexical, pos + 1))
        } else {
            Ok((Term::Ffi(s.subrange(pos + 1, pos + 1 + n)), pos + 1 + n))
        }
    } else {
        prim_at(s, pos)
    }
}

/// The label of an application at `pos`, if a colon stands there.
pub open spec fn label_at(s: Seq<u8>, pos: int, size: nat) -> Result<
    (Option<Label>, int),
    ParseError,
> {
    if 0 <= pos < s.len() && s[pos] == 58 {
        match uint_at(s, pos + 1) {
            Ok((l, end)) => if l < size {
                Ok((Some(l), end))
            } else {
                Err(fail(ParseErrorKind::UnresolvedLabel, pos))
            },
            Err(e) => Err(e),
        }
    } else {
        Ok((None, pos))
    }
}

/// What has been read so far: the body, and for each label the expression
/// that defines it, if one does yet.
pub struct Pool {
    pub body: Seq<Term>,
    pub defs: Seq<Option<Index>>,
}

/// An expression read: the pool with it at its end, its position in the
/// body, and the position in the text behind it and the white space after it.
pub struct Step {
    pub pool: Pool,
    pub index: Index,
    pub end: int,
}

/// The step that ends an expression: `term`, which ended at `end`, goes to
/// the end of the body, and the white space behind it is skipped.
pub open spec fn finish(s: Seq<u8>, pool: Pool, term: Term, end: int) -> Step {
    Step {
        pool: Pool { body: pool.body.push(term), defs: pool.defs },
        index: pool.body.len() as usize,
        end: skip(s, end),
    }
}

/// The pool after an application with label `label` and argument `arg`: a
/// label names the argument from now on, whatever it named before.
pub open spec fn define(pool: Pool, label: Option<Label>, arg: Index) -> Pool {
    match label {
        Some(l) => Pool { body: pool.body, defs: pool.defs.update(l as int, Some(arg)) },
        None => pool,
    }
}

/// The expression at `pos`, after white space.
pub open spec fn expr_at(s: Seq<u8>, pos: int, pool: Pool) -> Result<Step, ParseError>
    decreases left(s, pos), 1nat,
{
    let p = skip(s, pos);
    if !(0 <= p < s.len()) {
        Err(fail(ParseErrorKind::Lexical, p))
    } else if s[p] == 40 {
        app_at(s, p, pool)
    } else if s[p] == 91 {
        array_at(s, p, pool)
    } else {
        match leaf_at(s, p, pool.defs.len()) {
            Ok((term, end)) => Ok(finish(s, pool, term, end)),
            Err(e) => Err(e),
        }
    }
}

/// The application whose `(` stands at `pos`: the function, a label or none,
/// the argument, and `)`.
pub open spec fn app_at(s: Seq<u8>, pos: int, pool: Pool) -> Result<Step, ParseError>
    decreases left(s, pos), 0nat,
{
    if !(0 <= pos < s.len()) {
        Err(fail(ParseErrorKind::Lexical, pos))
    } else {
        match expr_at(s, pos + 1, pool) {
            Err(e) => Err(e),
            Ok(f) => match label_at(s, f.end, pool.defs.len()) {
                Err(e) => Err(e),
                Ok((label, next)) => if next <= pos {
                    Err(fail(ParseErrorKind::Lexical, next))
                } else {
                    match expr_at(s, next, f.pool) {
                        Err(e) => Err(e),
                        Ok(a) => if 0 <= a.end < s.len() && s[a.end] == 41 {
                            Ok(
                                finish(
                                    s,
                                    define(a.pool, label, a.index),
                                    Term::App(f.index, label, a.index),
                                    a.end + 1,
                                ),
                            )
                        } else {
                            Err(fail(ParseErrorKind::Lexical, a.end))
                        },
                    }
                },
            },
        }
    }
}

/// The array whose `[` stands at `pos`: the number of its elements, the
/// elements, and `]`.
pub open spec fn array_at(s: Seq<u8>, pos: int, pool: Pool) -> Result<Step, ParseError>
    decreases left(s, pos), 0nat,
{
    if !(0 <= pos < s.len()) {
        Err(fail(ParseErrorKind::Lexical, pos))
    } else {
        match uint_at(s, skip(s, pos + 1)) {
            Err(e) => Err(e),
            Ok((n, next)) => match items_at(s, next, pool, Seq::empty()) {
                Err(e) => Err(e),
                Ok((pool, items, close)) => if items.len() == n {
                    Ok(finish(s, pool, Term::Array(n, items), close + 1))
                } else {
                    Err(fail(ParseErrorKind::ArrayMismatch, close))
                },
            },
        }
    }
}

/// The elements of an array from `pos` up to its `]`, with `acc` those read
/// so far: the pool after them, their positions in the body, and the
/// position of the `]`.
pub open spec fn items_at(s: Seq<u8>, pos: int, pool: Pool, acc: Seq<Index>) -> Result<
    (Pool, Seq<Index>, int),
    ParseError,
>
    decreases left(s, pos), 2nat,
{
    let p = skip(s, pos);
    if !(0 <= p < s.len()) {
        Err(fail(ParseErrorKind::Lexical, p))
    } else if s[p] == 93 {
        Ok((pool, acc, p))
    } else {
        match expr_at(s, p, pool) {
            Err(e) => Err(e),
            Ok(item) => if item.end <= pos {
                Err(fail(ParseErrorKind::Lexical, item.end))
            } else {
                items_at(s, item.end, item.pool, acc.push(item.index))
            },
        }
    }
}

/// Whether every label has its definition.
pub open spec fn all_defined(defs: Seq<Option<Index>>) -> bool {
    forall|l: int| 0 <= l < defs.len() ==> (#[trigger] defs[l]) is Some
}

/// The program at `pos`, with `size` labels: its root expression, read into
/// an empty pool. Every label must have its definition by the end.
pub open spec fn program_at(s: Seq<u8>, pos: int, size: usize) -> Result<
    (ProgramView, int),
    ParseError,
> {
    match expr_at(s, pos, Pool { body: Seq::empty(), defs: Seq::new(size as nat, |l: int| None) }) {
        Err(e) => Err(e),
        Ok(root) => if all_defined(root.pool.defs) {
            Ok(
                (
                    ProgramView {
                        root: root.index,
                        body: root.pool.body,
                        defs: root.pool.defs.map_values(|d: Option<Index>| d.unwrap()),
                    },
                    root.end,
                ),
            )
        } else {
            Err(fail(ParseErrorKind::UnresolvedLabel, root.end))
        },
    }
}

/// The version at `pos`: `v`, the major number, a dot, the minor number.
pub open spec fn version_at(s: Seq<u8>, pos: int) -> Result<((usize, usize), int), ParseError> {
    if !(0 <= pos < s.len() && s[pos] == 118) {
        Err(fail(ParseErrorKind::Lexical, pos))
    } else {
        match uint_at(s, pos + 1) {
            Err(e) => Err(e),
            Ok((major, dot)) => if !(dot < s.len() && s[dot] == 46) {
                Err(fail(ParseErrorKind::Lexical, dot))
            } else {
                match uint_at(s, dot + 1) {
                    Err(e) => Err(e),
                    Ok((minor, end)) => Ok(((major, minor), end)),
                }
            },
        }
    }
}

/// The combinator file that the bytes `s` hold: the version, the size and
/// the program, and nothing but white space behind it. A size larger than
/// the file is long is refused where it stands: so many labels cannot all
/// have their definitions.
pub open spec fn file_of(s: Seq<u8>) -> Result<CombFileView, ParseError> {
    match version_at(s, skip(s, 0)) {
        Err(e) => Err(e),
        Ok((version, end)) => match uint_at(s, skip(s, end)) {
            Err(e) => Err(e),
            Ok((size, next)) => if size > s.len() {
                Err(fail(ParseErrorKind::UnresolvedLabel, skip(s, end)))
            } else {
                match program_at(s, next, size) {
                    Err(e) => Err(e),
                    Ok((program, end)) => if end < s.len() {
                        Err(fail(ParseErrorKind::TrailingInput, end))
                    } else {
                        Ok(CombFileView { version, size, program })
                    },
                }
            },
        },
    }
}

} // verus!
