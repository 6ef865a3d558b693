//! Combinator file parser.

use vstd::prelude::*;
use vstd::string::StringSliceAdditionalSpecFns;
use crate::comb::Prim;
use crate::expr::terms;
use crate::expr::CombFile;
use crate::expr::Expr;
use crate::expr::Index;
use crate::expr::Label;
use crate::expr::Program;
use crate::expr::Term;
use crate::grammar::all_defined;
use crate::grammar::app_at;
use crate::grammar::array_at;
use crate::grammar::define;
use crate::grammar::double_rest;
use crate::grammar::expr_at;
use crate::grammar::fail;
use crate::grammar::file_of;
use crate::grammar::finish;
use crate::grammar::float_at;
use crate::grammar::int_at;
use crate::grammar::items_at;
use crate::grammar::label_at;
use crate::grammar::leaf_at;
use crate::grammar::prim_at;
use crate::grammar::program_at;
use crate::grammar::skip;
use crate::grammar::string_body;
use crate::grammar::uint_at;
use crate::grammar::ParseError;
use crate::grammar::ParseErrorKind;
use crate::grammar::Pool;
use crate::grammar::Step;
use crate::lex::lemma_run_class;
use crate::lex::number;
use crate::lex::scan;
use crate::lex::Class;
use crate::sound::lemma_file_sound;

verus! {

/// `nom::number::complete::double` on bytes: where the input starts with a
/// number in `nom`'s syntax, the number of bytes behind it; where not,
/// `None`. The number itself is dropped: the library keeps its text.
#[verifier::external_body]
fn float_rest(input: &[u8]) -> (rest: Option<usize>)
    ensures
        rest == double_rest(input@),
{
    match nom::number::complete::double::<&[u8], nom::error::Error<&[u8]>>(input) {
        Ok((rest, _)) => Some(rest.len()),
        Err(_) => None,
    }
}

fn error<T>(kind: ParseErrorKind, pos: usize) -> (r: Result<T, ParseError>)
    ensures
        r == Err::<T, ParseError>(fail(kind, pos as int)),
{
    Err(ParseError { kind, offset: pos })
}

/// The bytes of `input` from `from` to `to`.
fn copy_range(input: &[u8], from: usize, to: usize) -> (bytes: Vec<u8>)
    requires
        from <= to <= input.len(),
    ensures
        bytes@ == input@.subrange(from as int, to as int),
{
    let mut bytes: Vec<u8> = Vec::new();
    let mut i = from;
    while i < to
        invariant
            from <= i <= to <= input.len(),
            bytes@ == input@.subrange(from as int, i as int),
        decreases to - i,
    {
        bytes.push(input[i]);
        i += 1;
        assert(bytes@ =~= input@.subrange(from as int, i as int));
    }
    bytes
}

/// Whether what a reader returned is what the grammar says: the same value,
/// read up to the same position, which lies behind `pos` and within the
/// input; or the same error.
spec fn reads<T>(
    r: Result<(T, usize), ParseError>,
    spec: Result<(T, int), ParseError>,
    pos: usize,
    len: usize,
) -> bool {
    match spec {
        Ok((value, end)) => r == Ok::<(T, usize), ParseError>((value, end as usize)) && pos < end
            <= len,
        Err(e) => r == Err::<(T, usize), ParseError>(e),
    }
}

/// As [`reads`], for a reader of byte strings.
spec fn reads_bytes(
    r: Result<(Vec<u8>, usize), ParseError>,
    spec: Result<(Seq<u8>, int), ParseError>,
    pos: usize,
    len: usize,
) -> bool {
    match spec {
        Ok((value, end)) => r matches Ok((v, e)) && v@ == value && e == end && pos < end <= len,
        Err(e) => r == Err::<(Vec<u8>, usize), ParseError>(e),
    }
}

/// As [`reads`], for a reader of expressions.
pub open spec fn reads_term(
    r: Result<(Expr, usize), ParseError>,
    spec: Result<(Term, int), ParseError>,
    pos: usize,
    len: usize,
) -> bool {
    match spec {
        Ok((value, end)) => r matches Ok((v, e)) && v@ == value && e == end && pos < end <= len,
        Err(e) => r == Err::<(Expr, usize), ParseError>(e),
    }
}

fn uinteger(input: &[u8], pos: usize) -> (r: Result<(usize, usize), ParseError>)
    requires
        pos <= input.len(),
    ensures
        reads(r, uint_at(input@, pos as int), pos, input.len()),
{
    let end = scan(input, pos, Class::Digit);
    if end == pos {
        return error(ParseErrorKind::Lexical, pos);
    }
    proof {
        assert forall|i: int| pos <= i < end implies 48 <= #[trigger] input@[i] <= 57 by {
            lemma_run_class(input@, pos as int, Class::Digit, i);
        }
    }
    match number(input, pos, end, usize::MAX as u64) {
        Some(value) => Ok((value as usize, end)),
        None => error(ParseErrorKind::Numeric, pos),
    }
}

fn integer(input: &[u8], pos: usize) -> (r: Result<(i64, usize), ParseError>)
    requires
        pos <= input.len(),
    ensures
        reads(r, int_at(input@, pos as int), pos, input.len()),
{
    let negative = pos < input.len() && input[pos] == 45;
    let start = if negative {
        pos + 1
    } else {
        pos
    };
    let end = scan(input, start, Class::Digit);
    if end == start {
        return error(ParseErrorKind::Lexical, pos);
    }
    proof {
        assert forall|i: int| start <= i < end implies 48 <= #[trigger] input@[i] <= 57 by {
            lemma_run_class(input@, start as int, Class::Digit, i);
        }
    }
    if negative {
        match number(input, start, end, 0x8000_0000_0000_0000) {
            Some(value) => {
                if value == 0x8000_0000_0000_0000 {
                    Ok((i64::MIN, end))
                } else {
                    Ok((-(value as i64), end))
                }
            },
            None => error(ParseErrorKind::Numeric, pos),
        }
    } else {
        match number(input, start, end, 0x7fff_ffff_ffff_ffff) {
            Some(value) => Ok((value as i64, end)),
            None => error(ParseErrorKind::Numeric, pos),
        }
    }
}

/// A string literal from behind its opening quote.
fn string_literal(input: &[u8], pos: usize) -> (r: Result<(Vec<u8>, usize), ParseError>)
    requires
        pos <= input.len(),
    ensures
        reads_bytes(r, string_body(input@, pos as int, Seq::empty()), pos, input.len()),
{
    let mut acc: Vec<u8> = Vec::new();
    let mut i = pos;
    loop
        invariant
            pos <= i <= input.len(),
            string_body(input@, pos as int, Seq::empty()) == string_body(input@, i as int, acc@),
        decreases input.len() - i,
    {
        if i >= input.len() {
            return error(ParseErrorKind::Lexical, i);
        }
        let b = input[i];
        if b == 34 {
            return Ok((acc, i + 1));
        } else if b == 92 {
            let end = scan(input, i + 1, Class::Digit);
            if end == i + 1 {
                return error(ParseErrorKind::Lexical, i);
            }
            proof {
                assert forall|k: int| i + 1 <= k < end implies 48 <= #[trigger] input@[k] <= 57 by {
                    lemma_run_class(input@, i + 1, Class::Digit, k);
                }
            }
            match number(input, i + 1, end, 255) {
                Some(value) => {
                    acc.push(value as u8);
                    i = end;
                },
                None => {
                    return error(ParseErrorKind::Numeric, i);
                },
            }
        } else {
            let end = scan(input, i + 1, Class::Plain);
            let ghost before = acc@;
            let mut k = i;
            while k < end
                invariant
                    i <= k <= end <= input.len(),
                    acc@ == before + input@.subrange(i as int, k as int),
                decreases end - k,
            {
                acc.push(input[k]);
                k += 1;
                assert(acc@ =~= before + input@.subrange(i as int, k as int));
            }
            i = end;
        }
    }
}

/// The token of a primitive.
fn prim_token(input: &[u8], pos: usize) -> (r: Result<(Expr, usize), ParseError>)
    requires
        pos <= input.len(),
    ensures
        reads_term(r, prim_at(input@, pos as int), pos, input.len()),
{
    let end = scan(input, pos, Class::Prim);
    if end == pos {
        return error(ParseErrorKind::Lexical, pos);
    }
    let token = copy_range(input, pos, end);
    match Prim::parse(token.as_slice()) {
        Some(p) => Ok((Expr::Prim(p), end)),
        None => Ok((Expr::Unknown(token), end)),
    }
}

/// A floating point literal whose `&` stands at `pos`, given what the reader
/// of numbers made of the bytes behind the `&`: `rest`, the number of bytes
/// it left unread, or `None` where it found no number.
pub fn float_literal(input: &[u8], pos: usize, rest: Option<usize>) -> (r: Result<
    (Expr, usize),
    ParseError,
>)
    requires
        pos < input.len(),
    ensures
        reads_term(r, float_at(input@, pos as int, rest), pos, input.len()),
{
    match rest {
        Some(rest) => {
            if rest < input.len() - (pos + 1) {
                let end = input.len() - rest;
                Ok((Expr::Float(copy_range(input, pos + 1, end)), end))
            } else {
                prim_token(input, pos)
            }
        },
        None => prim_token(input, pos),
    }
}

/// An expression without children.
fn leaf(input: &[u8], pos: usize, size: usize) -> (r: Result<(Expr, usize), ParseError>)
    requires
        pos < input.len(),
    ensures
        reads_term(r, leaf_at(input@, pos as int, size as nat), pos, input.len()),
{
    let b = input[pos];
    if b == 38 {
        let rest = float_rest(vstd::slice::slice_subrange(input, pos + 1, input.len()));
        float_literal(input, pos, rest)
    } else if b == 35 {
        match integer(input, pos + 1) {
            Ok((i, end)) => Ok((Expr::Int(i), end)),
            Err(e) => Err(e),
        }
    } else if b == 95 {
        match uinteger(input, pos + 1) {
            Ok((l, end)) => {
                if l < size {
                    Ok((Expr::Ref(l), end))
                } else {
                    error(ParseErrorKind::UnresolvedLabel, pos)
                }
            },
            Err(e) => Err(e),
        }
    } else if b == 34 {
        match string_literal(input, pos + 1) {
            Ok((bytes, end)) => Ok((Expr::String(bytes), end)),
            Err(e) => Err(e),
        }
    } else if b == 33 && pos + 1 < input.len() && input[pos + 1] == 34 {
        match string_literal(input, pos + 2) {
            Ok((bytes, end)) => Ok((Expr::Tick(bytes), end)),
            Err(e) => Err(e),
        }
    } else if b == 94 {
        let end = scan(input, pos + 1, Class::Alnum);
        if end == pos + 1 {
            error(ParseErrorKind::Lexical, pos + 1)
        } else {
            Ok((Expr::Ffi(copy_range(input, pos + 1, end)), end))
        }
    } else {
        prim_token(input, pos)
    }
}

/// The label of an application, if there is one.
fn label(input: &[u8], pos: usize, size: usize) -> (r: Result<(Option<Label>, usize), ParseError>)
    requires
        pos <= input.len(),
    ensures
        match label_at(input@, pos as int, size as nat) {
            Ok((l, end)) => r == Ok::<(Option<Label>, usize), ParseError>((l, end as usize)) && pos
                <= end <= input.len(),
            Err(e) => r == Err::<(Option<Label>, usize), ParseError>(e),
        },
{
    if pos < input.len() && input[pos] == 58 {
        match uinteger(input, pos + 1) {
            Ok((l, end)) => {
                if l < size {
                    Ok((Some(l), end))
                } else {
                    error(ParseErrorKind::UnresolvedLabel, pos)
                }
            },
            Err(e) => Err(e),
        }
    } else {
        Ok((None, pos))
    }
}

/// The pool that a body and a table of definitions amount to.
spec fn pool_of(body: Seq<Expr>, defs: Seq<Option<Index>>) -> Pool {
    Pool { body: terms(body), defs }
}

/// Whether what a reader of expressions returned and left is what the
/// grammar says.
spec fn steps(
    r: Result<(Index, usize), ParseError>,
    body: Seq<Expr>,
    defs: Seq<Option<Index>>,
    spec: Result<Step, ParseError>,
    pos: usize,
    len: usize,
) -> bool {
    match spec {
        Ok(step) => {
            &&& r == Ok::<(Index, usize), ParseError>((step.index, step.end as usize))
            &&& pool_of(body, defs) == step.pool
            &&& pos < step.end <= len
        },
        Err(e) => r == Err::<(Index, usize), ParseError>(e),
    }
}

/// Ends an expression: puts it at the end of the body and skips the white
/// space behind it.
fn close(input: &[u8], body: &mut Vec<Expr>, expr: Expr, end: usize) -> (r: (Index, usize))
    requires
        end <= input.len(),
    ensures
        final(body)@ == old(body)@.push(expr),
        r.0 == old(body)@.len(),
        r.1 == skip(input@, end as int),
        end <= r.1 <= input.len(),
{
    let index = body.len();
    body.push(expr);
    (index, scan(input, end, Class::Space))
}

impl Program {
    /// The expression at `pos`, after white space. It and the expressions
    /// under it go to the end of `body`, and `defs` learns their labels.
    fn parse_expr(
        input: &[u8],
        pos: usize,
        body: &mut Vec<Expr>,
        defs: &mut Vec<Option<Index>>,
    ) -> (r: Result<(Index, usize), ParseError>)
        requires
            pos <= input.len(),
        ensures
            final(defs)@.len() == old(defs)@.len(),
            steps(
                r,
                final(body)@,
                final(defs)@,
                expr_at(input@, pos as int, pool_of(old(body)@, old(defs)@)),
                pos,
                input.len(),
            ),
        decreases input.len() - pos, 1nat,
    {
        let p = scan(input, pos, Class::Space);
        if p >= input.len() {
            return error(ParseErrorKind::Lexical, p);
        }
        if input[p] == 40 {
            Program::parse_app(input, p, body, defs)
        } else if input[p] == 91 {
            Program::parse_array(input, p, body, defs)
        } else {
            match leaf(input, p, defs.len()) {
                Ok((expr, end)) => {
                    let ghost term = expr@;
                    let done = close(input, body, expr, end);
                    proof {
                        let pool = pool_of(old(body)@, old(defs)@);
                        assert(terms(body@) =~= pool.body.push(term));
                    }
                    Ok(done)
                },
                Err(e) => Err(e),
            }
        }
    }

    /// The application whose `(` stands at `pos`.
    fn parse_app(
        input: &[u8],
        pos: usize,
        body: &mut Vec<Expr>,
        defs: &mut Vec<Option<Index>>,
    ) -> (r: Result<(Index, usize), ParseError>)
        requires
            pos < input.len(),
        ensures
            final(defs)@.len() == old(defs)@.len(),
            steps(
                r,
                final(body)@,
                final(defs)@,
                app_at(input@, pos as int, pool_of(old(body)@, old(defs)@)),
                pos,
                input.len(),
            ),
        decreases input.len() - pos, 0nat,
    {
        let (f, end) = match Program::parse_expr(input, pos + 1, body, defs) {
            Ok(step) => step,
            Err(e) => {
                return Err(e);
            },
        };
        let (l, next) = match label(input, end, defs.len()) {
            Ok(l) => l,
            Err(e) => {
                return Err(e);
            },
        };
        let (a, end) = match Program::parse_expr(input, next, body, defs) {
            Ok(step) => step,
            Err(e) => {
                return Err(e);
            },
        };
        if !(end < input.len() && input[end] == 41) {
            return error(ParseErrorKind::Lexical, end);
        }
        let ghost read = pool_of(body@, defs@);
        if let Some(l) = l {
            defs.set(l, Some(a));
        }
        let done = close(input, body, Expr::App(f, l, a), end + 1);
        proof {
            let pool = define(read, l, a);
            assert(terms(body@) =~= pool.body.push(Term::App(f, l, a)));
            assert(pool_of(body@, defs@) == finish(
                input@,
                pool,
                Term::App(f, l, a),
                end + 1,
            ).pool);
        }
        Ok(done)
    }

    /// The array whose `[` stands at `pos`.
    fn parse_array(
        input: &[u8],
        pos: usize,
        body: &mut Vec<Expr>,
        defs: &mut Vec<Option<Index>>,
    ) -> (r: Result<(Index, usize), ParseError>)
        requires
            pos < input.len(),
        ensures
            final(defs)@.len() == old(defs)@.len(),
            steps(
                r,
                final(body)@,
                final(defs)@,
                array_at(input@, pos as int, pool_of(old(body)@, old(defs)@)),
                pos,
                input.len(),
            ),
        decreases input.len() - pos, 0nat,
    {
        let start = scan(input, pos + 1, Class::Space);
        let (n, next) = match uinteger(input, start) {
            Ok(n) => n,
            Err(e) => {
                return Err(e);
            },
        };
        let mut items: Vec<Index> = Vec::new();
        let mut at = next;
        let ghost whole = items_at(
            input@,
            next as int,
            pool_of(old(body)@, old(defs)@),
            Seq::empty(),
        );
        loop
            invariant
                pos < at <= input.len(),
                pos < next,
                defs@.len() == old(defs)@.len(),
                uint_at(input@, skip(input@, pos + 1)) == Ok::<(usize, int), ParseError>(
                    (n, next as int),
                ),
                whole == items_at(
                    input@,
                    next as int,
                    pool_of(old(body)@, old(defs)@),
                    Seq::empty(),
                ),
                whole == items_at(input@, at as int, pool_of(body@, defs@), items@),
            decreases input.len() - at,
        {
            let p = scan(input, at, Class::Space);
            if p >= input.len() {
                return error(ParseErrorKind::Lexical, p);
            }
            if input[p] == 93 {
                if items.len() != n {
                    return error(ParseErrorKind::ArrayMismatch, p);
                }
                let ghost term = Term::Array(n, items@);
                let ghost read = pool_of(body@, defs@);
                let done = close(input, body, Expr::Array(n, items), p + 1);
                proof {
                    assert(terms(body@) =~= read.body.push(term));
                }
                return Ok(done);
            }
            match Program::parse_expr(input, p, body, defs) {
                Ok((item, end)) => {
                    items.push(item);
                    at = end;
                },
                Err(e) => {
                    return Err(e);
                },
            }
        }
    }

    /// The program at `pos`, with `size` labels.
    #[verifier::loop_isolation(false)]
    fn parse(input: &[u8], pos: usize, size: usize) -> (r: Result<(Program, usize), ParseError>)
        requires
            pos <= input.len(),
        ensures
            match program_at(input@, pos as int, size) {
                Ok((program, end)) => r matches Ok((p, e)) && p@ == program && e == end && pos < end
                    <= input.len(),
                Err(e) => r matches Err(f) && f == e,
            },
    {
        let mut defs: Vec<Option<Index>> = Vec::new();
        let mut l: usize = 0;
        while l < size
            invariant
                l <= size,
                defs@ == Seq::new(l as nat, |l: int| None::<Index>),
            decreases size - l,
        {
            defs.push(None);
            l += 1;
            assert(defs@ =~= Seq::new(l as nat, |l: int| None::<Index>));
        }
        let mut body: Vec<Expr> = Vec::new();
        assert(terms(body@) =~= Seq::empty());
        assert(defs@ =~= Seq::new(size as nat, |l: int| None));
        let (root, end) = match Program::parse_expr(input, pos, &mut body, &mut defs) {
            Ok(step) => step,
            Err(e) => {
                return Err(e);
            },
        };
        let mut table: Vec<Index> = Vec::new();
        l = 0;
        while l < size
            invariant
                l <= size,
                defs@.len() == size,
                table@.len() == l,
                forall|k: int| 0 <= k < l ==> (#[trigger] defs@[k]) == Some(table@[k]),
            decreases size - l,
        {
            match defs[l] {
                Some(index) => {
                    table.push(index);
                },
                None => {
                    assert(!all_defined(defs@));
                    return error(ParseErrorKind::UnresolvedLabel, end);
                },
            }
            l += 1;
        }
        assert(table@ =~= defs@.map_values(|d: Option<Index>| d.unwrap()));
        Ok((Program { root, body, defs: table }, end))
    }
}

impl CombFile {
    /// Reads a combinator file.
    pub fn parse(input: &[u8]) -> (r: Result<CombFile, ParseError>)
        ensures
            match file_of(input@) {
                Ok(file) => r matches Ok(f) && f@ == file,
                Err(e) => r matches Err(f) && f == e,
            },
            r matches Ok(f) ==> f@.program.sound() && f@.program.defs.len() == f@.size,
    {
        let len = input.len();
        proof {
            assert(input@.len() == len);
            lemma_file_sound(input@);
        }
        let start = scan(input, 0, Class::Space);
        if !(start < input.len() && input[start] == 118) {
            return error(ParseErrorKind::Lexical, start);
        }
        let (major, dot) = match uinteger(input, start + 1) {
            Ok(n) => n,
            Err(e) => {
                return Err(e);
            },
        };
        if !(dot < input.len() && input[dot] == 46) {
            return error(ParseErrorKind::Lexical, dot);
        }
        let (minor, end) = match uinteger(input, dot + 1) {
            Ok(n) => n,
            Err(e) => {
                return Err(e);
            },
        };
        let at = scan(input, end, Class::Space);
        let (size, next) = match uinteger(input, at) {
            Ok(n) => n,
            Err(e) => {
                return Err(e);
            },
        };
        if size > input.len() {
            return error(ParseErrorKind::UnresolvedLabel, at);
        }
        let (program, end) = match Program::parse(input, next, size) {
            Ok(p) => p,
            Err(e) => {
                return Err(e);
            },
        };
        if end < input.len() {
            return error(ParseErrorKind::TrailingInput, end);
        }
        Ok(CombFile { version: (major, minor), size, program })
    }
}

impl core::str::FromStr for CombFile {
    type Err = ParseError;

    fn from_str(s: &str) -> (r: Result<Self, Self::Err>)
        ensures
            match file_of(s.spec_bytes()) {
                Ok(file) => r matches Ok(f) && f@ == file,
                Err(e) => r matches Err(f) && f == e,
            },
    {
        CombFile::parse(s.as_bytes())
    }
}

} // verus!
