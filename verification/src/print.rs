//! The textual form of a program: the grammar that the parser reads, written
//! back out by following the body from the root.

use vstd::prelude::*;
use crate::expr::CombFile;
use crate::expr::CombFileView;
use crate::expr::Expr;
use crate::expr::Index;
use crate::expr::Program;
use crate::expr::ProgramView;
use crate::expr::Term;
use crate::text::ascii;
use crate::text::dec;
use crate::text::dec_signed;
use crate::text::push_bytes;
use crate::text::push_dec;
use crate::text::push_dec_signed;
use crate::text::str_bytes;
use crate::text::string_of;
use crate::text::chars;
use crate::text::is_ascii_bytes;
use crate::comb::Prim;

verus! {

/// Whether a byte of a string literal is written as itself: printable ASCII.
pub open spec fn is_verbatim(b: u8) -> bool {
    0x20 <= b <= 0x7e
}

/// One byte of a string literal as written: itself, or a backslash and its
/// decimal value.
pub open spec fn escaped_byte(b: u8) -> Seq<u8> {
    if is_verbatim(b) {
        seq![b]
    } else {
        seq![92u8] + dec(b as nat)
    }
}

/// The bytes of a string literal as written between its quotes.
pub open spec fn escaped(s: Seq<u8>) -> Seq<u8>
    decreases s.len(),
{
    if s.len() == 0 {
        Seq::empty()
    } else {
        escaped(s.drop_last()) + escaped_byte(s.last())
    }
}

/// A string literal: the escaped bytes between double quotes.
pub open spec fn quoted(s: Seq<u8>) -> Seq<u8> {
    seq![34u8] + escaped(s) + seq![34u8]
}

/// The label of an application as written: nothing, or `:label` and a space.
pub open spec fn label_text(l: Option<usize>) -> Seq<u8> {
    match l {
        Some(l) => seq![58u8] + dec(l as nat) + seq![32u8],
        None => Seq::empty(),
    }
}

/// The text of the expression at `idx`, following children to a depth of at
/// most `depth`. `None` where an index lies outside the body or the depth
/// runs out.
pub open spec fn term_text(body: Seq<Term>, idx: Index, depth: nat) -> Option<Seq<u8>>
    decreases depth, 0nat,
{
    if depth == 0 || idx >= body.len() {
        None
    } else {
        match body[idx as int] {
            Term::App(f, l, a) => match (
                term_text(body, f, (depth - 1) as nat),
                term_text(body, a, (depth - 1) as nat),
            ) {
                (Some(x), Some(y)) => Some(
                    seq![40u8] + x + seq![32u8] + label_text(l) + y + seq![41u8],
                ),
                _ => None,
            },
            Term::Array(n, v) => match items_text(body, v, (depth - 1) as nat) {
                Some(x) => Some(seq![91u8] + dec(n as nat) + x + seq![93u8]),
                None => None,
            },
            Term::Float(s) => Some(seq![38u8] + s),
            Term::Int(i) => Some(seq![35u8] + dec_signed(i as int)),
            Term::Ref(l) => Some(seq![95u8] + dec(l as nat)),
            Term::String(s) => Some(quoted(s)),
            Term::Tick(s) => Some(seq![33u8] + quoted(s)),
            Term::Ffi(s) => Some(seq![94u8] + s),
            Term::Prim(p) => Some(ascii(p.spec_token())),
            Term::Unknown(s) => Some(seq![63u8, 33u8] + s),
        }
    }
}

/// The text of the elements of an array: each preceded by a space.
pub open spec fn items_text(body: Seq<Term>, items: Seq<Index>, depth: nat) -> Option<Seq<u8>>
    decreases depth, 1 + items.len(),
{
    if items.len() == 0 {
        Some(Seq::empty())
    } else {
        match (
            items_text(body, items.drop_last(), depth),
            term_text(body, items.last(), depth),
        ) {
            (Some(x), Some(y)) => Some(x + seq![32u8] + y),
            _ => None,
        }
    }
}

impl ProgramView {
    /// The text of the program: that of its root. A path from the root that
    /// does not end within as many steps as the body has entries runs in a
    /// circle, and such a program has no text.
    pub open spec fn text(self) -> Option<Seq<u8>> {
        term_text(self.body, self.root, self.body.len())
    }
}

impl CombFileView {
    /// The header as written: `v`, the version, the size, each on its line.
    pub open spec fn header_text(self) -> Seq<u8> {
        seq![118u8] + dec(self.version.0 as nat) + seq![46u8] + dec(self.version.1 as nat)
            + seq![10u8] + dec(self.size as nat) + seq![10u8]
    }

    /// The text of the file: the header, then the program.
    pub open spec fn text(self) -> Option<Seq<u8>> {
        match self.program.text() {
            Some(t) => Some(self.header_text() + t),
            None => None,
        }
    }
}

/// Appends a string literal's bytes, escaped, to `out`.
pub fn push_escaped(out: &mut Vec<u8>, s: &Vec<u8>)
    ensures
        final(out)@ == old(out)@ + escaped(s@),
{
    let mut i: usize = 0;
    assert(s@.subrange(0, 0) =~= Seq::<u8>::empty());
    while i < s.len()
        invariant
            i <= s.len(),
            out@ == old(out)@ + escaped(s@.subrange(0, i as int)),
        decreases s.len() - i,
    {
        let b = s[i];
        let ghost before = out@;
        if 0x20 <= b && b <= 0x7e {
            out.push(b);
        } else {
            out.push(92);
            push_dec(out, b as u64);
        }
        proof {
            let next = s@.subrange(0, i + 1);
            assert(next.drop_last() =~= s@.subrange(0, i as int));
            assert(next.last() == b);
            assert(out@ =~= before + escaped_byte(b));
            assert(out@ =~= old(out)@ + escaped(next));
        }
        i += 1;
    }
    assert(s@.subrange(0, s@.len() as int) =~= s@);
}

/// Appends a quoted string literal to `out`.
pub fn push_quoted(out: &mut Vec<u8>, s: &Vec<u8>)
    ensures
        final(out)@ == old(out)@ + quoted(s@),
{
    out.push(34);
    push_escaped(out, s);
    out.push(34);
    assert(out@ =~= old(out)@ + quoted(s@));
}

impl Program {
    /// Appends the text of the expression at `idx` to `out`, following
    /// children to a depth of at most `depth`. Returns whether the expression
    /// has such a text; where it has none, what was appended is of no use.
    pub fn fmt_expr(&self, out: &mut Vec<u8>, idx: Index, depth: usize) -> (ok: bool)
        ensures
            ok == term_text(self@.body, idx, depth as nat).is_some(),
            ok ==> final(out)@ == old(out)@ + term_text(self@.body, idx, depth as nat).unwrap(),
        decreases depth, 0nat,
    {
        if depth == 0 || idx >= self.body.len() {
            return false;
        }
        let ghost body = self@.body;
        assert(body[idx as int] == self.body@[idx as int]@);
        match &self.body[idx] {
            Expr::App(f, l, a) => {
                out.push(40);
                if !self.fmt_expr(out, *f, depth - 1) {
                    return false;
                }
                out.push(32);
                if let Some(l) = l {
                    out.push(58);
                    push_dec(out, *l as u64);
                    out.push(32);
                }
                if !self.fmt_expr(out, *a, depth - 1) {
                    return false;
                }
                out.push(41);
                assert(out@ =~= old(out)@ + term_text(body, idx, depth as nat).unwrap());
                true
            },
            Expr::Array(n, v) => {
                out.push(91);
                push_dec(out, *n as u64);
                let ghost start = out@;
                let mut i: usize = 0;
                assert(v@.subrange(0, 0) =~= Seq::<Index>::empty());
                while i < v.len()
                    invariant
                        i <= v.len(),
                        depth > 0,
                        body == self@.body,
                        idx < body.len(),
                        body[idx as int] == Term::Array(*n, v@),
                        items_text(body, v@.subrange(0, i as int), (depth - 1) as nat).is_some(),
                        out@ == start + items_text(
                            body,
                            v@.subrange(0, i as int),
                            (depth - 1) as nat,
                        ).unwrap(),
                    decreases v.len() - i,
                {
                    let ghost prefix = v@.subrange(0, i as int);
                    let ghost next = v@.subrange(0, i + 1);
                    proof {
                        assert(next.drop_last() =~= prefix);
                        assert(next.last() == v@[i as int]);
                    }
                    out.push(32);
                    if !self.fmt_expr(out, v[i], depth - 1) {
                        proof {
                            assert(items_text(body, next, (depth - 1) as nat).is_none());
                            lemma_items_text_prefix(body, v@, i + 1, (depth - 1) as nat);
                            assert(term_text(body, idx, depth as nat).is_none());
                        }
                        return false;
                    }
                    assert(out@ =~= start + items_text(body, next, (depth - 1) as nat).unwrap());
                    i += 1;
                }
                assert(v@.subrange(0, v@.len() as int) =~= v@);
                out.push(93);
                assert(out@ =~= old(out)@ + term_text(body, idx, depth as nat).unwrap());
                true
            },
            Expr::Float(s) => {
                out.push(38);
                push_bytes(out, s.as_slice());
                assert(out@ =~= old(out)@ + (seq![38u8] + s@));
                true
            },
            Expr::Int(i) => {
                out.push(35);
                push_dec_signed(out, *i);
                assert(out@ =~= old(out)@ + (seq![35u8] + dec_signed(*i as int)));
                true
            },
            Expr::Ref(l) => {
                out.push(95);
                push_dec(out, *l as u64);
                assert(out@ =~= old(out)@ + (seq![95u8] + dec(*l as nat)));
                true
            },
            Expr::String(s) => {
                push_quoted(out, s);
                true
            },
            Expr::Tick(s) => {
                out.push(33);
                push_quoted(out, s);
                assert(out@ =~= old(out)@ + (seq![33u8] + quoted(s@)));
                true
            },
            Expr::Ffi(s) => {
                out.push(94);
                push_bytes(out, s.as_slice());
                assert(out@ =~= old(out)@ + (seq![94u8] + s@));
                true
            },
            Expr::Prim(p) => {
                proof {
                    Prim::lemma_token_ascii(*p);
                }
                push_bytes(out, str_bytes(p.token()));
                true
            },
            Expr::Unknown(s) => {
                out.push(63);
                out.push(33);
                push_bytes(out, s.as_slice());
                assert(out@ =~= old(out)@ + (seq![63u8, 33u8] + s@));
                true
            },
        }
    }

    /// The text of the program, or `None` where it has none: an index lies
    /// outside the body, or the expressions under the root run in a circle.
    pub fn text(&self) -> (r: Option<Vec<u8>>)
        ensures
            r.is_some() == self@.text().is_some(),
            r matches Some(t) ==> t@ == self@.text().unwrap(),
    {
        let mut out: Vec<u8> = Vec::new();
        if self.fmt_expr(&mut out, self.root, self.body.len()) {
            assert(out@ =~= self@.text().unwrap());
            Some(out)
        } else {
            None
        }
    }

    /// The text of a program that has one, as a string: the text itself,
    /// character for byte, where it is ASCII, as it is where the program is.
    pub fn to_string(&self) -> (s: String)
        requires
            self@.text().is_some(),
        ensures
            is_ascii_bytes(self@.text().unwrap()) ==> s@ == chars(self@.text().unwrap()),
            self@.is_ascii() ==> s@ == chars(self@.text().unwrap()),
    {
        proof {
            if self@.is_ascii() {
                lemma_text_ascii(self@.body, self.root, self@.body.len());
            }
        }
        match self.text() {
            Some(t) => string_of(t.as_slice()),
            None => vstd::pervasive::unreached(),
        }
    }
}

/// Where a prefix of the items has no text, the items have none.
proof fn lemma_items_text_prefix(body: Seq<Term>, items: Seq<Index>, n: int, depth: nat)
    requires
        0 <= n <= items.len(),
        items_text(body, items.subrange(0, n), depth).is_none(),
    ensures
        items_text(body, items, depth).is_none(),
    decreases items.len(),
{
    if n < items.len() {
        assert(items.drop_last().subrange(0, n) =~= items.subrange(0, n));
        lemma_items_text_prefix(body, items.drop_last(), n, depth);
    } else {
        assert(items.subrange(0, n) =~= items);
    }
}

impl CombFile {
    /// The text of the file: `v`, the version, the size and the program, or
    /// `None` where the program has no text.
    pub fn text(&self) -> (r: Option<Vec<u8>>)
        ensures
            r.is_some() == self@.text().is_some(),
            r matches Some(t) ==> t@ == self@.text().unwrap(),
    {
        let mut out: Vec<u8> = Vec::new();
        out.push(118);
        push_dec(&mut out, self.version.0 as u64);
        out.push(46);
        push_dec(&mut out, self.version.1 as u64);
        out.push(10);
        push_dec(&mut out, self.size as u64);
        out.push(10);
        assert(out@ =~= self@.header_text());
        if self.program.fmt_expr(&mut out, self.program.root, self.program.body.len()) {
            Some(out)
        } else {
            None
        }
    }

    /// The text of a file whose program has one, as a string: the text
    /// itself, character for byte, where it is ASCII, as it is where the
    /// program is.
    pub fn to_string(&self) -> (s: String)
        requires
            self@.text().is_some(),
        ensures
            is_ascii_bytes(self@.text().unwrap()) ==> s@ == chars(self@.text().unwrap()),
            self@.program.is_ascii() ==> s@ == chars(self@.text().unwrap()),
    {
        proof {
            if self@.program.is_ascii() {
                lemma_file_ascii(self@);
            }
        }
        match self.text() {
            Some(t) => string_of(t.as_slice()),
            None => vstd::pervasive::unreached(),
        }
    }
}

/// In a closed program that lists every expression behind its children,
/// every expression has a text, at any depth beyond its position.
pub proof fn lemma_ordered_text(p: ProgramView, idx: Index, depth: nat)
    requires
        p.wf(),
        p.ordered(),
        idx < p.body.len(),
        depth > idx,
    ensures
        term_text(p.body, idx, depth).is_some(),
    decreases idx + 1, 0nat,
{
    let t = p.body[idx as int];
    assert(t.closed(p.body.len(), p.defs));
    match t {
        Term::App(f, _, a) => {
            assert(t.children()[0] == f && t.children()[1] == a);
            lemma_ordered_text(p, f, (depth - 1) as nat);
            lemma_ordered_text(p, a, (depth - 1) as nat);
        },
        Term::Array(_, v) => {
            assert forall|k: int| 0 <= k < v.len() implies #[trigger] v[k] < idx by {
                assert(t.children()[k] == v[k]);
            }
            lemma_ordered_items(p, v, idx, (depth - 1) as nat);
        },
        _ => {},
    }
}

proof fn lemma_ordered_items(p: ProgramView, items: Seq<Index>, bound: Index, depth: nat)
    requires
        p.wf(),
        p.ordered(),
        bound < p.body.len(),
        depth >= bound,
        forall|k: int| 0 <= k < items.len() ==> #[trigger] items[k] < bound,
    ensures
        items_text(p.body, items, depth).is_some(),
    decreases bound, 1 + items.len(),
{
    if items.len() > 0 {
        lemma_ordered_items(p, items.drop_last(), bound, depth);
        lemma_ordered_text(p, items.last(), depth);
    }
}

/// A closed program that lists every expression behind its children has a
/// text.
pub proof fn lemma_ordered_program_text(p: ProgramView)
    requires
        p.wf(),
        p.ordered(),
    ensures
        p.text().is_some(),
{
    lemma_ordered_text(p, p.root, p.body.len());
}

impl Term {
    /// Whether the bytes that the expression brings to a text as they are,
    /// those of a number, a symbol or an unknown token, are ASCII.
    pub open spec fn is_ascii(self) -> bool {
        match self {
            Term::Float(s) => is_ascii_bytes(s),
            Term::Ffi(s) => is_ascii_bytes(s),
            Term::Unknown(s) => is_ascii_bytes(s),
            _ => true,
        }
    }
}

impl ProgramView {
    /// Whether every expression of the program is ASCII: see [`Term::is_ascii`].
    pub open spec fn is_ascii(self) -> bool {
        forall|i: int| 0 <= i < self.body.len() ==> (#[trigger] self.body[i]).is_ascii()
    }
}

proof fn lemma_dec_ascii(n: nat)
    ensures
        is_ascii_bytes(dec(n)),
    decreases n,
{
    if n >= 10 {
        lemma_dec_ascii(n / 10);
    }
}

proof fn lemma_escaped_ascii(s: Seq<u8>)
    ensures
        is_ascii_bytes(escaped(s)),
    decreases s.len(),
{
    if s.len() > 0 {
        lemma_escaped_ascii(s.drop_last());
        lemma_dec_ascii(s.last() as nat);
    }
}

/// The text of an expression is ASCII where the expressions are.
pub proof fn lemma_text_ascii(body: Seq<Term>, idx: Index, depth: nat)
    requires
        forall|i: int| 0 <= i < body.len() ==> (#[trigger] body[i]).is_ascii(),
        term_text(body, idx, depth).is_some(),
    ensures
        is_ascii_bytes(term_text(body, idx, depth).unwrap()),
    decreases depth, 0nat,
{
    match body[idx as int] {
        Term::App(f, l, a) => {
            lemma_text_ascii(body, f, (depth - 1) as nat);
            lemma_text_ascii(body, a, (depth - 1) as nat);
            if let Some(l) = l {
                lemma_dec_ascii(l as nat);
            }
        },
        Term::Array(n, v) => {
            lemma_dec_ascii(n as nat);
            lemma_items_ascii(body, v, (depth - 1) as nat);
        },
        Term::Int(i) => {
            if i < 0 {
                lemma_dec_ascii((-i) as nat);
            } else {
                lemma_dec_ascii(i as nat);
            }
        },
        Term::Ref(l) => {
            lemma_dec_ascii(l as nat);
        },
        Term::String(s) => {
            lemma_escaped_ascii(s);
        },
        Term::Tick(s) => {
            lemma_escaped_ascii(s);
        },
        Term::Prim(p) => {
            Prim::lemma_token_ascii(p);
        },
        _ => {},
    }
}

proof fn lemma_items_ascii(body: Seq<Term>, items: Seq<Index>, depth: nat)
    requires
        forall|i: int| 0 <= i < body.len() ==> (#[trigger] body[i]).is_ascii(),
        items_text(body, items, depth).is_some(),
    ensures
        is_ascii_bytes(items_text(body, items, depth).unwrap()),
    decreases depth, 1 + items.len(),
{
    if items.len() > 0 {
        lemma_items_ascii(body, items.drop_last(), depth);
        lemma_text_ascii(body, items.last(), depth);
    }
}

/// The text of an ASCII file is ASCII.
pub proof fn lemma_file_ascii(file: CombFileView)
    requires
        file.program.is_ascii(),
        file.text().is_some(),
    ensures
        is_ascii_bytes(file.text().unwrap()),
{
    lemma_text_ascii(file.program.body, file.program.root, file.program.body.len());
    lemma_dec_ascii(file.version.0 as nat);
    lemma_dec_ascii(file.version.1 as nat);
    lemma_dec_ascii(file.size as nat);
}

} // verus!
