//! Reading back what was written: the text of a file that was read, read
//! again, gives the same file.

use vstd::prelude::*;
use crate::comb::Prim;
use crate::expr::Index;
use crate::expr::Label;
use crate::expr::Term;
use crate::grammar::app_at;
use crate::grammar::array_at;
use crate::grammar::define;
use crate::grammar::expr_at;
use crate::expr::ProgramView;
use crate::grammar::fail;
use crate::grammar::file_of;
use crate::grammar::version_at;
use crate::print::lemma_ordered_program_text;
use crate::sound::lemma_empty_sound;
use crate::sound::lemma_file_sound;
use crate::grammar::finish;
use crate::grammar::items_at;
use crate::grammar::label_at;
use crate::grammar::leaf_at;
use crate::grammar::left;
use crate::grammar::Pool;
use crate::grammar::Step;
use crate::print::items_text;
use crate::print::label_text;
use crate::print::term_text;
use crate::sound::continues;
use crate::sound::lemma_app_sound;
use crate::sound::lemma_array_sound;
use crate::sound::lemma_expr_sound;
use crate::sound::lemma_items_sound;
use crate::sound::lemma_skip_left;
use crate::sound::sound;
use crate::sound::sound_step;
use crate::grammar::int_at;
use crate::grammar::skip;
use crate::grammar::string_body;
use crate::grammar::uint_at;
use crate::grammar::ParseError;
use crate::lex::dec_value;
use crate::lex::lemma_dec_digits;
use crate::lex::lemma_dec_value;
use crate::lex::lemma_run_exact;
use crate::lex::run;
use crate::lex::Class;
use crate::print::escaped;
use crate::print::escaped_byte;
use crate::print::is_verbatim;
use crate::print::quoted;
use crate::text::ascii;
use crate::text::dec;
use crate::text::dec_signed;

verus! {

/// Whether the bytes `t` stand in `s` at `pos`.
#[verifier::opaque]
pub open spec fn holds(s: Seq<u8>, pos: int, t: Seq<u8>) -> bool {
    &&& 0 <= pos
    &&& pos + t.len() <= s.len()
    &&& forall|i: int| 0 <= i < t.len() ==> s[pos + i] == #[trigger] t[i]
}

/// Whether a text ends at `pos`: the input ends there, or a space or a
/// closing bracket follows.
pub open spec fn ends(s: Seq<u8>, pos: int) -> bool {
    pos == s.len() || (0 <= pos < s.len() && (s[pos] == 32 || s[pos] == 41 || s[pos] == 93))
}

/// Two texts stand one behind the other where their concatenation stands.
pub proof fn lemma_holds_concat(s: Seq<u8>, pos: int, a: Seq<u8>, b: Seq<u8>)
    requires
        holds(s, pos, a + b),
    ensures
        holds(s, pos, a),
        holds(s, pos + a.len(), b),
{
    reveal(holds);
    assert forall|i: int| 0 <= i < a.len() implies s[pos + i] == #[trigger] a[i] by {
        assert((a + b)[i] == a[i]);
    }
    assert forall|i: int| 0 <= i < b.len() implies s[pos + a.len() + i] == #[trigger] b[i] by {
        assert((a + b)[a.len() + i] == b[i]);
    }
}

/// Where a text stands, its first byte stands.
pub proof fn lemma_holds_first(s: Seq<u8>, pos: int, t: Seq<u8>)
    requires
        holds(s, pos, t),
        t.len() > 0,
    ensures
        0 <= pos < s.len(),
        s[pos] == t[0],
{
    reveal(holds);
    assert(s[pos + 0] == t[0]);
}

/// Where a text stands, its bytes are those of the input there.
pub proof fn lemma_holds_subrange(s: Seq<u8>, pos: int, t: Seq<u8>)
    requires
        holds(s, pos, t),
    ensures
        s.subrange(pos, pos + t.len()) == t,
{
    reveal(holds);
    assert(s.subrange(pos, pos + t.len()) =~= t);
}

/// No white space is skipped where none stands.
pub proof fn lemma_skip_none(s: Seq<u8>, pos: int)
    requires
        !(0 <= pos < s.len()) || !Class::Space.has(s[pos]),
    ensures
        skip(s, pos) == pos,
{
    reveal(holds);
}

/// One byte of white space is skipped where one stands before something
/// else.
pub proof fn lemma_skip_one(s: Seq<u8>, pos: int)
    requires
        0 <= pos < s.len(),
        Class::Space.has(s[pos]),
        pos + 1 == s.len() || !Class::Space.has(s[pos + 1]),
    ensures
        skip(s, pos) == pos + 1,
{
    reveal(holds);
    lemma_skip_none(s, pos + 1);
}

/// The decimal digits of a number, where nothing that could be a digit
/// follows them, read as the number.
pub proof fn lemma_uint_reread(s: Seq<u8>, pos: int, n: usize)
    requires
        holds(s, pos, dec(n as nat)),
        pos + dec(n as nat).len() == s.len() || !Class::Digit.has(s[pos + dec(n as nat).len()]),
    ensures
        uint_at(s, pos) == Ok::<(usize, int), ParseError>((n, pos + dec(n as nat).len())),
{
    reveal(holds);
    let digits = dec(n as nat);
    lemma_dec_digits(n as nat);
    lemma_dec_value(n as nat);
    assert forall|i: int| pos <= i < pos + digits.len() implies Class::Digit.has(#[trigger] s[i]) by {
        assert(s[pos + (i - pos)] == digits[i - pos]);
    }
    lemma_run_exact(s, pos, Class::Digit, digits.len());
    lemma_holds_subrange(s, pos, digits);
}

/// The decimal form of a signed number, where nothing that could be a digit
/// follows it, reads as the number.
pub proof fn lemma_int_reread(s: Seq<u8>, pos: int, i: i64)
    requires
        holds(s, pos, dec_signed(i as int)),
        pos + dec_signed(i as int).len() == s.len() || !Class::Digit.has(
            s[pos + dec_signed(i as int).len()],
        ),
    ensures
        int_at(s, pos) == Ok::<(i64, int), ParseError>((i, pos + dec_signed(i as int).len())),
{
    reveal(holds);
    let magnitude: nat = if i < 0 {
        (-i) as nat
    } else {
        i as nat
    };
    let digits = dec(magnitude);
    lemma_dec_digits(magnitude);
    lemma_dec_value(magnitude);
    let start = if i < 0 {
        pos + 1
    } else {
        pos
    };
    if i < 0 {
        lemma_holds_concat(s, pos, seq![45u8], digits);
        assert(s[pos + 0] == seq![45u8][0]);
    } else {
        assert(s[pos + 0] == digits[0]);
        assert(Class::Digit.has(digits[0]));
    }
    assert forall|k: int| start <= k < start + digits.len() implies Class::Digit.has(
        #[trigger] s[k],
    ) by {
        assert(s[start + (k - start)] == digits[k - start]);
    }
    lemma_run_exact(s, start, Class::Digit, digits.len());
    lemma_holds_subrange(s, start, digits);
}

/// Whether a string reads back from its literal: it holds no quote and no
/// backslash, which are written as they are, and no digit behind a byte that
/// is written as a number.
pub open spec fn rereads(b: Seq<u8>) -> bool {
    forall|i: int|
        0 <= i < b.len() ==> {
            &&& #[trigger] b[i] != 34
            &&& b[i] != 92
            &&& !is_verbatim(b[i]) && i + 1 < b.len() ==> !Class::Digit.has(b[i + 1])
        }
}

/// A plain byte of a string literal goes to the string by itself.
proof fn lemma_string_plain(s: Seq<u8>, pos: int, acc: Seq<u8>)
    requires
        0 <= pos < s.len(),
        Class::Plain.has(s[pos]),
    ensures
        string_body(s, pos, acc) == string_body(s, pos + 1, acc.push(s[pos])),
{
    reveal(holds);
    let r = run(s, pos + 1, Class::Plain);
    if pos + 1 < s.len() && Class::Plain.has(s[pos + 1]) {
        let r2 = run(s, pos + 2, Class::Plain);
        assert(r == 1 + r2);
        crate::lex::lemma_run_bound(s, pos + 2, Class::Plain);
        assert(acc + s.subrange(pos, pos + 2 + r2) =~= acc.push(s[pos]) + s.subrange(
            pos + 1,
            pos + 2 + r2,
        ));
    } else {
        assert(r == 0);
        assert(acc + s.subrange(pos, pos + 1) =~= acc.push(s[pos]));
    }
}

/// What is written for a string starts with what is written for its first
/// byte.
proof fn lemma_escaped_front(b: Seq<u8>)
    requires
        b.len() > 0,
    ensures
        escaped(b) == escaped_byte(b[0]) + escaped(b.drop_first()),
    decreases b.len(),
{
    reveal(holds);
    if b.len() == 1 {
        assert(b.drop_last() =~= Seq::<u8>::empty());
        assert(b.drop_first() =~= Seq::<u8>::empty());
        assert(escaped(b) =~= escaped_byte(b[0]) + escaped(b.drop_first()));
    } else {
        lemma_escaped_front(b.drop_last());
        assert(b.drop_last().drop_first() =~= b.drop_first().drop_last());
        assert(escaped(b) =~= escaped_byte(b[0]) + escaped(b.drop_first()));
    }
}

/// The literal of a string that reads back, read from behind its opening
/// quote, gives the string.
pub proof fn lemma_string_reread(s: Seq<u8>, pos: int, b: Seq<u8>, acc: Seq<u8>)
    requires
        rereads(b),
        holds(s, pos, escaped(b) + seq![34u8]),
    ensures
        string_body(s, pos, acc) == Ok::<(Seq<u8>, int), ParseError>(
            (acc + b, pos + escaped(b).len() + 1),
        ),
    decreases b.len(),
{
    reveal(holds);
    if b.len() == 0 {
        assert(s[pos + 0] == (escaped(b) + seq![34u8])[0]);
        assert(acc + b =~= acc);
    } else {
        let rest = b.drop_first();
        let first = escaped_byte(b[0]);
        lemma_escaped_front(b);
        assert(escaped(b) + seq![34u8] =~= first + (escaped(rest) + seq![34u8]));
        lemma_holds_concat(s, pos, first, escaped(rest) + seq![34u8]);
        assert(rereads(rest)) by {
            assert forall|i: int| 0 <= i < rest.len() implies {
                &&& #[trigger] rest[i] != 34
                &&& rest[i] != 92
                &&& !is_verbatim(rest[i]) && i + 1 < rest.len() ==> !Class::Digit.has(rest[i + 1])
            } by {
                assert(rest[i] == b[i + 1]);
                if i + 1 < rest.len() {
                    assert(rest[i + 1] == b[i + 2]);
                }
            }
        }
        let next = pos + first.len();
        let after = escaped(rest) + seq![34u8];
        assert(s[next + 0] == after[0]);
        if rest.len() > 0 {
            lemma_escaped_front(rest);
            assert(after[0] == escaped_byte(rest[0])[0]);
            assert(rest[0] == b[1]);
        }
        if is_verbatim(b[0]) {
            assert(s[pos + 0] == first[0]);
            lemma_string_plain(s, pos, acc);
            lemma_string_reread(s, pos + 1, rest, acc.push(b[0]));
            assert(acc.push(b[0]) + rest =~= acc + b);
        } else {
            let digits = dec(b[0] as nat);
            lemma_holds_concat(s, pos, seq![92u8], digits);
            assert(s[pos + 0] == seq![92u8][0]);
            lemma_dec_digits(b[0] as nat);
            lemma_dec_value(b[0] as nat);
            assert forall|k: int| pos + 1 <= k < pos + 1 + digits.len() implies Class::Digit.has(
                #[trigger] s[k],
            ) by {
                assert(s[pos + 1 + (k - pos - 1)] == digits[k - pos - 1]);
            }
            lemma_run_exact(s, pos + 1, Class::Digit, digits.len());
            lemma_holds_subrange(s, pos + 1, digits);
            lemma_string_reread(s, next, rest, acc.push(b[0]));
            assert(acc.push(b[0]) + rest =~= acc + b);
        }
    }
}

/// Whether an expression reads back from its text. A floating point number
/// does not, as nothing is known of how the reader of numbers takes its
/// text; an unknown token does not, as it is written with a mark that no
/// production starts with; a string does where [`rereads`] holds of it.
pub open spec fn rereadable(t: Term) -> bool {
    match t {
        Term::Float(_) => false,
        Term::Unknown(_) => false,
        Term::String(b) => rereads(b),
        Term::Tick(b) => rereads(b),
        _ => true,
    }
}

/// Whether a byte can start the text of an expression that reads back: it
/// is no white space, no colon and no closing bracket.
pub open spec fn starts(b: u8) -> bool {
    !Class::Space.has(b) && b != 58 && b != 41 && b != 93
}

/// The text of an expression without children.
pub open spec fn leaf_text(t: Term) -> Seq<u8> {
    match t {
        Term::Float(s) => seq![38u8] + s,
        Term::Int(i) => seq![35u8] + dec_signed(i as int),
        Term::Ref(l) => seq![95u8] + dec(l as nat),
        Term::String(s) => quoted(s),
        Term::Tick(s) => seq![33u8] + quoted(s),
        Term::Ffi(s) => seq![94u8] + s,
        Term::Prim(p) => ascii(p.spec_token()),
        Term::Unknown(s) => seq![63u8, 33u8] + s,
        _ => Seq::empty(),
    }
}

/// A leaf that was read and reads back, read from its text, is the same
/// leaf.
proof fn lemma_leaf_reread(s: Seq<u8>, p: int, size: nat, term: Term, s2: Seq<u8>, here: int)
    requires
        0 <= p < s.len(),
        leaf_at(s, p, size) is Ok,
        leaf_at(s, p, size).unwrap().0 == term,
        rereadable(term),
        holds(s2, here, leaf_text(term)),
        ends(s2, here + leaf_text(term).len()),
    ensures
        leaf_text(term).len() >= 1,
        starts(leaf_text(term)[0]),
        leaf_text(term)[0] != 40,
        leaf_text(term)[0] != 91,
        0 <= here < s2.len(),
        leaf_at(s2, here, size) == Ok::<(Term, int), ParseError>(
            (term, here + leaf_text(term).len()),
        ),
{
    reveal(holds);
    let tx = leaf_text(term);
    match term {
        Term::Int(i) => {
            lemma_holds_concat(s2, here, seq![35u8], dec_signed(i as int));
            assert(s2[here + 0] == seq![35u8][0]);
            lemma_int_reread(s2, here + 1, i);
        },
        Term::Ref(l) => {
            lemma_holds_concat(s2, here, seq![95u8], dec(l as nat));
            assert(s2[here + 0] == seq![95u8][0]);
            lemma_uint_reread(s2, here + 1, l);
        },
        Term::String(b) => {
            assert(tx =~= seq![34u8] + (escaped(b) + seq![34u8]));
            lemma_holds_concat(s2, here, seq![34u8], escaped(b) + seq![34u8]);
            assert(s2[here + 0] == seq![34u8][0]);
            lemma_string_reread(s2, here + 1, b, Seq::empty());
            assert(Seq::<u8>::empty() + b =~= b);
        },
        Term::Tick(b) => {
            assert(tx =~= seq![33u8, 34u8] + (escaped(b) + seq![34u8]));
            lemma_holds_concat(s2, here, seq![33u8, 34u8], escaped(b) + seq![34u8]);
            assert(s2[here + 0] == seq![33u8, 34u8][0]);
            assert(s2[here + 1] == seq![33u8, 34u8][1]);
            lemma_string_reread(s2, here + 2, b, Seq::empty());
            assert(Seq::<u8>::empty() + b =~= b);
        },
        Term::Ffi(b) => {
            assert(s[p] == 94);
            let n = run(s, p + 1, Class::Alnum);
            crate::lex::lemma_run_bound(s, p + 1, Class::Alnum);
            assert(b == s.subrange(p + 1, p + 1 + n));
            lemma_holds_concat(s2, here, seq![94u8], b);
            assert(s2[here + 0] == seq![94u8][0]);
            assert forall|k: int| here + 1 <= k < here + 1 + b.len() implies Class::Alnum.has(
                #[trigger] s2[k],
            ) by {
                crate::lex::lemma_run_class(s, p + 1, Class::Alnum, p + 1 + (k - here - 1));
                assert(s2[here + 1 + (k - here - 1)] == b[k - here - 1]);
            }
            lemma_run_exact(s2, here + 1, Class::Alnum, b.len());
            lemma_holds_subrange(s2, here + 1, b);
        },
        Term::Prim(prim) => {
            Prim::lemma_token_shape(prim);
            Prim::lemma_token_ascii(prim);
            Prim::lemma_parse_token(prim);
            assert(tx.len() == prim.spec_token().len());
            assert(s2[here + 0] == tx[0]);
            assert(Class::Prim.has(tx[0]));
            assert forall|k: int| here <= k < here + tx.len() implies Class::Prim.has(
                #[trigger] s2[k],
            ) by {
                assert(s2[here + (k - here)] == tx[k - here]);
            }
            lemma_run_exact(s2, here, Class::Prim, tx.len());
            lemma_holds_subrange(s2, here, tx);
        },
        _ => {},
    }
}

/// White space is skipped once: behind it stands none.
pub proof fn lemma_skip_twice(s: Seq<u8>, pos: int)
    ensures
        skip(s, skip(s, pos)) == skip(s, pos),
    decreases s.len() - pos,
{
    reveal(holds);
    if 0 <= pos < s.len() && Class::Space.has(s[pos]) {
        lemma_skip_twice(s, pos + 1);
    }
}

/// The text of the elements of an array starts with a space and the text of
/// the first.
proof fn lemma_items_front(body: Seq<Term>, items: Seq<Index>, depth: nat)
    requires
        items.len() > 0,
        items_text(body, items, depth).is_some(),
    ensures
        term_text(body, items[0], depth).is_some(),
        items_text(body, items.drop_first(), depth).is_some(),
        items_text(body, items, depth).unwrap() == seq![32u8] + term_text(
            body,
            items[0],
            depth,
        ).unwrap() + items_text(body, items.drop_first(), depth).unwrap(),
    decreases items.len(),
{
    reveal(holds);
    if items.len() == 1 {
        assert(items.drop_last() =~= Seq::<Index>::empty());
        assert(items.drop_first() =~= Seq::<Index>::empty());
        assert(items_text(body, items, depth).unwrap() =~= seq![32u8] + term_text(
            body,
            items[0],
            depth,
        ).unwrap() + items_text(body, items.drop_first(), depth).unwrap());
    } else {
        lemma_items_front(body, items.drop_last(), depth);
        assert(items.drop_last().drop_first() =~= items.drop_first().drop_last());
        assert(items.drop_first().last() == items.last());
        assert(items_text(body, items, depth).unwrap() =~= seq![32u8] + term_text(
            body,
            items[0],
            depth,
        ).unwrap() + items_text(body, items.drop_first(), depth).unwrap());
    }
}

/// Whether the body `body` holds what was read up to the pool `after`, and
/// what was read since the pool `before` reads back.
pub open spec fn rereading(before: Pool, after: Pool, body: Seq<Term>) -> bool {
    &&& body.len() >= after.body.len()
    &&& forall|i: int| 0 <= i < after.body.len() ==> #[trigger] body[i] == after.body[i]
    &&& forall|i: int| before.body.len() <= i < after.body.len() ==> rereadable(#[trigger] body[i])
}

/// An expression that was read, read again from its text, is read as it
/// was: into the same pool, under the same index. Its text is at least as
/// long as the number of expressions read with it.
pub proof fn lemma_expr_reread(
    s: Seq<u8>,
    pos: int,
    pool: Pool,
    body: Seq<Term>,
    depth: nat,
    s2: Seq<u8>,
    q: int,
)
    requires
        sound(pool),
        pool.body.len() + left(s, pos) <= usize::MAX,
        expr_at(s, pos, pool) is Ok,
        rereading(pool, expr_at(s, pos, pool).unwrap().pool, body),
        depth > expr_at(s, pos, pool).unwrap().index,
        term_text(body, expr_at(s, pos, pool).unwrap().index, depth).is_some(),
        holds(
            s2,
            skip(s2, q),
            term_text(body, expr_at(s, pos, pool).unwrap().index, depth).unwrap(),
        ),
        ends(
            s2,
            skip(s2, q) + term_text(
                body,
                expr_at(s, pos, pool).unwrap().index,
                depth,
            ).unwrap().len(),
        ),
    ensures
        ({
            let step = expr_at(s, pos, pool).unwrap();
            let tx = term_text(body, step.index, depth).unwrap();
            &&& expr_at(s2, q, pool) == Ok::<Step, ParseError>(
                Step { pool: step.pool, index: step.index, end: skip(s2, skip(s2, q) + tx.len()) },
            )
            &&& tx.len() >= step.pool.body.len() - pool.body.len()
            &&& tx.len() >= 1
            &&& starts(tx[0])
        }),
    decreases left(s, pos), 1nat,
{
    reveal(holds);
    let step = expr_at(s, pos, pool).unwrap();
    let tx = term_text(body, step.index, depth).unwrap();
    let p = skip(s, pos);
    let here = skip(s2, q);
    lemma_expr_sound(s, pos, pool);
    lemma_skip_twice(s2, q);
    crate::lex::lemma_run_bound(s, if 0 <= pos <= s.len() { pos } else { 0 }, Class::Space);
    let term = body[step.index as int];
    assert(term == step.pool.body[step.index as int]);
    if s[p] == 40 {
        lemma_app_reread(s, p, pool, body, depth, s2, here);
    } else if s[p] == 91 {
        lemma_array_reread(s, p, pool, body, depth, s2, here);
    } else {
        assert(leaf_text(term) == tx);
        lemma_leaf_reread(s, p, pool.defs.len(), term, s2, here);
        assert(s2[here + 0] == tx[0]);
    }
}

/// What an application that was read was read from: its function, its
/// label and its argument, one after the other.
proof fn lemma_app_read(s: Seq<u8>, pos: int, pool: Pool)
    requires
        app_at(s, pos, pool) is Ok,
    ensures
        ({
            let step = app_at(s, pos, pool).unwrap();
            &&& 0 <= pos < s.len()
            &&& expr_at(s, pos + 1, pool) is Ok
            &&& label_at(s, expr_at(s, pos + 1, pool).unwrap().end, pool.defs.len()) is Ok
            &&& ({
                let f = expr_at(s, pos + 1, pool).unwrap();
                let (label, next) = label_at(s, f.end, pool.defs.len()).unwrap();
                &&& next > pos
                &&& (label matches Some(l) ==> l < pool.defs.len())
                &&& expr_at(s, next, f.pool) is Ok
                &&& step == finish(
                    s,
                    define(
                        expr_at(s, next, f.pool).unwrap().pool,
                        label,
                        expr_at(s, next, f.pool).unwrap().index,
                    ),
                    Term::App(f.index, label, expr_at(s, next, f.pool).unwrap().index),
                    expr_at(s, next, f.pool).unwrap().end + 1,
                )
                &&& step.pool.body == expr_at(s, next, f.pool).unwrap().pool.body.push(
                    Term::App(f.index, label, expr_at(s, next, f.pool).unwrap().index),
                )
            })
        }),
{
    reveal(holds);
}

/// Where the parts of the text of an application stand.
proof fn lemma_app_places(s2: Seq<u8>, here: int, txf: Seq<u8>, lt: Seq<u8>, txa: Seq<u8>)
    requires
        holds(s2, here, seq![40u8] + txf + seq![32u8] + lt + txa + seq![41u8]),
    ensures
        0 <= here < s2.len(),
        s2[here] == 40,
        holds(s2, here + 1, txf),
        s2[here + 1 + txf.len()] == 32,
        holds(s2, here + 2 + txf.len(), lt),
        holds(s2, here + 2 + txf.len() + lt.len(), txa),
        here + 2 + txf.len() + lt.len() + txa.len() < s2.len(),
        s2[here + 2 + txf.len() + lt.len() + txa.len()] == 41,
        (seq![40u8] + txf + seq![32u8] + lt + txa + seq![41u8]).len() == 3 + txf.len() + lt.len()
            + txa.len(),
{
    reveal(holds);
    lemma_holds_concat(s2, here, seq![40u8] + txf + seq![32u8] + lt + txa, seq![41u8]);
    lemma_holds_concat(s2, here, seq![40u8] + txf + seq![32u8] + lt, txa);
    lemma_holds_concat(s2, here, seq![40u8] + txf + seq![32u8], lt);
    lemma_holds_concat(s2, here, seq![40u8] + txf, seq![32u8]);
    lemma_holds_concat(s2, here, seq![40u8], txf);
    assert(s2[here + 0] == seq![40u8][0]);
    assert(s2[here + 1 + txf.len() + 0] == seq![32u8][0]);
    assert(s2[here + 2 + txf.len() + lt.len() + txa.len() + 0] == seq![41u8][0]);
}

/// The label of an application, read again from its text, is read as it was.
proof fn lemma_label_reread(s2: Seq<u8>, space: int, label: Option<Label>, size: nat, first: u8)
    requires
        0 <= space < s2.len(),
        s2[space] == 32,
        holds(s2, space + 1, label_text(label)),
        space + 1 + label_text(label).len() < s2.len(),
        s2[space + 1 + label_text(label).len()] == first,
        starts(first),
        label matches Some(l) ==> l < size,
    ensures
        skip(s2, space) == space + 1,
        label_text(label).len() > 0 ==> label_at(s2, space + 1, size) == Ok::<
            (Option<Label>, int),
            ParseError,
        >((label, space + label_text(label).len())),
        label_text(label).len() == 0 ==> label_at(s2, space + 1, size) == Ok::<
            (Option<Label>, int),
            ParseError,
        >((label, space + 1)),
        label_text(label).len() > 0 ==> skip(s2, space + label_text(label).len()) == space + 1
            + label_text(label).len(),
        label_text(label).len() > 0 <==> label is Some,
{
    reveal(holds);
    let at_l = space + 1;
    match label {
        Some(l) => {
            let digits = dec(l as nat);
            lemma_dec_digits(l as nat);
            lemma_holds_concat(s2, at_l, seq![58u8] + digits, seq![32u8]);
            lemma_holds_concat(s2, at_l, seq![58u8], digits);
            assert(s2[at_l + 0] == seq![58u8][0]);
            assert(s2[at_l + 1 + digits.len() + 0] == seq![32u8][0]);
            lemma_skip_one(s2, space);
            lemma_uint_reread(s2, at_l + 1, l);
            lemma_skip_one(s2, at_l + 1 + digits.len());
        },
        None => {
            assert(label_text(label) =~= Seq::<u8>::empty());
            lemma_skip_one(s2, space);
        },
    }
}

/// An application is read where its parts are read one after the other.
proof fn lemma_app_again(
    s2: Seq<u8>,
    here: int,
    pool: Pool,
    f: Step,
    label: Option<Label>,
    next: int,
    a: Step,
)
    requires
        0 <= here < s2.len(),
        expr_at(s2, here + 1, pool) == Ok::<Step, ParseError>(f),
        label_at(s2, f.end, pool.defs.len()) == Ok::<(Option<Label>, int), ParseError>(
            (label, next),
        ),
        next > here,
        expr_at(s2, next, f.pool) == Ok::<Step, ParseError>(a),
        0 <= a.end < s2.len(),
        s2[a.end] == 41,
    ensures
        app_at(s2, here, pool) == Ok::<Step, ParseError>(
            finish(
                s2,
                define(a.pool, label, a.index),
                Term::App(f.index, label, a.index),
                a.end + 1,
            ),
        ),
{
    reveal(holds);
}

/// What reading an application again rests on: what it was read from, the
/// text of each part, and that each part can be read again.
proof fn lemma_app_setup(s: Seq<u8>, pos: int, pool: Pool, body: Seq<Term>, depth: nat)
    requires
        sound(pool),
        0 <= pos < s.len(),
        pool.body.len() + left(s, pos) <= usize::MAX,
        app_at(s, pos, pool) is Ok,
        rereading(pool, app_at(s, pos, pool).unwrap().pool, body),
        depth > app_at(s, pos, pool).unwrap().index,
        term_text(body, app_at(s, pos, pool).unwrap().index, depth).is_some(),
    ensures
        ({
            let step = app_at(s, pos, pool).unwrap();
            let tx = term_text(body, step.index, depth).unwrap();
            let d = (depth - 1) as nat;
            &&& expr_at(s, pos + 1, pool) is Ok
            &&& label_at(s, expr_at(s, pos + 1, pool).unwrap().end, pool.defs.len()) is Ok
            &&& ({
                let f = expr_at(s, pos + 1, pool).unwrap();
                let (label, next) = label_at(s, f.end, pool.defs.len()).unwrap();
                &&& pos < next <= s.len()
                &&& (label matches Some(l) ==> l < pool.defs.len())
                &&& expr_at(s, next, f.pool) is Ok
                &&& ({
                    let a = expr_at(s, next, f.pool).unwrap();
                    let txf = term_text(body, f.index, d);
                    let txa = term_text(body, a.index, d);
                    &&& sound(f.pool)
                    &&& pool.body.len() + left(s, pos + 1) <= usize::MAX
                    &&& f.pool.body.len() + left(s, next) <= usize::MAX
                    &&& rereading(pool, f.pool, body)
                    &&& rereading(f.pool, a.pool, body)
                    &&& d > f.index
                    &&& d > a.index
                    &&& txf.is_some()
                    &&& txa.is_some()
                    &&& txf.unwrap().len() >= 1
                    &&& txa.unwrap().len() >= 1
                    &&& starts(txf.unwrap()[0])
                    &&& starts(txa.unwrap()[0])
                    &&& tx == seq![40u8] + txf.unwrap() + seq![32u8] + label_text(label)
                        + txa.unwrap() + seq![41u8]
                    &&& step.pool == (Pool {
                        body: a.pool.body.push(Term::App(f.index, label, a.index)),
                        defs: define(a.pool, label, a.index).defs,
                    })
                    &&& step.index == a.pool.body.len()
                    &&& pool.body.len() <= f.pool.body.len() <= a.pool.body.len() < usize::MAX
                })
            })
        }),
{
    let step = app_at(s, pos, pool).unwrap();
    lemma_app_read(s, pos, pool);
    lemma_app_sound(s, pos, pool);
    lemma_expr_sound(s, pos + 1, pool);
    let f = expr_at(s, pos + 1, pool).unwrap();
    let (label, next) = label_at(s, f.end, pool.defs.len()).unwrap();
    assert(f.end <= next <= s.len()) by {
        crate::lex::lemma_run_bound(s, f.end + 1, Class::Digit);
    }
    lemma_expr_sound(s, next, f.pool);
    let a = expr_at(s, next, f.pool).unwrap();
    let term = Term::App(f.index, label, a.index);
    assert(body[step.index as int] == term) by {
        assert(body[step.index as int] == step.pool.body[step.index as int]);
    }
    let d = (depth - 1) as nat;
    assert(rereading(pool, f.pool, body)) by {
        assert forall|i: int| 0 <= i < f.pool.body.len() implies #[trigger] body[i]
            == f.pool.body[i] by {
            assert(a.pool.body[i] == f.pool.body[i]);
            assert(step.pool.body[i] == a.pool.body[i]);
        }
    }
    assert(rereading(f.pool, a.pool, body)) by {
        assert forall|i: int| 0 <= i < a.pool.body.len() implies #[trigger] body[i]
            == a.pool.body[i] by {
            assert(step.pool.body[i] == a.pool.body[i]);
        }
    }
    lemma_text_starts(body, f.index, d);
    lemma_text_starts(body, a.index, d);
}

/// As [`lemma_expr_reread`], for the application whose `(` stands at `pos`
/// and, in the text, at `here`.
#[verifier::rlimit(60)]
proof fn lemma_app_reread(
    s: Seq<u8>,
    pos: int,
    pool: Pool,
    body: Seq<Term>,
    depth: nat,
    s2: Seq<u8>,
    here: int,
)
    requires
        sound(pool),
        0 <= pos < s.len(),
        pool.body.len() + left(s, pos) <= usize::MAX,
        app_at(s, pos, pool) is Ok,
        rereading(pool, app_at(s, pos, pool).unwrap().pool, body),
        depth > app_at(s, pos, pool).unwrap().index,
        term_text(body, app_at(s, pos, pool).unwrap().index, depth).is_some(),
        holds(s2, here, term_text(body, app_at(s, pos, pool).unwrap().index, depth).unwrap()),
        ends(
            s2,
            here + term_text(body, app_at(s, pos, pool).unwrap().index, depth).unwrap().len(),
        ),
    ensures
        ({
            let step = app_at(s, pos, pool).unwrap();
            let tx = term_text(body, step.index, depth).unwrap();
            &&& 0 <= here < s2.len()
            &&& s2[here] == 40
            &&& app_at(s2, here, pool) == Ok::<Step, ParseError>(
                Step { pool: step.pool, index: step.index, end: skip(s2, here + tx.len()) },
            )
            &&& tx.len() >= step.pool.body.len() - pool.body.len()
            &&& tx.len() >= 1
            &&& starts(tx[0])
        }),
    decreases left(s, pos), 0nat,
{
    lemma_app_setup(s, pos, pool, body, depth);
    let step = app_at(s, pos, pool).unwrap();
    let tx = term_text(body, step.index, depth).unwrap();
    let f = expr_at(s, pos + 1, pool).unwrap();
    let (label, next) = label_at(s, f.end, pool.defs.len()).unwrap();
    let a = expr_at(s, next, f.pool).unwrap();
    let d = (depth - 1) as nat;
    let txf = term_text(body, f.index, d).unwrap();
    let txa = term_text(body, a.index, d).unwrap();
    let lt = label_text(label);
    lemma_app_places(s2, here, txf, lt, txa);
    let at_f = here + 1;
    let space = at_f + txf.len();
    let at_a = space + 1 + lt.len();
    let close = at_a + txa.len();
    lemma_holds_first(s2, at_f, txf);
    lemma_holds_first(s2, at_a, txa);
    lemma_skip_none(s2, at_f);
    lemma_skip_none(s2, at_a);
    lemma_skip_none(s2, close);
    lemma_expr_reread(s, pos + 1, pool, body, d, s2, at_f);
    let f2 = Step { pool: f.pool, index: f.index, end: skip(s2, space) };
    lemma_label_reread(s2, space, label, pool.defs.len(), txa[0]);
    let next2 = if label is Some {
        space + lt.len()
    } else {
        space + 1
    };
    lemma_expr_reread(s, next, f.pool, body, d, s2, next2);
    let a2 = Step { pool: a.pool, index: a.index, end: close };
    lemma_app_again(s2, here, pool, f2, label, next2, a2);
    assert(tx[0] == 40);
}

/// The text of an expression that reads back starts with a byte that can
/// start one.
proof fn lemma_text_starts(body: Seq<Term>, idx: Index, depth: nat)
    requires
        term_text(body, idx, depth).is_some(),
        rereadable(body[idx as int]),
    ensures
        term_text(body, idx, depth).unwrap().len() >= 1,
        starts(term_text(body, idx, depth).unwrap()[0]),
{
    reveal(holds);
    let tx = term_text(body, idx, depth).unwrap();
    match body[idx as int] {
        Term::Prim(p) => {
            Prim::lemma_token_shape(p);
            Prim::lemma_token_ascii(p);
            assert(tx.len() == p.spec_token().len());
        },
        Term::App(f, l, a) => {
            assert(tx[0] == 40);
        },
        Term::Array(n, v) => {
            assert(tx[0] == 91);
        },
        Term::Int(i) => {
            assert(tx[0] == 35);
        },
        Term::Ref(l) => {
            assert(tx[0] == 95);
        },
        Term::String(b) => {
            assert(tx[0] == 34);
        },
        Term::Tick(b) => {
            assert(tx[0] == 33);
        },
        Term::Ffi(b) => {
            assert(tx[0] == 94);
        },
        _ => {},
    }
}

/// As [`lemma_expr_reread`], for the array whose `[` stands at `pos` and,
/// in the text, at `here`.
proof fn lemma_array_reread(
    s: Seq<u8>,
    pos: int,
    pool: Pool,
    body: Seq<Term>,
    depth: nat,
    s2: Seq<u8>,
    here: int,
)
    requires
        sound(pool),
        0 <= pos < s.len(),
        pool.body.len() + left(s, pos) <= usize::MAX,
        array_at(s, pos, pool) is Ok,
        rereading(pool, array_at(s, pos, pool).unwrap().pool, body),
        depth > array_at(s, pos, pool).unwrap().index,
        term_text(body, array_at(s, pos, pool).unwrap().index, depth).is_some(),
        holds(s2, here, term_text(body, array_at(s, pos, pool).unwrap().index, depth).unwrap()),
        ends(
            s2,
            here + term_text(body, array_at(s, pos, pool).unwrap().index, depth).unwrap().len(),
        ),
    ensures
        ({
            let step = array_at(s, pos, pool).unwrap();
            let tx = term_text(body, step.index, depth).unwrap();
            &&& 0 <= here < s2.len()
            &&& s2[here] == 91
            &&& array_at(s2, here, pool) == Ok::<Step, ParseError>(
                Step { pool: step.pool, index: step.index, end: skip(s2, here + tx.len()) },
            )
            &&& tx.len() >= step.pool.body.len() - pool.body.len()
            &&& tx.len() >= 1
            &&& starts(tx[0])
        }),
    decreases left(s, pos), 0nat,
{
    reveal(holds);
    let step = array_at(s, pos, pool).unwrap();
    let tx = term_text(body, step.index, depth).unwrap();
    lemma_array_sound(s, pos, pool);
    lemma_skip_left(s, pos + 1);
    let start = skip(s, pos + 1);
    crate::lex::lemma_run_bound(s, start, Class::Digit);
    let (n, next) = uint_at(s, start).unwrap();
    lemma_items_sound(s, next, pool, pool, Seq::empty());
    let (after, items, shut) = items_at(s, next, pool, Seq::empty()).unwrap();
    let term = Term::Array(n, items);
    assert(step == finish(s, after, term, shut + 1));
    assert(body[step.index as int] == step.pool.body[step.index as int]);
    assert(body[step.index as int] == term);
    let d = (depth - 1) as nat;
    let under = items_text(body, items, d).unwrap();
    assert(tx == seq![91u8] + dec(n as nat) + under + seq![93u8]);
    lemma_holds_concat(s2, here, seq![91u8] + dec(n as nat) + under, seq![93u8]);
    lemma_holds_concat(s2, here, seq![91u8] + dec(n as nat), under);
    lemma_holds_concat(s2, here, seq![91u8], dec(n as nat));
    let at_n = here + 1;
    let at_items = at_n + dec(n as nat).len();
    let close = at_items + under.len();
    assert(s2[here + 0] == seq![91u8][0]);
    assert(s2[close + 0] == seq![93u8][0]);
    lemma_dec_digits(n as nat);
    assert(s2[at_n + 0] == dec(n as nat)[0]);
    lemma_skip_none(s2, at_n);
    if items.len() > 0 {
        lemma_items_front(body, items, d);
        assert(s2[at_items + 0] == under[0]);
    }
    lemma_uint_reread(s2, at_n, n);
    assert(rereading(pool, after, body)) by {
        assert forall|i: int| 0 <= i < after.body.len() implies #[trigger] body[i]
            == after.body[i] by {
            assert(step.pool.body[i] == after.body[i]);
        }
    }
    assert(items.subrange(0, items.len() as int) =~= items);
    assert(items.subrange(0, 0) =~= Seq::<Index>::empty());
    lemma_holds_concat(s2, at_items, under, seq![93u8]);
    assert(holds(s2, at_items, under + seq![93u8])) by {
        assert forall|i: int| 0 <= i < (under + seq![93u8]).len() implies s2[at_items + i]
            == #[trigger] (under + seq![93u8])[i] by {
            if i < under.len() {
                assert(s2[at_items + i] == under[i]);
            } else {
                assert(s2[close + 0] == seq![93u8][0]);
            }
        }
    }
    lemma_items_reread(s, next, pool, pool, Seq::empty(), body, d, s2, at_items, at_items);
    assert(tx[0] == 91);
}

/// As [`lemma_expr_reread`], for the elements of an array from `pos` on,
/// whose text, with the `]`, stands at `at`; `q` is a position with the
/// same white space behind it.
proof fn lemma_items_reread(
    s: Seq<u8>,
    pos: int,
    before: Pool,
    pool: Pool,
    acc: Seq<Index>,
    body: Seq<Term>,
    depth: nat,
    s2: Seq<u8>,
    q: int,
    at: int,
)
    requires
        sound(pool),
        continues(pool, before),
        0 <= pos <= s.len(),
        pool.body.len() + left(s, pos) <= usize::MAX,
        forall|k: int| 0 <= k < acc.len() ==> #[trigger] acc[k] < pool.body.len(),
        items_at(s, pos, pool, acc) is Ok,
        rereading(pool, items_at(s, pos, pool, acc).unwrap().0, body),
        depth >= items_at(s, pos, pool, acc).unwrap().0.body.len(),
        acc.len() <= items_at(s, pos, pool, acc).unwrap().1.len(),
        items_at(s, pos, pool, acc).unwrap().1.subrange(0, acc.len() as int) == acc,
        items_text(
            body,
            items_at(s, pos, pool, acc).unwrap().1.subrange(
                acc.len() as int,
                items_at(s, pos, pool, acc).unwrap().1.len() as int,
            ),
            depth,
        ).is_some(),
        holds(
            s2,
            at,
            items_text(
                body,
                items_at(s, pos, pool, acc).unwrap().1.subrange(
                    acc.len() as int,
                    items_at(s, pos, pool, acc).unwrap().1.len() as int,
                ),
                depth,
            ).unwrap() + seq![93u8],
        ),
        skip(s2, q) == skip(s2, at),
    ensures
        ({
            let (after, items, shut) = items_at(s, pos, pool, acc).unwrap();
            let under = items_text(
                body,
                items.subrange(acc.len() as int, items.len() as int),
                depth,
            ).unwrap();
            &&& items_at(s2, q, pool, acc) == Ok::<(Pool, Seq<Index>, int), ParseError>(
                (after, items, at + under.len()),
            )
            &&& under.len() >= after.body.len() - pool.body.len()
        }),
    decreases left(s, pos), 2nat,
{
    reveal(holds);
    let (after, items, shut) = items_at(s, pos, pool, acc).unwrap();
    let rest = items.subrange(acc.len() as int, items.len() as int);
    let under = items_text(body, rest, depth).unwrap();
    lemma_skip_left(s, pos);
    lemma_items_sound(s, pos, before, pool, acc);
    let p = skip(s, pos);
    if s[p] == 93 {
        assert(items == acc);
        assert(rest =~= Seq::<Index>::empty());
        assert(s2[at + 0] == (under + seq![93u8])[0]);
        lemma_skip_none(s2, at);
    } else {
        lemma_expr_sound(s, p, pool);
        lemma_skip_twice(s, pos);
        let item = expr_at(s, p, pool).unwrap();
        assert(expr_at(s, p, pool) == expr_at(s, pos, pool)) by {
            assert(skip(s, p) == skip(s, pos));
        }
        let longer = acc.push(item.index);
        assert(continues(item.pool, before)) by {
            assert forall|i: int| 0 <= i < before.body.len() implies #[trigger] item.pool.body[i]
                == before.body[i] by {
                assert(pool.body[i] == before.body[i]);
            }
        }
        lemma_items_sound(s, item.end, item.pool, item.pool, longer);
        lemma_items_extends(s, item.end, item.pool, longer);
        assert(items[acc.len() as int] == item.index) by {
            assert(items.subrange(0, longer.len() as int)[acc.len() as int] == longer[acc.len() as int]);
        }
        assert(rest.len() > 0);
        assert(rest[0] == item.index);
        lemma_items_front(body, rest, depth);
        let txi = term_text(body, item.index, depth).unwrap();
        let tail = rest.drop_first();
        assert(tail =~= items.subrange(longer.len() as int, items.len() as int));
        let under_tail = items_text(body, tail, depth).unwrap();
        assert(under == seq![32u8] + txi + under_tail);
        assert(under + seq![93u8] =~= seq![32u8] + (txi + (under_tail + seq![93u8])));
        lemma_holds_concat(s2, at, seq![32u8], txi + (under_tail + seq![93u8]));
        lemma_holds_concat(s2, at + 1, txi, under_tail + seq![93u8]);
        assert(s2[at + 0] == seq![32u8][0]);
        assert(rereading(pool, item.pool, body)) by {
            assert forall|i: int| 0 <= i < item.pool.body.len() implies #[trigger] body[i]
                == item.pool.body[i] by {
                assert(after.body[i] == item.pool.body[i]);
            }
        }
        assert(rereading(item.pool, after, body));
        lemma_text_starts(body, item.index, depth);
        assert(s2[at + 1 + 0] == txi[0]);
        lemma_skip_one(s2, at);
        let at_tail = at + 1 + txi.len();
        assert(s2[at_tail + 0] == (under_tail + seq![93u8])[0]);
        if tail.len() > 0 {
            lemma_items_front(body, tail, depth);
            assert((under_tail + seq![93u8])[0] == 32);
        } else {
            assert((under_tail + seq![93u8])[0] == 93);
        }
        lemma_skip_none(s2, at + 1);
        lemma_expr_reread(s, p, pool, body, depth, s2, at + 1);
        lemma_skip_twice(s2, at_tail);
        lemma_items_reread(
            s,
            item.end,
            before,
            item.pool,
            longer,
            body,
            depth,
            s2,
            skip(s2, at_tail),
            at_tail,
        );
    }
}

/// The elements that are read go behind those read before.
proof fn lemma_items_extends(s: Seq<u8>, pos: int, pool: Pool, acc: Seq<Index>)
    requires
        items_at(s, pos, pool, acc) is Ok,
    ensures
        acc.len() <= items_at(s, pos, pool, acc).unwrap().1.len(),
        items_at(s, pos, pool, acc).unwrap().1.subrange(0, acc.len() as int) == acc,
    decreases left(s, pos), 2nat,
{
    reveal(holds);
    let p = skip(s, pos);
    if 0 <= p < s.len() && s[p] != 93 {
        let item = expr_at(s, p, pool).unwrap();
        if item.end > pos {
            lemma_items_extends(s, item.end, item.pool, acc.push(item.index));
            let items = items_at(s, pos, pool, acc).unwrap().1;
            assert(items.subrange(0, acc.len() as int) =~= items.subrange(
                0,
                acc.len() as int + 1,
            ).subrange(0, acc.len() as int));
            assert(acc.push(item.index).subrange(0, acc.len() as int) =~= acc);
        }
    } else {
        let items = items_at(s, pos, pool, acc).unwrap().1;
        assert(items.subrange(0, acc.len() as int) =~= acc);
    }
}

/// The header of a text, read again, gives the version and the size that
/// were written, and leaves what follows the header to be read.
proof fn lemma_header_reread(t: Seq<u8>, version: (usize, usize), size: usize, rest: Seq<u8>)
    requires
        t == seq![118u8] + dec(version.0 as nat) + seq![46u8] + dec(version.1 as nat) + seq![10u8]
            + dec(size as nat) + seq![10u8] + rest,
        rest.len() > 0,
        starts(rest[0]),
    ensures
        ({
            let header = t.len() - rest.len();
            &&& version_at(t, skip(t, 0)) is Ok
            &&& version_at(t, skip(t, 0)).unwrap().0 == version
            &&& uint_at(t, skip(t, version_at(t, skip(t, 0)).unwrap().1)) == Ok::<
                (usize, int),
                ParseError,
            >((size, header - 1))
            &&& skip(t, header - 1) == header
            &&& holds(t, header, rest)
        }),
{
    reveal(holds);
    let major = dec(version.0 as nat);
    let minor = dec(version.1 as nat);
    let count = dec(size as nat);
    lemma_dec_digits(version.0 as nat);
    lemma_dec_digits(version.1 as nat);
    lemma_dec_digits(size as nat);
    let at_major = 1int;
    let dot = at_major + major.len();
    let at_minor = dot + 1;
    let line = at_minor + minor.len();
    let at_size = line + 1;
    let shut = at_size + count.len();
    let header = shut + 1;
    assert(t.len() == header + rest.len());
    assert(t[0] == 118);
    assert(t[dot] == 46);
    assert(t[line] == 10);
    assert(t[shut] == 10);
    assert(t[header] == rest[0]);
    assert(holds(t, at_major, major)) by {
        assert forall|i: int| 0 <= i < major.len() implies t[at_major + i] == #[trigger] major[i] by {}
    }
    assert(holds(t, at_minor, minor)) by {
        assert forall|i: int| 0 <= i < minor.len() implies t[at_minor + i] == #[trigger] minor[i] by {}
    }
    assert(holds(t, at_size, count)) by {
        assert forall|i: int| 0 <= i < count.len() implies t[at_size + i] == #[trigger] count[i] by {}
    }
    assert(holds(t, header, rest)) by {
        assert forall|i: int| 0 <= i < rest.len() implies t[header + i] == #[trigger] rest[i] by {}
    }
    lemma_skip_none(t, 0);
    lemma_uint_reread(t, at_major, version.0);
    lemma_uint_reread(t, at_minor, version.1);
    assert(t[at_size] == count[0]);
    lemma_skip_one(t, line);
    lemma_uint_reread(t, at_size, size);
    lemma_skip_one(t, shut);
}

impl ProgramView {
    /// Whether every expression of the program reads back from its text:
    /// see [`rereadable`].
    pub open spec fn rereads(self) -> bool {
        forall|i: int| 0 <= i < self.body.len() ==> rereadable(#[trigger] self.body[i])
    }
}

/// The text of a file that was read, read again, gives the same file, where
/// every expression of the file reads back from its text.
pub proof fn lemma_file_reread(s: Seq<u8>)
    requires
        s.len() <= usize::MAX,
        file_of(s) is Ok,
        file_of(s).unwrap().program.rereads(),
    ensures
        file_of(s).unwrap().text().is_some(),
        file_of(file_of(s).unwrap().text().unwrap()) == file_of(s),
{
    let file = file_of(s).unwrap();
    let program = file.program;
    lemma_file_sound(s);
    lemma_ordered_program_text(program);
    let tx = program.text().unwrap();
    let t = file.text().unwrap();
    // what the file was read from
    lemma_skip_left(s, 0);
    let (version, after_version) = version_at(s, skip(s, 0)).unwrap();
    assert(0 <= after_version <= s.len()) by {
        crate::lex::lemma_run_bound(s, skip(s, 0) + 1, Class::Digit);
        let dot = uint_at(s, skip(s, 0) + 1).unwrap().1;
        crate::lex::lemma_run_bound(s, dot + 1, Class::Digit);
    }
    lemma_skip_left(s, after_version);
    let (size, next) = uint_at(s, skip(s, after_version)).unwrap();
    assert(0 <= next <= s.len()) by {
        crate::lex::lemma_run_bound(s, skip(s, after_version), Class::Digit);
    }
    let empty = Pool { body: Seq::empty(), defs: Seq::new(size as nat, |l: int| None) };
    lemma_empty_sound(size as nat);
    lemma_expr_sound(s, next, empty);
    let root = expr_at(s, next, empty).unwrap();
    assert(program.body == root.pool.body);
    assert(program.root == root.index);
    // the text
    assert(t == file.header_text() + tx);
    lemma_text_starts(program.body, program.root, program.body.len());
    lemma_header_reread(t, version, size, tx);
    let header = t.len() - tx.len();
    lemma_skip_none(t, t.len() as int);
    lemma_expr_reread(s, next, empty, program.body, program.body.len(), t, header - 1);
}

} // verus!
