//! What holds of every file that the grammar accepts: the program is closed,
//! every expression stands behind its children, and every label has its
//! definition.

use vstd::prelude::*;
use crate::expr::Index;
use crate::expr::ProgramView;
use crate::expr::Term;
use crate::grammar::all_defined;
use crate::grammar::app_at;
use crate::grammar::array_at;
use crate::grammar::define;
use crate::grammar::expr_at;
use crate::grammar::file_of;
use crate::grammar::finish;
use crate::grammar::items_at;
use crate::grammar::label_at;
use crate::grammar::leaf_at;
use crate::grammar::left;
use crate::grammar::program_at;
use crate::grammar::skip;
use crate::grammar::uint_at;
use crate::grammar::version_at;
use crate::grammar::Pool;
use crate::grammar::Step;

verus! {

/// Whether the expression `t` may stand at position `i` of a body read from
/// a file with `size` labels: its children stand before it, its label is
/// one of the file's, and an array holds as many elements as it declares.
pub open spec fn settled(t: Term, i: int, size: nat) -> bool {
    match t {
        Term::App(f, _, a) => f < i && a < i,
        Term::Array(n, v) => n == v.len() && forall|k: int| 0 <= k < v.len() ==> #[trigger] v[k] < i,
        Term::Ref(r) => r < size,
        _ => true,
    }
}

/// The number of labels that have a definition.
pub open spec fn defined(defs: Seq<Option<Index>>) -> nat
    decreases defs.len(),
{
    if defs.len() == 0 {
        0
    } else {
        defined(defs.drop_last()) + if defs.last() is Some {
            1nat
        } else {
            0nat
        }
    }
}

/// Whether every expression of a pool is settled where it stands, and every
/// definition lies in the body.
pub open spec fn settled_pool(pool: Pool) -> bool {
    &&& forall|i: int|
        0 <= i < pool.body.len() ==> settled(#[trigger] pool.body[i], i, pool.defs.len())
    &&& forall|l: int|
        0 <= l < pool.defs.len() ==> ((#[trigger] pool.defs[l]) matches Some(d) ==> d
            < pool.body.len())
}

/// Whether a pool is sound: settled, and with no more definitions than
/// expressions, as each application defines at most one label.
#[verifier::opaque]
pub open spec fn sound(pool: Pool) -> bool {
    settled_pool(pool) && defined(pool.defs) <= pool.body.len()
}

/// A definition more is at most one label more that has one.
proof fn lemma_defined_update(defs: Seq<Option<Index>>, l: int, d: Index)
    requires
        0 <= l < defs.len(),
    ensures
        defined(defs.update(l, Some(d))) <= defined(defs) + 1,
    decreases defs.len(),
{
    let next = defs.update(l, Some(d));
    if l == defs.len() - 1 {
        assert(next.drop_last() =~= defs.drop_last());
    } else {
        assert(next.drop_last() =~= defs.drop_last().update(l, Some(d)));
        lemma_defined_update(defs.drop_last(), l, d);
    }
}

/// Where every label has its definition, there are as many as labels.
proof fn lemma_defined_all(defs: Seq<Option<Index>>)
    requires
        all_defined(defs),
    ensures
        defined(defs) == defs.len(),
    decreases defs.len(),
{
    if defs.len() > 0 {
        assert(all_defined(defs.drop_last())) by {
            assert forall|l: int| 0 <= l < defs.drop_last().len() implies (
            #[trigger] defs.drop_last()[l]) is Some by {
                assert(defs[l] is Some);
            }
        }
        lemma_defined_all(defs.drop_last());
        assert(defs[defs.len() - 1] is Some);
    }
}

/// Before anything is read, no label has a definition.
proof fn lemma_defined_none(n: nat)
    ensures
        defined(Seq::new(n, |l: int| None::<Index>)) == 0,
    decreases n,
{
    if n > 0 {
        lemma_defined_none((n - 1) as nat);
        assert(Seq::new(n, |l: int| None::<Index>).drop_last() =~= Seq::new(
            (n - 1) as nat,
            |l: int| None::<Index>,
        ));
    }
}

/// Whether the pool `after` continues the pool `before`: for the same labels,
/// with the body of `before` at the start of its own.
pub open spec fn continues(after: Pool, before: Pool) -> bool {
    &&& after.defs.len() == before.defs.len()
    &&& after.body.len() >= before.body.len()
    &&& forall|i: int| 0 <= i < before.body.len() ==> #[trigger] after.body[i] == before.body[i]
}

/// Whether a step from the pool `before` is sound: its pool is, continues
/// `before`, and has the expression read at its end, under the index that
/// the step gives.
pub open spec fn sound_step(step: Step, before: Pool) -> bool {
    &&& sound(step.pool)
    &&& continues(step.pool, before)
    &&& step.pool.body.len() > before.body.len()
    &&& step.index == step.pool.body.len() - 1
}

proof fn lemma_leaf_settled(s: Seq<u8>, pos: int, size: nat, i: int)
    requires
        0 <= pos < s.len(),
    ensures
        leaf_at(s, pos, size) matches Ok((term, _)) ==> settled(term, i, size),
{
}

proof fn lemma_finish_sound(s: Seq<u8>, before: Pool, pool: Pool, term: Term, end: int)
    requires
        settled_pool(pool),
        defined(pool.defs) <= pool.body.len() + 1,
        continues(pool, before),
        settled(term, pool.body.len() as int, pool.defs.len()),
        pool.body.len() < usize::MAX,
    ensures
        sound_step(finish(s, pool, term, end), before),
{
    reveal(sound);
    let step = finish(s, pool, term, end);
    assert forall|i: int| 0 <= i < step.pool.body.len() implies settled(
        #[trigger] step.pool.body[i],
        i,
        step.pool.defs.len(),
    ) by {
        if i < pool.body.len() {
            assert(step.pool.body[i] == pool.body[i]);
        }
    }
    assert forall|l: int| 0 <= l < step.pool.defs.len() implies ((
    #[trigger] step.pool.defs[l]) matches Some(d) ==> d < step.pool.body.len()) by {
        assert(step.pool.defs[l] == pool.defs[l]);
    }
}

/// Reading an expression from a sound pool is a sound step.
pub proof fn lemma_expr_sound(s: Seq<u8>, pos: int, pool: Pool)
    requires
        sound(pool),
        pool.body.len() + left(s, pos) <= usize::MAX,
    ensures
        expr_at(s, pos, pool) matches Ok(step) ==> sound_step(step, pool) && step.pool.body.len()
            + left(s, step.end) <= pool.body.len() + left(s, pos) && pos < step.end <= s.len(),
    decreases left(s, pos), 1nat,
{
    reveal(sound);
    let p = skip(s, pos);
    crate::lex::lemma_run_bound(s, if 0 <= pos <= s.len() { pos } else { 0 }, crate::lex::Class::Space);
    if 0 <= p < s.len() {
        if s[p] == 40 {
            lemma_app_sound(s, p, pool);
        } else if s[p] == 91 {
            lemma_array_sound(s, p, pool);
        } else {
            match leaf_at(s, p, pool.defs.len()) {
                Ok((term, end)) => {
                    lemma_leaf_settled(s, p, pool.defs.len(), pool.body.len() as int);
                    lemma_leaf_advances(s, p, pool.defs.len());
                    lemma_finish_sound(s, pool, pool, term, end);
                    lemma_skip_left(s, end);
                },
                Err(_) => {},
            }
        }
    }
}

/// White space takes nothing away from what a pool may still grow by.
pub proof fn lemma_skip_left(s: Seq<u8>, pos: int)
    requires
        0 <= pos <= s.len(),
    ensures
        pos <= skip(s, pos) <= s.len(),
        left(s, skip(s, pos)) <= left(s, pos),
{
    crate::lex::lemma_run_bound(s, pos, crate::lex::Class::Space);
}

/// A leaf takes at least one byte, and ends within the input.
pub proof fn lemma_leaf_advances(s: Seq<u8>, pos: int, size: nat)
    requires
        0 <= pos < s.len(),
    ensures
        leaf_at(s, pos, size) matches Ok((_, end)) ==> pos < end <= s.len(),
{
    crate::lex::lemma_run_bound(s, pos, crate::lex::Class::Prim);
    crate::lex::lemma_run_bound(s, pos + 1, crate::lex::Class::Digit);
    crate::lex::lemma_run_bound(s, pos + 1, crate::lex::Class::Alnum);
    if pos + 2 <= s.len() {
        crate::lex::lemma_run_bound(s, pos + 2, crate::lex::Class::Digit);
        lemma_string_advances(s, pos + 2, Seq::empty());
    }
    lemma_string_advances(s, pos + 1, Seq::empty());
}

/// A string literal ends within the input.
proof fn lemma_string_advances(s: Seq<u8>, pos: int, acc: Seq<u8>)
    requires
        0 <= pos <= s.len(),
    ensures
        crate::grammar::string_body(s, pos, acc) matches Ok((_, end)) ==> pos < end <= s.len(),
    decreases left(s, pos),
{
    if pos < s.len() {
        if s[pos] == 34 {
        } else if s[pos] == 92 {
            let n = crate::lex::run(s, pos + 1, crate::lex::Class::Digit);
            crate::lex::lemma_run_bound(s, pos + 1, crate::lex::Class::Digit);
            let value = crate::lex::dec_value(s.subrange(pos + 1, pos + 1 + n));
            if n != 0 && value <= 255 {
                lemma_string_advances(s, pos + 1 + n, acc.push(value as u8));
            }
        } else {
            let n = 1 + crate::lex::run(s, pos + 1, crate::lex::Class::Plain);
            crate::lex::lemma_run_bound(s, pos + 1, crate::lex::Class::Plain);
            lemma_string_advances(s, pos + n, acc + s.subrange(pos, pos + n));
        }
    }
}

pub proof fn lemma_app_sound(s: Seq<u8>, pos: int, pool: Pool)
    requires
        sound(pool),
        0 <= pos < s.len(),
        pool.body.len() + left(s, pos) <= usize::MAX,
    ensures
        app_at(s, pos, pool) matches Ok(step) ==> sound_step(step, pool) && step.pool.body.len()
            + left(s, step.end) <= pool.body.len() + left(s, pos) && pos < step.end <= s.len(),
    decreases left(s, pos), 0nat,
{
    reveal(sound);
    lemma_expr_sound(s, pos + 1, pool);
    match expr_at(s, pos + 1, pool) {
        Err(_) => {},
        Ok(f) => {
            crate::lex::lemma_run_bound(
                s,
                if 0 <= f.end + 1 <= s.len() { f.end + 1 } else { 0 },
                crate::lex::Class::Digit,
            );
            match label_at(s, f.end, pool.defs.len()) {
                Err(_) => {},
                Ok((label, next)) => {
                    if next > pos {
                        lemma_expr_sound(s, next, f.pool);
                        match expr_at(s, next, f.pool) {
                            Err(_) => {},
                            Ok(a) => {
                                if 0 <= a.end < s.len() && s[a.end] == 41 {
                                    let pool2 = define(a.pool, label, a.index);
                                    let term = Term::App(f.index, label, a.index);
                                    assert(settled_pool(pool2)) by {
                                        assert forall|i: int| 0 <= i < pool2.body.len() implies settled(
                                            #[trigger] pool2.body[i],
                                            i,
                                            pool2.defs.len(),
                                        ) by {
                                            assert(pool2.body[i] == a.pool.body[i]);
                                        }
                                    }
                                    if let Some(l) = label {
                                        lemma_defined_update(a.pool.defs, l as int, a.index);
                                    }
                                    assert(continues(pool2, pool)) by {
                                        assert forall|i: int|
                                            0 <= i < pool.body.len() implies #[trigger] pool2.body[i]
                                            == pool.body[i] by {
                                            assert(f.pool.body[i] == pool.body[i]);
                                            assert(a.pool.body[i] == f.pool.body[i]);
                                        }
                                    }
                                    lemma_finish_sound(s, pool, pool2, term, a.end + 1);
                                    lemma_skip_left(s, a.end + 1);
                                }
                            },
                        }
                    }
                },
            }
        },
    }
}

pub proof fn lemma_array_sound(s: Seq<u8>, pos: int, pool: Pool)
    requires
        sound(pool),
        0 <= pos < s.len(),
        pool.body.len() + left(s, pos) <= usize::MAX,
    ensures
        array_at(s, pos, pool) matches Ok(step) ==> sound_step(step, pool) && step.pool.body.len()
            + left(s, step.end) <= pool.body.len() + left(s, pos) && pos < step.end <= s.len(),
    decreases left(s, pos), 0nat,
{
    reveal(sound);
    lemma_skip_left(s, pos + 1);
    let start = skip(s, pos + 1);
    crate::lex::lemma_run_bound(s, start, crate::lex::Class::Digit);
    match uint_at(s, start) {
        Err(_) => {},
        Ok((n, next)) => {
            lemma_items_sound(s, next, pool, pool, Seq::empty());
            match items_at(s, next, pool, Seq::empty()) {
                Err(_) => {},
                Ok((pool2, items, close)) => {
                    if items.len() == n {
                        lemma_finish_sound(s, pool, pool2, Term::Array(n, items), close + 1);
                        lemma_skip_left(s, close + 1);
                    }
                },
            }
        },
    }
}

pub proof fn lemma_items_sound(s: Seq<u8>, pos: int, before: Pool, pool: Pool, acc: Seq<Index>)
    requires
        sound(pool),
        continues(pool, before),
        0 <= pos <= s.len(),
        pool.body.len() + left(s, pos) <= usize::MAX,
        forall|k: int| 0 <= k < acc.len() ==> #[trigger] acc[k] < pool.body.len(),
    ensures
        items_at(s, pos, pool, acc) matches Ok((after, items, close)) ==> {
            &&& sound(after)
            &&& continues(after, before)
            &&& forall|k: int| 0 <= k < items.len() ==> #[trigger] items[k] < after.body.len()
            &&& 0 <= close < s.len()
            &&& after.body.len() + left(s, close + 1) < pool.body.len() + left(s, pos)
        },
    decreases left(s, pos), 2nat,
{
    reveal(sound);
    lemma_skip_left(s, pos);
    let p = skip(s, pos);
    if 0 <= p < s.len() && s[p] != 93 {
        lemma_expr_sound(s, p, pool);
        match expr_at(s, p, pool) {
            Err(_) => {},
            Ok(item) => {
                if item.end > pos && item.end <= s.len() {
                    let longer = acc.push(item.index);
                    assert(continues(item.pool, before)) by {
                        assert forall|i: int|
                            0 <= i < before.body.len() implies #[trigger] item.pool.body[i]
                            == before.body[i] by {
                            assert(pool.body[i] == before.body[i]);
                        }
                    }
                    lemma_items_sound(s, item.end, before, item.pool, longer);
                }
            },
        }
    }
}

/// The pool that reading starts from is sound.
pub proof fn lemma_empty_sound(size: nat)
    ensures
        sound(Pool { body: Seq::empty(), defs: Seq::new(size, |l: int| None) }),
{
    reveal(sound);
    lemma_defined_none(size);
    let empty = Pool { body: Seq::empty(), defs: Seq::new(size, |l: int| None) };
    assert(empty.defs =~= Seq::new(size, |l: int| None::<Index>));
}

impl ProgramView {
    /// Whether the program is as a file gives it: closed, with every
    /// expression behind its children.
    pub open spec fn sound(self) -> bool {
        self.wf() && self.ordered()
    }
}

/// The program of every file that the grammar accepts is closed, lists
/// every expression behind its children, and has as many definitions as the
/// file declares.
pub proof fn lemma_file_sound(s: Seq<u8>)
    requires
        s.len() <= usize::MAX,
    ensures
        file_of(s) matches Ok(file) ==> file.program.sound() && file.program.defs.len()
            == file.size && file.size <= file.program.body.len() <= s.len(),
{
    reveal(sound);
    lemma_skip_left(s, 0);
    match version_at(s, skip(s, 0)) {
        Err(_) => {},
        Ok((version, end)) => {
            if 0 <= end <= s.len() {
                lemma_skip_left(s, end);
            }
            match uint_at(s, skip(s, end)) {
                Err(_) => {},
                Ok((size, next)) => {
                    if size <= s.len() {
                        let empty = Pool {
                            body: Seq::empty(),
                            defs: Seq::new(size as nat, |l: int| None),
                        };
                        lemma_defined_none(size as nat);
                        assert(empty.defs =~= Seq::new(size as nat, |l: int| None::<Index>));
                        assert(sound(empty));
                        lemma_expr_sound(s, next, empty);
                        match program_at(s, next, size) {
                            Err(_) => {},
                            Ok((program, end)) => {
                                let root = expr_at(s, next, empty).unwrap();
                                assert(all_defined(root.pool.defs));
                                lemma_defined_all(root.pool.defs);
                                assert forall|i: int|
                                    0 <= i < program.body.len() implies (
                                #[trigger] program.body[i]).closed(
                                    program.body.len(),
                                    program.defs,
                                ) by {
                                    assert(settled(root.pool.body[i], i, root.pool.defs.len()));
                                    match program.body[i] {
                                        Term::Ref(r) => {
                                            assert(root.pool.defs[r as int] is Some);
                                        },
                                        _ => {},
                                    }
                                }
                                assert forall|i: int, k: int|
                                    0 <= i < program.body.len() && 0 <= k
                                        < program.body[i].children().len() implies (
                                #[trigger] program.body[i].children()[k]) < i by {
                                    assert(settled(root.pool.body[i], i, root.pool.defs.len()));
                                }
                            },
                        }
                    }
                },
            }
        },
    }
}

} // verus!
