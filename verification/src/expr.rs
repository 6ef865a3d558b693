//! The flat program: a pool of expressions that refer to each other by index.

use vstd::prelude::*;
use crate::comb::Prim;

verus! {

/// Position of an expression in a program's body.
pub type Index = usize;

/// Name of a definition.
pub type Label = usize;

/// Integer literal.
pub type Int = i64;

/// One expression of a program. Children are held by index, never owned.
#[derive(Debug)]
pub enum Expr {
    /// Application of two expressions, with possible definition label: `(func [:label] arg)`.
    App(Index, Option<Label>, Index),
    /// Floating point literal `&float`, kept as the text of the number.
    Float(Vec<u8>),
    /// Integer literal, possibly negative: `#[-]int`.
    Int(Int),
    /// Fixed size array of expressions: `[size arr]`.
    Array(usize, Vec<Index>),
    /// Reference to some labeled definition: `_label`.
    Ref(Label),
    /// String literal: `"str"`.
    String(Vec<u8>),
    /// Tick mark: `!"tick"`.
    Tick(Vec<u8>),
    /// FFI symbol: `^symbol`.
    Ffi(Vec<u8>),
    /// Combinators and other primitives, e.g. `S` or `IO.>>=`.
    Prim(Prim),
    /// A token that looks like a primitive but names none.
    Unknown(Vec<u8>),
}

/// The mathematical value of an [`Expr`].
pub enum Term {
    App(Index, Option<Label>, Index),
    Float(Seq<u8>),
    Int(Int),
    Array(usize, Seq<Index>),
    Ref(Label),
    String(Seq<u8>),
    Tick(Seq<u8>),
    Ffi(Seq<u8>),
    Prim(Prim),
    Unknown(Seq<u8>),
}

impl View for Expr {
    type V = Term;

    open spec fn view(&self) -> Term {
        match *self {
            Expr::App(f, l, a) => Term::App(f, l, a),
            Expr::Float(s) => Term::Float(s@),
            Expr::Int(i) => Term::Int(i),
            Expr::Array(n, v) => Term::Array(n, v@),
            Expr::Ref(l) => Term::Ref(l),
            Expr::String(s) => Term::String(s@),
            Expr::Tick(s) => Term::Tick(s@),
            Expr::Ffi(s) => Term::Ffi(s@),
            Expr::Prim(p) => Term::Prim(p),
            Expr::Unknown(s) => Term::Unknown(s@),
        }
    }
}

impl Term {
    /// The expressions this one points at directly, in order. A reference
    /// points at a label, not at an expression, and has no children.
    pub open spec fn children(self) -> Seq<Index> {
        match self {
            Term::App(f, _, a) => seq![f, a],
            Term::Array(_, v) => v,
            _ => Seq::empty(),
        }
    }
}

/// The values of a sequence of expressions.
pub open spec fn terms(body: Seq<Expr>) -> Seq<Term> {
    body.map_values(|e: Expr| e@)
}

fn clone_bytes(v: &Vec<u8>) -> (r: Vec<u8>)
    ensures
        r@ == v@,
{
    let r = v.clone();
    assert(r@ =~= v@);
    r
}

fn clone_indices(v: &Vec<Index>) -> (r: Vec<Index>)
    ensures
        r@ == v@,
{
    let r = v.clone();
    assert(r@ =~= v@);
    r
}

impl Clone for Expr {
    fn clone(&self) -> (r: Expr)
        ensures
            r@ == self@,
    {
        match self {
            Expr::App(f, l, a) => Expr::App(*f, *l, *a),
            Expr::Float(s) => Expr::Float(clone_bytes(s)),
            Expr::Int(i) => Expr::Int(*i),
            Expr::Array(n, v) => Expr::Array(*n, clone_indices(v)),
            Expr::Ref(l) => Expr::Ref(*l),
            Expr::String(s) => Expr::String(clone_bytes(s)),
            Expr::Tick(s) => Expr::Tick(clone_bytes(s)),
            Expr::Ffi(s) => Expr::Ffi(clone_bytes(s)),
            Expr::Prim(p) => Expr::Prim(*p),
            Expr::Unknown(s) => Expr::Unknown(clone_bytes(s)),
        }
    }
}

/// A program in flat form.
#[derive(Debug)]
pub struct Program {
    /// The root combinator expression.
    pub root: Index,
    /// The pool of expressions, in the order in which they were completed.
    pub body: Vec<Expr>,
    /// For each label, the expression it names.
    pub defs: Vec<Index>,
}

impl Clone for Program {
    fn clone(&self) -> (r: Program)
        ensures
            r@ == self@,
    {
        let mut body: Vec<Expr> = Vec::new();
        let mut i: usize = 0;
        while i < self.body.len()
            invariant
                i <= self.body.len(),
                body@.len() == i,
                forall|j: int| 0 <= j < i ==> (#[trigger] body@[j])@ == self.body@[j]@,
            decreases self.body.len() - i,
        {
            body.push(self.body[i].clone());
            i += 1;
        }
        assert(terms(body@) =~= terms(self.body@));
        Program { root: self.root, body, defs: clone_indices(&self.defs) }
    }
}

/// The mathematical value of a [`Program`].
pub struct ProgramView {
    pub root: Index,
    pub body: Seq<Term>,
    pub defs: Seq<Index>,
}

impl View for Program {
    type V = ProgramView;

    open spec fn view(&self) -> ProgramView {
        ProgramView { root: self.root, body: terms(self.body@), defs: self.defs@ }
    }
}

/// A combinator file: a header and the program it carries.
#[derive(Debug)]
pub struct CombFile {
    /// (Major, minor)
    pub version: (usize, usize),
    /// (Maximum) number of definitions.
    pub size: usize,
    /// Program embedded in the comb file.
    pub program: Program,
}

impl Clone for CombFile {
    fn clone(&self) -> (r: CombFile)
        ensures
            r@ == self@,
    {
        CombFile { version: self.version, size: self.size, program: self.program.clone() }
    }
}

/// The mathematical value of a [`CombFile`].
pub struct CombFileView {
    pub version: (usize, usize),
    pub size: usize,
    pub program: ProgramView,
}

impl View for CombFile {
    type V = CombFileView;

    open spec fn view(&self) -> CombFileView {
        CombFileView { version: self.version, size: self.size, program: self.program@ }
    }
}


impl Term {
    /// The number of edges that leave the node of this expression.
    pub open spec fn degree(self) -> nat {
        match self {
            Term::App(_, _, _) => 2,
            Term::Array(_, v) => v.len(),
            Term::Ref(_) => 1,
            _ => 0,
        }
    }

    /// Whether everything the expression points at exists: its children in a
    /// body of `len` expressions, its label among `defs` and the definition in
    /// the body; and whether an array holds as many elements as it declares.
    pub open spec fn closed(self, len: nat, defs: Seq<Index>) -> bool {
        match self {
            Term::App(f, _, a) => f < len && a < len,
            Term::Array(n, v) => n == v.len() && forall|k: int|
                0 <= k < v.len() ==> #[trigger] v[k] < len,
            Term::Ref(r) => r < defs.len() && defs[r as int] < len,
            _ => true,
        }
    }
}

/// The number of edges that leave the nodes of the first `upto` expressions.
pub open spec fn total_degree(body: Seq<Term>, upto: nat) -> nat
    decreases upto,
{
    if upto == 0 {
        0
    } else {
        total_degree(body, (upto - 1) as nat) + body[upto - 1].degree()
    }
}

impl ProgramView {
    /// Whether the program is closed: the root and all that any expression
    /// points at lie within the body.
    pub open spec fn wf(self) -> bool {
        &&& self.root < self.body.len()
        &&& forall|i: int|
            0 <= i < self.body.len() ==> (#[trigger] self.body[i]).closed(
                self.body.len(),
                self.defs,
            )
    }

    /// Whether every expression stands behind its children in the body, as
    /// it does where the body lists the expressions in the order in which
    /// they end in a text.
    pub open spec fn ordered(self) -> bool {
        forall|i: int, k: int|
            0 <= i < self.body.len() && 0 <= k < self.body[i].children().len() ==> (
            #[trigger] self.body[i].children()[k]) < i
    }

    /// The number of edges of the program's graph.
    pub open spec fn edges(self) -> nat {
        total_degree(self.body, self.body.len())
    }

    /// Whether the program's graph can be held: closed, and with fewer nodes
    /// and fewer edges than the largest `u32`.
    pub open spec fn fits(self) -> bool {
        self.wf() && self.body.len() < u32::MAX && self.edges() < u32::MAX
    }
}

impl Program {
    /// The positions of the tokens that name no primitive, by rising
    /// position: what a reader of the program may want to tell its user.
    pub fn unknowns(&self) -> (found: Vec<Index>)
        ensures
            forall|i: int, j: int| 0 <= i < j < found@.len() ==> found@[i] < found@[j],
            forall|i: Index|
                found@.contains(i) <==> i < self@.body.len() && self@.body[i as int] is Unknown,
    {
        let mut found: Vec<Index> = Vec::new();
        let mut i: usize = 0;
        while i < self.body.len()
            invariant
                i <= self.body.len(),
                forall|a: int, b: int| 0 <= a < b < found@.len() ==> found@[a] < found@[b],
                forall|a: int| 0 <= a < found@.len() ==> found@[a] < i,
                forall|k: Index|
                    found@.contains(k) <==> k < i && terms(self.body@)[k as int] is Unknown,
            decreases self.body.len() - i,
        {
            let ghost before = found@;
            let ghost body = terms(self.body@);
            assert(body[i as int] == self.body@[i as int]@);
            if let Expr::Unknown(_) = &self.body[i] {
                found.push(i);
                proof {
                    assert(found@[found@.len() - 1] == i);
                    assert forall|k: Index| found@.contains(k) implies before.contains(k) || k
                        == i by {
                        let a = choose|a: int| 0 <= a < found@.len() && found@[a] == k;
                        if a < before.len() {
                            assert(before[a] == k);
                        }
                    }
                    assert forall|k: Index| before.contains(k) implies found@.contains(k) by {
                        let a = choose|a: int| 0 <= a < before.len() && before[a] == k;
                        assert(found@[a] == k);
                    }
                }
            }
            proof {
                assert forall|k: Index| found@.contains(k) <==> k < i + 1 && body[k as int]
                    is Unknown by {
                    if k == i {
                        if body[k as int] is Unknown {
                            assert(found@[found@.len() - 1] == k);
                        } else if found@.contains(k) {
                            assert(before.contains(k));
                        }
                    } else {
                        assert(before.contains(k) <==> k < i && body[k as int] is Unknown);
                    }
                }
            }
            i += 1;
        }
        found
    }
}

} // verus!
