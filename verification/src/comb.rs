//! Combinators and the other primitives: the closed table of tokens that a
//! combinator file may name, and the arity of each combinator.

use vstd::prelude::*;
use vstd::utf8::is_ascii_chars;
use vstd::string::StringExecFns;
use vstd::string::StringSliceAdditionalSpecFns;
use crate::lex::Class;
use crate::text::ascii;
use crate::text::lemma_ascii_injective;
use crate::text::spells;

pub use crate::expr::CombFile;
pub use crate::expr::Expr;
pub use crate::expr::Index;
pub use crate::expr::Int;
pub use crate::expr::Label;
pub use crate::expr::Program;

verus! {

/// A token that names no primitive.
#[derive(Debug, Clone, Copy, PartialEq, Eq, Structural)]
pub struct UnknownToken;

/// The combinators, each with a fixed number of arguments.
#[derive(Debug, Clone, Copy, PartialEq, Eq, Structural)]
pub enum Combinator {
    /// `S`
    S,
    /// `K`
    K,
    /// `I`
    I,
    /// `B`
    B,
    /// `C`
    C,
    /// `A`
    A,
    /// `Y`
    Y,
    /// `S'`
    SS,
    /// `B'`
    BB,
    /// `C'`
    CC,
    /// `P`
    P,
    /// `R`
    R,
    /// `O`
    O,
    /// `U`
    U,
    /// `Z`
    Z,
    /// `K2`
    K2,
    /// `K3`
    K3,
    /// `K4`
    K4,
    /// `C'B`
    CCB,
}

impl Combinator {
    /// The token that names the primitive in a combinator file.
    pub open spec fn spec_token(self) -> Seq<char> {
        match self {
            Combinator::S => "S"@,
            Combinator::K => "K"@,
            Combinator::I => "I"@,
            Combinator::B => "B"@,
            Combinator::C => "C"@,
            Combinator::A => "A"@,
            Combinator::Y => "Y"@,
            Combinator::SS => "S'"@,
            Combinator::BB => "B'"@,
            Combinator::CC => "C'"@,
            Combinator::P => "P"@,
            Combinator::R => "R"@,
            Combinator::O => "O"@,
            Combinator::U => "U"@,
            Combinator::Z => "Z"@,
            Combinator::K2 => "K2"@,
            Combinator::K3 => "K3"@,
            Combinator::K4 => "K4"@,
            Combinator::CCB => "C'B"@,
        }
    }

    /// The primitive of this family that the bytes `tok` name, if there is one.
    pub open spec fn spec_parse(tok: Seq<u8>) -> Option<Combinator> {
        if exists|p: Combinator| ascii(p.spec_token()) == tok {
            Some(choose|p: Combinator| ascii(p.spec_token()) == tok)
        } else {
            None
        }
    }

    /// Every token is a non-empty run of ASCII characters.
    pub proof fn lemma_token_ascii(p: Combinator)
        ensures
            is_ascii_chars(p.spec_token()),
            p.spec_token().len() > 0,
    {
        reveal_strlit("S");
        reveal_strlit("K");
        reveal_strlit("I");
        reveal_strlit("B");
        reveal_strlit("C");
        reveal_strlit("A");
        reveal_strlit("Y");
        reveal_strlit("S'");
        reveal_strlit("B'");
        reveal_strlit("C'");
        reveal_strlit("P");
        reveal_strlit("R");
        reveal_strlit("O");
        reveal_strlit("U");
        reveal_strlit("Z");
        reveal_strlit("K2");
        reveal_strlit("K3");
        reveal_strlit("K4");
        reveal_strlit("C'B");
    }

    /// Every byte of a token is one that tokens are made of, and no token
    /// starts with `&` or `!`.
    pub proof fn lemma_token_shape(p: Combinator)
        ensures
            forall|i: int|
                0 <= i < p.spec_token().len() ==> Class::Prim.has(
                    #[trigger] ascii(p.spec_token())[i],
                ),
            ascii(p.spec_token())[0] != 38,
            ascii(p.spec_token())[0] != 33,
    {
        reveal_strlit("S");
        assert(Class::Prim.has(ascii("S"@)[0]));
        reveal_strlit("K");
        assert(Class::Prim.has(ascii("K"@)[0]));
        reveal_strlit("I");
        assert(Class::Prim.has(ascii("I"@)[0]));
        reveal_strlit("B");
        assert(Class::Prim.has(ascii("B"@)[0]));
        reveal_strlit("C");
        assert(Class::Prim.has(ascii("C"@)[0]));
        reveal_strlit("A");
        assert(Class::Prim.has(ascii("A"@)[0]));
        reveal_strlit("Y");
        assert(Class::Prim.has(ascii("Y"@)[0]));
        reveal_strlit("S'");
        assert(Class::Prim.has(ascii("S'"@)[0]) && Class::Prim.has(ascii("S'"@)[1]));
        reveal_strlit("B'");
        assert(Class::Prim.has(ascii("B'"@)[0]) && Class::Prim.has(ascii("B'"@)[1]));
        reveal_strlit("C'");
        assert(Class::Prim.has(ascii("C'"@)[0]) && Class::Prim.has(ascii("C'"@)[1]));
        reveal_strlit("P");
        assert(Class::Prim.has(ascii("P"@)[0]));
        reveal_strlit("R");
        assert(Class::Prim.has(ascii("R"@)[0]));
        reveal_strlit("O");
        assert(Class::Prim.has(ascii("O"@)[0]));
        reveal_strlit("U");
        assert(Class::Prim.has(ascii("U"@)[0]));
        reveal_strlit("Z");
        assert(Class::Prim.has(ascii("Z"@)[0]));
        reveal_strlit("K2");
        assert(Class::Prim.has(ascii("K2"@)[0]) && Class::Prim.has(ascii("K2"@)[1]));
        reveal_strlit("K3");
        assert(Class::Prim.has(ascii("K3"@)[0]) && Class::Prim.has(ascii("K3"@)[1]));
        reveal_strlit("K4");
        assert(Class::Prim.has(ascii("K4"@)[0]) && Class::Prim.has(ascii("K4"@)[1]));
        reveal_strlit("C'B");
        assert(Class::Prim.has(ascii("C'B"@)[0]) && Class::Prim.has(ascii("C'B"@)[1]) && Class::Prim.has(ascii("C'B"@)[2]));
    }

    /// No two primitives of the family share a token.
    pub proof fn lemma_token_injective(p: Combinator, q: Combinator)
        requires
            p.spec_token() == q.spec_token(),
        ensures
            p == q,
    {
        reveal_strlit("S");
        assert("S"@.len() == 1 && "S"@[0] == 'S');
        reveal_strlit("K");
        assert("K"@.len() == 1 && "K"@[0] == 'K');
        reveal_strlit("I");
        assert("I"@.len() == 1 && "I"@[0] == 'I');
        reveal_strlit("B");
        assert("B"@.len() == 1 && "B"@[0] == 'B');
        reveal_strlit("C");
        assert("C"@.len() == 1 && "C"@[0] == 'C');
        reveal_strlit("A");
        assert("A"@.len() == 1 && "A"@[0] == 'A');
        reveal_strlit("Y");
        assert("Y"@.len() == 1 && "Y"@[0] == 'Y');
        reveal_strlit("S'");
        assert("S'"@.len() == 2 && "S'"@[0] == 'S' && "S'"@[1] == '\'');
        reveal_strlit("B'");
        assert("B'"@.len() == 2 && "B'"@[0] == 'B' && "B'"@[1] == '\'');
        reveal_strlit("C'");
        assert("C'"@.len() == 2 && "C'"@[0] == 'C' && "C'"@[1] == '\'');
        reveal_strlit("P");
        assert("P"@.len() == 1 && "P"@[0] == 'P');
        reveal_strlit("R");
        assert("R"@.len() == 1 && "R"@[0] == 'R');
        reveal_strlit("O");
        assert("O"@.len() == 1 && "O"@[0] == 'O');
        reveal_strlit("U");
        assert("U"@.len() == 1 && "U"@[0] == 'U');
        reveal_strlit("Z");
        assert("Z"@.len() == 1 && "Z"@[0] == 'Z');
        reveal_strlit("K2");
        assert("K2"@.len() == 2 && "K2"@[0] == 'K' && "K2"@[1] == '2');
        reveal_strlit("K3");
        assert("K3"@.len() == 2 && "K3"@[0] == 'K' && "K3"@[1] == '3');
        reveal_strlit("K4");
        assert("K4"@.len() == 2 && "K4"@[0] == 'K' && "K4"@[1] == '4');
        reveal_strlit("C'B");
        assert("C'B"@.len() == 3 && "C'B"@[0] == 'C' && "C'B"@[1] == '\'');
    }

    /// Reading back the token of a primitive gives that primitive.
    pub proof fn lemma_parse_token(p: Combinator)
        ensures
            Combinator::spec_parse(ascii(p.spec_token())) == Some(p),
    {
        let q = choose|q: Combinator| ascii(q.spec_token()) == ascii(p.spec_token());
        Combinator::lemma_token_ascii(p);
        Combinator::lemma_token_ascii(q);
        lemma_ascii_injective(q.spec_token(), p.spec_token());
        Combinator::lemma_token_injective(q, p);
    }

    /// The number of arguments that the combinator takes before it fires.
    pub open spec fn spec_arity(self) -> nat {
        match self {
            Combinator::S => 3,
            Combinator::K => 2,
            Combinator::I => 1,
            Combinator::B => 3,
            Combinator::C => 3,
            Combinator::A => 2,
            Combinator::Y => 1,
            Combinator::SS => 4,
            Combinator::BB => 4,
            Combinator::CC => 4,
            Combinator::P => 3,
            Combinator::R => 3,
            Combinator::O => 3,
            Combinator::U => 2,
            Combinator::Z => 3,
            Combinator::K2 => 3,
            Combinator::K3 => 4,
            Combinator::K4 => 5,
            Combinator::CCB => 4,
        }
    }

    /// The number of arguments that the combinator takes before it fires.
    pub fn arity(&self) -> (n: usize)
        ensures
            n == self.spec_arity(),
            1 <= n <= 5,
    {
        match self {
            Combinator::S => 3,
            Combinator::K => 2,
            Combinator::I => 1,
            Combinator::B => 3,
            Combinator::C => 3,
            Combinator::A => 2,
            Combinator::Y => 1,
            Combinator::SS => 4,
            Combinator::BB => 4,
            Combinator::CC => 4,
            Combinator::P => 3,
            Combinator::R => 3,
            Combinator::O => 3,
            Combinator::U => 2,
            Combinator::Z => 3,
            Combinator::K2 => 3,
            Combinator::K3 => 4,
            Combinator::K4 => 5,
            Combinator::CCB => 4,
        }
    }

    /// The token that names the primitive.
    pub fn token(&self) -> (s: &'static str)
        ensures
            s@ == self.spec_token(),
    {
        match self {
            Combinator::S => "S",
            Combinator::K => "K",
            Combinator::I => "I",
            Combinator::B => "B",
            Combinator::C => "C",
            Combinator::A => "A",
            Combinator::Y => "Y",
            Combinator::SS => "S'",
            Combinator::BB => "B'",
            Combinator::CC => "C'",
            Combinator::P => "P",
            Combinator::R => "R",
            Combinator::O => "O",
            Combinator::U => "U",
            Combinator::Z => "Z",
            Combinator::K2 => "K2",
            Combinator::K3 => "K3",
            Combinator::K4 => "K4",
            Combinator::CCB => "C'B",
        }
    }

    /// An owned copy of the token.
    pub fn to_string(&self) -> (s: String)
        ensures
            s@ == self.spec_token(),
    {
        String::from_str(self.token())
    }

    /// Reads a primitive of this family from its token.
    pub fn parse(tok: &[u8]) -> (r: Option<Combinator>)
        ensures
            r == Combinator::spec_parse(tok@),
    {
        proof {
            reveal_strlit("S");
            reveal_strlit("K");
            reveal_strlit("I");
            reveal_strlit("B");
            reveal_strlit("C");
            reveal_strlit("A");
            reveal_strlit("Y");
            reveal_strlit("S'");
            reveal_strlit("B'");
            reveal_strlit("C'");
            reveal_strlit("P");
            reveal_strlit("R");
            reveal_strlit("O");
            reveal_strlit("U");
            reveal_strlit("Z");
            reveal_strlit("K2");
            reveal_strlit("K3");
            reveal_strlit("K4");
            reveal_strlit("C'B");
        }
        let r =
        if spells(tok, "S") {
            Some(Combinator::S)
        } else if spells(tok, "K") {
            Some(Combinator::K)
        } else if spells(tok, "I") {
            Some(Combinator::I)
        } else if spells(tok, "B") {
            Some(Combinator::B)
        } else if spells(tok, "C") {
            Some(Combinator::C)
        } else if spells(tok, "A") {
            Some(Combinator::A)
        } else if spells(tok, "Y") {
            Some(Combinator::Y)
        } else if spells(tok, "S'") {
            Some(Combinator::SS)
        } else if spells(tok, "B'") {
            Some(Combinator::BB)
        } else if spells(tok, "C'") {
            Some(Combinator::CC)
        } else if spells(tok, "P") {
            Some(Combinator::P)
        } else if spells(tok, "R") {
            Some(Combinator::R)
        } else if spells(tok, "O") {
            Some(Combinator::O)
        } else if spells(tok, "U") {
            Some(Combinator::U)
        } else if spells(tok, "Z") {
            Some(Combinator::Z)
        } else if spells(tok, "K2") {
            Some(Combinator::K2)
        } else if spells(tok, "K3") {
            Some(Combinator::K3)
        } else if spells(tok, "K4") {
            Some(Combinator::K4)
        } else if spells(tok, "C'B") {
            Some(Combinator::CCB)
        } else {
            None
        };
        proof {
            match r {
                Some(p) => {
                    assert(ascii(p.spec_token()) == tok@);
                    Combinator::lemma_parse_token(p);
                },
                None => {
                    assert forall|p: Combinator| ascii(p.spec_token()) != tok@ by {
                        match p {
                            Combinator::S => {},
                            Combinator::K => {},
                            Combinator::I => {},
                            Combinator::B => {},
                            Combinator::C => {},
                            Combinator::A => {},
                            Combinator::Y => {},
                            Combinator::SS => {},
                            Combinator::BB => {},
                            Combinator::CC => {},
                            Combinator::P => {},
                            Combinator::R => {},
                            Combinator::O => {},
                            Combinator::U => {},
                            Combinator::Z => {},
                            Combinator::K2 => {},
                            Combinator::K3 => {},
                            Combinator::K4 => {},
                            Combinator::CCB => {},
                        }
                    }
                },
            }
        }
        r
    }
}

impl core::str::FromStr for Combinator {
    type Err = UnknownToken;

    fn from_str(s: &str) -> (r: Result<Self, Self::Err>)
        ensures
            r == match Combinator::spec_parse(s.spec_bytes()) {
                Some(p) => Ok::<Combinator, UnknownToken>(p),
                None => Err::<Combinator, UnknownToken>(UnknownToken),
            },
    {
        match Combinator::parse(s.as_bytes()) {
            Some(p) => Ok(p),
            None => Err(UnknownToken),
        }
    }
}

/// Built-in control and comparison primitives.
#[derive(Debug, Clone, Copy, PartialEq, Eq, Structural)]
pub enum BuiltIn {
    /// `error`
    Error,
    /// `noDefault`
    NoDefault,
    /// `noMatch`
    NoMatch,
    /// `seq`
    Sequence,
    /// `equal`
    Equal,
    /// `sequal`
    SEqual,
    /// `compare`
    Compare,
    /// `scmp`
    SCmp,
    /// `icmp`
    ICmp,
    /// `rnf`
    Rnf,
}

impl BuiltIn {
    /// The token that names the primitive in a combinator file.
    pub open spec fn spec_token(self) -> Seq<char> {
        match self {
            BuiltIn::Error => "error"@,
            BuiltIn::NoDefault => "noDefault"@,
            BuiltIn::NoMatch => "noMatch"@,
            BuiltIn::Sequence => "seq"@,
            BuiltIn::Equal => "equal"@,
            BuiltIn::SEqual => "sequal"@,
            BuiltIn::Compare => "compare"@,
            BuiltIn::SCmp => "scmp"@,
            BuiltIn::ICmp => "icmp"@,
            BuiltIn::Rnf => "rnf"@,
        }
    }

    /// The primitive of this family that the bytes `tok` name, if there is one.
    pub open spec fn spec_parse(tok: Seq<u8>) -> Option<BuiltIn> {
        if exists|p: BuiltIn| ascii(p.spec_token()) == tok {
            Some(choose|p: BuiltIn| ascii(p.spec_token()) == tok)
        } else {
            None
        }
    }

    /// Every token is a non-empty run of ASCII characters.
    pub proof fn lemma_token_ascii(p: BuiltIn)
        ensures
            is_ascii_chars(p.spec_token()),
            p.spec_token().len() > 0,
    {
        reveal_strlit("error");
        reveal_strlit("noDefault");
        reveal_strlit("noMatch");
        reveal_strlit("seq");
        reveal_strlit("equal");
        reveal_strlit("sequal");
        reveal_strlit("compare");
        reveal_strlit("scmp");
        reveal_strlit("icmp");
        reveal_strlit("rnf");
    }

    /// Every byte of a token is one that tokens are made of, and no token
    /// starts with `&` or `!`.
    pub proof fn lemma_token_shape(p: BuiltIn)
        ensures
            forall|i: int|
                0 <= i < p.spec_token().len() ==> Class::Prim.has(
                    #[trigger] ascii(p.spec_token())[i],
                ),
            ascii(p.spec_token())[0] != 38,
            ascii(p.spec_token())[0] != 33,
    {
        reveal_strlit("error");
        assert(Class::Prim.has(ascii("error"@)[0]) && Class::Prim.has(ascii("error"@)[1]) && Class::Prim.has(ascii("error"@)[2]) && Class::Prim.has(ascii("error"@)[3]) && Class::Prim.has(ascii("error"@)[4]));
        reveal_strlit("noDefault");
        assert(Class::Prim.has(ascii("noDefault"@)[0]) && Class::Prim.has(ascii("noDefault"@)[1]) && Class::Prim.has(ascii("noDefault"@)[2]) && Class::Prim.has(ascii("noDefault"@)[3]) && Class::Prim.has(ascii("noDefault"@)[4]) && Class::Prim.has(ascii("noDefault"@)[5]) && Class::Prim.has(ascii("noDefault"@)[6]) && Class::Prim.has(ascii("noDefault"@)[7]) && Class::Prim.has(ascii("noDefault"@)[8]));
        reveal_strlit("noMatch");
        assert(Class::Prim.has(ascii("noMatch"@)[0]) && Class::Prim.has(ascii("noMatch"@)[1]) && Class::Prim.has(ascii("noMatch"@)[2]) && Class::Prim.has(ascii("noMatch"@)[3]) && Class::Prim.has(ascii("noMatch"@)[4]) && Class::Prim.has(ascii("noMatch"@)[5]) && Class::Prim.has(ascii("noMatch"@)[6]));
        reveal_strlit("seq");
        assert(Class::Prim.has(ascii("seq"@)[0]) && Class::Prim.has(ascii("seq"@)[1]) && Class::Prim.has(ascii("seq"@)[2]));
        reveal_strlit("equal");
        assert(Class::Prim.has(ascii("equal"@)[0]) && Class::Prim.has(ascii("equal"@)[1]) && Class::Prim.has(ascii("equal"@)[2]) && Class::Prim.has(ascii("equal"@)[3]) && Class::Prim.has(ascii("equal"@)[4]));
        reveal_strlit("sequal");
        assert(Class::Prim.has(ascii("sequal"@)[0]) && Class::Prim.has(ascii("sequal"@)[1]) && Class::Prim.has(ascii("sequal"@)[2]) && Class::Prim.has(ascii("sequal"@)[3]) && Class::Prim.has(ascii("sequal"@)[4]) && Class::Prim.has(ascii("sequal"@)[5]));
        reveal_strlit("compare");
        assert(Class::Prim.has(ascii("compare"@)[0]) && Class::Prim.has(ascii("compare"@)[1]) && Class::Prim.has(ascii("compare"@)[2]) && Class::Prim.has(ascii("compare"@)[3]) && Class::Prim.has(ascii("compare"@)[4]) && Class::Prim.has(ascii("compare"@)[5]) && Class::Prim.has(ascii("compare"@)[6]));
        reveal_strlit("scmp");
        assert(Class::Prim.has(ascii("scmp"@)[0]) && Class::Prim.has(ascii("scmp"@)[1]) && Class::Prim.has(ascii("scmp"@)[2]) && Class::Prim.has(ascii("scmp"@)[3]));
        reveal_strlit("icmp");
        assert(Class::Prim.has(ascii("icmp"@)[0]) && Class::Prim.has(ascii("icmp"@)[1]) && Class::Prim.has(ascii("icmp"@)[2]) && Class::Prim.has(ascii("icmp"@)[3]));
        reveal_strlit("rnf");
        assert(Class::Prim.has(ascii("rnf"@)[0]) && Class::Prim.has(ascii("rnf"@)[1]) && Class::Prim.has(ascii("rnf"@)[2]));
    }

    /// No two primitives of the family share a token.
    pub proof fn lemma_token_injective(p: BuiltIn, q: BuiltIn)
        requires
            p.spec_token() == q.spec_token(),
        ensures
            p == q,
    {
        reveal_strlit("error");
        assert("error"@.len() == 5 && "error"@[0] == 'e' && "error"@[1] == 'r');
        reveal_strlit("noDefault");
        assert("noDefault"@.len() == 9 && "noDefault"@[0] == 'n' && "noDefault"@[1] == 'o');
        reveal_strlit("noMatch");
        assert("noMatch"@.len() == 7 && "noMatch"@[0] == 'n' && "noMatch"@[1] == 'o');
        reveal_strlit("seq");
        assert("seq"@.len() == 3 && "seq"@[0] == 's' && "seq"@[1] == 'e');
        reveal_strlit("equal");
        assert("equal"@.len() == 5 && "equal"@[0] == 'e' && "equal"@[1] == 'q');
        reveal_strlit("sequal");
        assert("sequal"@.len() == 6 && "sequal"@[0] == 's' && "sequal"@[1] == 'e');
        reveal_strlit("compare");
        assert("compare"@.len() == 7 && "compare"@[0] == 'c' && "compare"@[1] == 'o');
        reveal_strlit("scmp");
        assert("scmp"@.len() == 4 && "scmp"@[0] == 's' && "scmp"@[1] == 'c');
        reveal_strlit("icmp");
        assert("icmp"@.len() == 4 && "icmp"@[0] == 'i' && "icmp"@[1] == 'c');
        reveal_strlit("rnf");
        assert("rnf"@.len() == 3 && "rnf"@[0] == 'r' && "rnf"@[1] == 'n');
    }

    /// Reading back the token of a primitive gives that primitive.
    pub proof fn lemma_parse_token(p: BuiltIn)
        ensures
            BuiltIn::spec_parse(ascii(p.spec_token())) == Some(p),
    {
        let q = choose|q: BuiltIn| ascii(q.spec_token()) == ascii(p.spec_token());
        BuiltIn::lemma_token_ascii(p);
        BuiltIn::lemma_token_ascii(q);
        lemma_ascii_injective(q.spec_token(), p.spec_token());
        BuiltIn::lemma_token_injective(q, p);
    }

    /// The token that names the primitive.
    pub fn token(&self) -> (s: &'static str)
        ensures
            s@ == self.spec_token(),
    {
        match self {
            BuiltIn::Error => "error",
            BuiltIn::NoDefault => "noDefault",
            BuiltIn::NoMatch => "noMatch",
            BuiltIn::Sequence => "seq",
            BuiltIn::Equal => "equal",
            BuiltIn::SEqual => "sequal",
            BuiltIn::Compare => "compare",
            BuiltIn::SCmp => "scmp",
            BuiltIn::ICmp => "icmp",
            BuiltIn::Rnf => "rnf",
        }
    }

    /// An owned copy of the token.
    pub fn to_string(&self) -> (s: String)
        ensures
            s@ == self.spec_token(),
    {
        String::from_str(self.token())
    }

    /// Reads a primitive of this family from its token.
    pub fn parse(tok: &[u8]) -> (r: Option<BuiltIn>)
        ensures
            r == BuiltIn::spec_parse(tok@),
    {
        proof {
            reveal_strlit("error");
            reveal_strlit("noDefault");
            reveal_strlit("noMatch");
            reveal_strlit("seq");
            reveal_strlit("equal");
            reveal_strlit("sequal");
            reveal_strlit("compare");
            reveal_strlit("scmp");
            reveal_strlit("icmp");
            reveal_strlit("rnf");
        }
        let r =
        if spells(tok, "error") {
            Some(BuiltIn::Error)
        } else if spells(tok, "noDefault") {
            Some(BuiltIn::NoDefault)
        } else if spells(tok, "noMatch") {
            Some(BuiltIn::NoMatch)
        } else if spells(tok, "seq") {
            Some(BuiltIn::Sequence)
        } else if spells(tok, "equal") {
            Some(BuiltIn::Equal)
        } else if spells(tok, "sequal") {
            Some(BuiltIn::SEqual)
        } else if spells(tok, "compare") {
            Some(BuiltIn::Compare)
        } else if spells(tok, "scmp") {
            Some(BuiltIn::SCmp)
        } else if spells(tok, "icmp") {
            Some(BuiltIn::ICmp)
        } else if spells(tok, "rnf") {
            Some(BuiltIn::Rnf)
        } else {
            None
        };
        proof {
            match r {
                Some(p) => {
                    assert(ascii(p.spec_token()) == tok@);
                    BuiltIn::lemma_parse_token(p);
                },
                None => {
                    assert forall|p: BuiltIn| ascii(p.spec_token()) != tok@ by {
                        match p {
                            BuiltIn::Error => {},
                            BuiltIn::NoDefault => {},
                            BuiltIn::NoMatch => {},
                            BuiltIn::Sequence => {},
                            BuiltIn::Equal => {},
                            BuiltIn::SEqual => {},
                            BuiltIn::Compare => {},
                            BuiltIn::SCmp => {},
                            BuiltIn::ICmp => {},
                            BuiltIn::Rnf => {},
                        }
                    }
                },
            }
        }
        r
    }
}

impl core::str::FromStr for BuiltIn {
    type Err = UnknownToken;

    fn from_str(s: &str) -> (r: Result<Self, Self::Err>)
        ensures
            r == match BuiltIn::spec_parse(s.spec_bytes()) {
                Some(p) => Ok::<BuiltIn, UnknownToken>(p),
                None => Err::<BuiltIn, UnknownToken>(UnknownToken),
            },
    {
        match BuiltIn::parse(s.as_bytes()) {
            Some(p) => Ok(p),
            None => Err(UnknownToken),
        }
    }
}

/// Integer arithmetic, bit operations and comparisons.
#[derive(Debug, Clone, Copy, PartialEq, Eq, Structural)]
pub enum Arith {
    /// `+`
    Add,
    /// `-`
    Sub,
    /// `*`
    Mul,
    /// `quot`
    Quot,
    /// `rem`
    Rem,
    /// `subtract`
    Subtract,
    /// `uquot`
    UQuot,
    /// `urem`
    URem,
    /// `neg`
    Neg,
    /// `and`
    And,
    /// `or`
    Or,
    /// `xor`
    Xor,
    /// `inv`
    Inv,
    /// `shl`
    Shl,
    /// `shr`
    Shr,
    /// `ashr`
    AShr,
    /// `eq`
    Eq,
    /// `ne`
    Ne,
    /// `lt`
    Lt,
    /// `le`
    Le,
    /// `gt`
    Gt,
    /// `ge`
    Ge,
    /// `u<`
    ULt,
    /// `u<=`
    ULe,
    /// `u>`
    UGt,
    /// `u>=`
    UGe,
    /// `toInt`
    ToInt,
}

impl Arith {
    /// The token that names the primitive in a combinator file.
    pub open spec fn spec_token(self) -> Seq<char> {
        match self {
            Arith::Add => "+"@,
            Arith::Sub => "-"@,
            Arith::Mul => "*"@,
            Arith::Quot => "quot"@,
            Arith::Rem => "rem"@,
            Arith::Subtract => "subtract"@,
            Arith::UQuot => "uquot"@,
            Arith::URem => "urem"@,
            Arith::Neg => "neg"@,
            Arith::And => "and"@,
            Arith::Or => "or"@,
            Arith::Xor => "xor"@,
            Arith::Inv => "inv"@,
            Arith::Shl => "shl"@,
            Arith::Shr => "shr"@,
            Arith::AShr => "ashr"@,
            Arith::Eq => "eq"@,
            Arith::Ne => "ne"@,
            Arith::Lt => "lt"@,
            Arith::Le => "le"@,
            Arith::Gt => "gt"@,
            Arith::Ge => "ge"@,
            Arith::ULt => "u<"@,
            Arith::ULe => "u<="@,
            Arith::UGt => "u>"@,
            Arith::UGe => "u>="@,
            Arith::ToInt => "toInt"@,
        }
    }

    /// The primitive of this family that the bytes `tok` name, if there is one.
    pub open spec fn spec_parse(tok: Seq<u8>) -> Option<Arith> {
        if exists|p: Arith| ascii(p.spec_token()) == tok {
            Some(choose|p: Arith| ascii(p.spec_token()) == tok)
        } else {
            None
        }
    }

    /// Every token is a non-empty run of ASCII characters.
    pub proof fn lemma_token_ascii(p: Arith)
        ensures
            is_ascii_chars(p.spec_token()),
            p.spec_token().len() > 0,
    {
        reveal_strlit("+");
        reveal_strlit("-");
        reveal_strlit("*");
        reveal_strlit("quot");
        reveal_strlit("rem");
        reveal_strlit("subtract");
        reveal_strlit("uquot");
        reveal_strlit("urem");
        reveal_strlit("neg");
        reveal_strlit("and");
        reveal_strlit("or");
        reveal_strlit("xor");
        reveal_strlit("inv");
        reveal_strlit("shl");
        reveal_strlit("shr");
        reveal_strlit("ashr");
        reveal_strlit("eq");
        reveal_strlit("ne");
        reveal_strlit("lt");
        reveal_strlit("le");
        reveal_strlit("gt");
        reveal_strlit("ge");
        reveal_strlit("u<");
        reveal_strlit("u<=");
        reveal_strlit("u>");
        reveal_strlit("u>=");
        reveal_strlit("toInt");
    }

    /// Every byte of a token is one that tokens are made of, and no token
    /// starts with `&` or `!`.
    pub proof fn lemma_token_shape(p: Arith)
        ensures
            forall|i: int|
                0 <= i < p.spec_token().len() ==> Class::Prim.has(
                    #[trigger] ascii(p.spec_token())[i],
                ),
            ascii(p.spec_token())[0] != 38,
            ascii(p.spec_token())[0] != 33,
    {
        reveal_strlit("+");
        assert(Class::Prim.has(ascii("+"@)[0]));
        reveal_strlit("-");
        assert(Class::Prim.has(ascii("-"@)[0]));
        reveal_strlit("*");
        assert(Class::Prim.has(ascii("*"@)[0]));
        reveal_strlit("quot");
        assert(Class::Prim.has(ascii("quot"@)[0]) && Class::Prim.has(ascii("quot"@)[1]) && Class::Prim.has(ascii("quot"@)[2]) && Class::Prim.has(ascii("quot"@)[3]));
        reveal_strlit("rem");
        assert(Class::Prim.has(ascii("rem"@)[0]) && Class::Prim.has(ascii("rem"@)[1]) && Class::Prim.has(ascii("rem"@)[2]));
        reveal_strlit("subtract");
        assert(Class::Prim.has(ascii("subtract"@)[0]) && Class::Prim.has(ascii("subtract"@)[1]) && Class::Prim.has(ascii("subtract"@)[2]) && Class::Prim.has(ascii("subtract"@)[3]) && Class::Prim.has(ascii("subtract"@)[4]) && Class::Prim.has(ascii("subtract"@)[5]) && Class::Prim.has(ascii("subtract"@)[6]) && Class::Prim.has(ascii("subtract"@)[7]));
        reveal_strlit("uquot");
        assert(Class::Prim.has(ascii("uquot"@)[0]) && Class::Prim.has(ascii("uquot"@)[1]) && Class::Prim.has(ascii("uquot"@)[2]) && Class::Prim.has(ascii("uquot"@)[3]) && Class::Prim.has(ascii("uquot"@)[4]));
        reveal_strlit("urem");
        assert(Class::Prim.has(ascii("urem"@)[0]) && Class::Prim.has(ascii("urem"@)[1]) && Class::Prim.has(ascii("urem"@)[2]) && Class::Prim.has(ascii("urem"@)[3]));
        reveal_strlit("neg");
        assert(Class::Prim.has(ascii("neg"@)[0]) && Class::Prim.has(ascii("neg"@)[1]) && Class::Prim.has(ascii("neg"@)[2]));
        reveal_strlit("and");
        assert(Class::Prim.has(ascii("and"@)[0]) && Class::Prim.has(ascii("and"@)[1]) && Class::Prim.has(ascii("and"@)[2]));
        reveal_strlit("or");
        assert(Class::Prim.has(ascii("or"@)[0]) && Class::Prim.has(ascii("or"@)[1]));
        reveal_strlit("xor");
        assert(Class::Prim.has(ascii("xor"@)[0]) && Class::Prim.has(ascii("xor"@)[1]) && Class::Prim.has(ascii("xor"@)[2]));
        reveal_strlit("inv");
        assert(Class::Prim.has(ascii("inv"@)[0]) && Class::Prim.has(ascii("inv"@)[1]) && Class::Prim.has(ascii("inv"@)[2]));
        reveal_strlit("shl");
        assert(Class::Prim.has(ascii("shl"@)[0]) && Class::Prim.has(ascii("shl"@)[1]) && Class::Prim.has(ascii("shl"@)[2]));
        reveal_strlit("shr");
        assert(Class::Prim.has(ascii("shr"@)[0]) && Class::Prim.has(ascii("shr"@)[1]) && Class::Prim.has(ascii("shr"@)[2]));
        reveal_strlit("ashr");
        assert(Class::Prim.has(ascii("ashr"@)[0]) && Class::Prim.has(ascii("ashr"@)[1]) && Class::Prim.has(ascii("ashr"@)[2]) && Class::Prim.has(ascii("ashr"@)[3]));
        reveal_strlit("eq");
        assert(Class::Prim.has(ascii("eq"@)[0]) && Class::Prim.has(ascii("eq"@)[1]));
        reveal_strlit("ne");
        assert(Class::Prim.has(ascii("ne"@)[0]) && Class::Prim.has(ascii("ne"@)[1]));
        reveal_strlit("lt");
        assert(Class::Prim.has(ascii("lt"@)[0]) && Class::Prim.has(ascii("lt"@)[1]));
        reveal_strlit("le");
        assert(Class::Prim.has(ascii("le"@)[0]) && Class::Prim.has(ascii("le"@)[1]));
        reveal_strlit("gt");
        assert(Class::Prim.has(ascii("gt"@)[0]) && Class::Prim.has(ascii("gt"@)[1]));
        reveal_strlit("ge");
        assert(Class::Prim.has(ascii("ge"@)[0]) && Class::Prim.has(ascii("ge"@)[1]));
        reveal_strlit("u<");
        assert(Class::Prim.has(ascii("u<"@)[0]) && Class::Prim.has(ascii("u<"@)[1]));
        reveal_strlit("u<=");
        assert(Class::Prim.has(ascii("u<="@)[0]) && Class::Prim.has(ascii("u<="@)[1]) && Class::Prim.has(ascii("u<="@)[2]));
        reveal_strlit("u>");
        assert(Class::Prim.has(ascii("u>"@)[0]) && Class::Prim.has(ascii("u>"@)[1]));
        reveal_strlit("u>=");
        assert(Class::Prim.has(ascii("u>="@)[0]) && Class::Prim.has(ascii("u>="@)[1]) && Class::Prim.has(ascii("u>="@)[2]));
        reveal_strlit("toInt");
        assert(Class::Prim.has(ascii("toInt"@)[0]) && Class::Prim.has(ascii("toInt"@)[1]) && Class::Prim.has(ascii("toInt"@)[2]) && Class::Prim.has(ascii("toInt"@)[3]) && Class::Prim.has(ascii("toInt"@)[4]));
    }

    /// No two primitives of the family share a token.
    pub proof fn lemma_token_injective(p: Arith, q: Arith)
        requires
            p.spec_token() == q.spec_token(),
        ensures
            p == q,
    {
        reveal_strlit("+");
        assert("+"@.len() == 1 && "+"@[0] == '+');
        reveal_strlit("-");
        assert("-"@.len() == 1 && "-"@[0] == '-');
        reveal_strlit("*");
        assert("*"@.len() == 1 && "*"@[0] == '*');
        reveal_strlit("quot");
        assert("quot"@.len() == 4 && "quot"@[0] == 'q' && "quot"@[1] == 'u' && "quot"@[2] == 'o');
        reveal_strlit("rem");
        assert("rem"@.len() == 3 && "rem"@[0] == 'r' && "rem"@[1] == 'e' && "rem"@[2] == 'm');
        reveal_strlit("subtract");
        assert("subtract"@.len() == 8 && "subtract"@[0] == 's' && "subtract"@[1] == 'u' && "subtract"@[2] == 'b');
        reveal_strlit("uquot");
        assert("uquot"@.len() == 5 && "uquot"@[0] == 'u' && "uquot"@[1] == 'q' && "uquot"@[2] == 'u');
        reveal_strlit("urem");
        assert("urem"@.len() == 4 && "urem"@[0] == 'u' && "urem"@[1] == 'r' && "urem"@[2] == 'e');
        reveal_strlit("neg");
        assert("neg"@.len() == 3 && "neg"@[0] == 'n' && "neg"@[1] == 'e' && "neg"@[2] == 'g');
        reveal_strlit("and");
        assert("and"@.len() == 3 && "and"@[0] == 'a' && "and"@[1] == 'n' && "and"@[2] == 'd');
        reveal_strlit("or");
        assert("or"@.len() == 2 && "or"@[0] == 'o' && "or"@[1] == 'r');
        reveal_strlit("xor");
        assert("xor"@.len() == 3 && "xor"@[0] == 'x' && "xor"@[1] == 'o' && "xor"@[2] == 'r');
        reveal_strlit("inv");
        assert("inv"@.len() == 3 && "inv"@[0] == 'i' && "inv"@[1] == 'n' && "inv"@[2] == 'v');
        reveal_strlit("shl");
        assert("shl"@.len() == 3 && "shl"@[0] == 's' && "shl"@[1] == 'h' && "shl"@[2] == 'l');
        reveal_strlit("shr");
        assert("shr"@.len() == 3 && "shr"@[0] == 's' && "shr"@[1] == 'h' && "shr"@[2] == 'r');
        reveal_strlit("ashr");
        assert("ashr"@.len() == 4 && "ashr"@[0] == 'a' && "ashr"@[1] == 's' && "ashr"@[2] == 'h');
        reveal_strlit("eq");
        assert("eq"@.len() == 2 && "eq"@[0] == 'e' && "eq"@[1] == 'q');
        reveal_strlit("ne");
        assert("ne"@.len() == 2 && "ne"@[0] == 'n' && "ne"@[1] == 'e');
        reveal_strlit("lt");
        assert("lt"@.len() == 2 && "lt"@[0] == 'l' && "lt"@[1] == 't');
        reveal_strlit("le");
        assert("le"@.len() == 2 && "le"@[0] == 'l' && "le"@[1] == 'e');
        reveal_strlit("gt");
        assert("gt"@.len() == 2 && "gt"@[0] == 'g' && "gt"@[1] == 't');
        reveal_strlit("ge");
        assert("ge"@.len() == 2 && "ge"@[0] == 'g' && "ge"@[1] == 'e');
        reveal_strlit("u<");
        assert("u<"@.len() == 2 && "u<"@[0] == 'u' && "u<"@[1] == '<');
        reveal_strlit("u<=");
        assert("u<="@.len() == 3 && "u<="@[0] == 'u' && "u<="@[1] == '<' && "u<="@[2] == '=');
        reveal_strlit("u>");
        assert("u>"@.len() == 2 && "u>"@[0] == 'u' && "u>"@[1] == '>');
        reveal_strlit("u>=");
        assert("u>="@.len() == 3 && "u>="@[0] == 'u' && "u>="@[1] == '>' && "u>="@[2] == '=');
        reveal_strlit("toInt");
        assert("toInt"@.len() == 5 && "toInt"@[0] == 't' && "toInt"@[1] == 'o' && "toInt"@[2] == 'I');
    }

    /// Reading back the token of a primitive gives that primitive.
    pub proof fn lemma_parse_token(p: Arith)
        ensures
            Arith::spec_parse(ascii(p.spec_token())) == Some(p),
    {
        let q = choose|q: Arith| ascii(q.spec_token()) == ascii(p.spec_token());
        Arith::lemma_token_ascii(p);
        Arith::lemma_token_ascii(q);
        lemma_ascii_injective(q.spec_token(), p.spec_token());
        Arith::lemma_token_injective(q, p);
    }

    /// The token that names the primitive.
    pub fn token(&self) -> (s: &'static str)
        ensures
            s@ == self.spec_token(),
    {
        match self {
            Arith::Add => "+",
            Arith::Sub => "-",
            Arith::Mul => "*",
            Arith::Quot => "quot",
            Arith::Rem => "rem",
            Arith::Subtract => "subtract",
            Arith::UQuot => "uquot",
            Arith::URem => "urem",
            Arith::Neg => "neg",
            Arith::And => "and",
            Arith::Or => "or",
            Arith::Xor => "xor",
            Arith::Inv => "inv",
            Arith::Shl => "shl",
            Arith::Shr => "shr",
            Arith::AShr => "ashr",
            Arith::Eq => "eq",
            Arith::Ne => "ne",
            Arith::Lt => "lt",
            Arith::Le => "le",
            Arith::Gt => "gt",
            Arith::Ge => "ge",
            Arith::ULt => "u<",
            Arith::ULe => "u<=",
            Arith::UGt => "u>",
            Arith::UGe => "u>=",
            Arith::ToInt => "toInt",
        }
    }

    /// An owned copy of the token.
    pub fn to_string(&self) -> (s: String)
        ensures
            s@ == self.spec_token(),
    {
        String::from_str(self.token())
    }

    /// Reads a primitive of this family from its token.
    pub fn parse(tok: &[u8]) -> (r: Option<Arith>)
        ensures
            r == Arith::spec_parse(tok@),
    {
        proof {
            reveal_strlit("+");
            reveal_strlit("-");
            reveal_strlit("*");
            reveal_strlit("quot");
            reveal_strlit("rem");
            reveal_strlit("subtract");
            reveal_strlit("uquot");
            reveal_strlit("urem");
            reveal_strlit("neg");
            reveal_strlit("and");
            reveal_strlit("or");
            reveal_strlit("xor");
            reveal_strlit("inv");
            reveal_strlit("shl");
            reveal_strlit("shr");
            reveal_strlit("ashr");
            reveal_strlit("eq");
            reveal_strlit("ne");
            reveal_strlit("lt");
            reveal_strlit("le");
            reveal_strlit("gt");
            reveal_strlit("ge");
            reveal_strlit("u<");
            reveal_strlit("u<=");
            reveal_strlit("u>");
            reveal_strlit("u>=");
            reveal_strlit("toInt");
        }
        let r =
        if spells(tok, "+") {
            Some(Arith::Add)
        } else if spells(tok, "-") {
            Some(Arith::Sub)
        } else if spells(tok, "*") {
            Some(Arith::Mul)
        } else if spells(tok, "quot") {
            Some(Arith::Quot)
        } else if spells(tok, "rem") {
            Some(Arith::Rem)
        } else if spells(tok, "subtract") {
            Some(Arith::Subtract)
        } else if spells(tok, "uquot") {
            Some(Arith::UQuot)
        } else if spells(tok, "urem") {
            Some(Arith::URem)
        } else if spells(tok, "neg") {
            Some(Arith::Neg)
        } else if spells(tok, "and") {
            Some(Arith::And)
        } else if spells(tok, "or") {
            Some(Arith::Or)
        } else if spells(tok, "xor") {
            Some(Arith::Xor)
        } else if spells(tok, "inv") {
            Some(Arith::Inv)
        } else if spells(tok, "shl") {
            Some(Arith::Shl)
        } else if spells(tok, "shr") {
            Some(Arith::Shr)
        } else if spells(tok, "ashr") {
            Some(Arith::AShr)
        } else if spells(tok, "eq") {
            Some(Arith::Eq)
        } else if spells(tok, "ne") {
            Some(Arith::Ne)
        } else if spells(tok, "lt") {
            Some(Arith::Lt)
        } else if spells(tok, "le") {
            Some(Arith::Le)
        } else if spells(tok, "gt") {
            Some(Arith::Gt)
        } else if spells(tok, "ge") {
            Some(Arith::Ge)
        } else if spells(tok, "u<") {
            Some(Arith::ULt)
        } else if spells(tok, "u<=") {
            Some(Arith::ULe)
        } else if spells(tok, "u>") {
            Some(Arith::UGt)
        } else if spells(tok, "u>=") {
            Some(Arith::UGe)
        } else if spells(tok, "toInt") {
            Some(Arith::ToInt)
        } else {
            None
        };
        proof {
            match r {
                Some(p) => {
                    assert(ascii(p.spec_token()) == tok@);
                    Arith::lemma_parse_token(p);
                },
                None => {
                    assert forall|p: Arith| ascii(p.spec_token()) != tok@ by {
                        match p {
                            Arith::Add => {},
                            Arith::Sub => {},
                            Arith::Mul => {},
                            Arith::Quot => {},
                            Arith::Rem => {},
                            Arith::Subtract => {},
                            Arith::UQuot => {},
                            Arith::URem => {},
                            Arith::Neg => {},
                            Arith::And => {},
                            Arith::Or => {},
                            Arith::Xor => {},
                            Arith::Inv => {},
                            Arith::Shl => {},
                            Arith::Shr => {},
                            Arith::AShr => {},
                            Arith::Eq => {},
                            Arith::Ne => {},
                            Arith::Lt => {},
                            Arith::Le => {},
                            Arith::Gt => {},
                            Arith::Ge => {},
                            Arith::ULt => {},
                            Arith::ULe => {},
                            Arith::UGt => {},
                            Arith::UGe => {},
                            Arith::ToInt => {},
                        }
                    }
                },
            }
        }
        r
    }
}

impl core::str::FromStr for Arith {
    type Err = UnknownToken;

    fn from_str(s: &str) -> (r: Result<Self, Self::Err>)
        ensures
            r == match Arith::spec_parse(s.spec_bytes()) {
                Some(p) => Ok::<Arith, UnknownToken>(p),
                None => Err::<Arith, UnknownToken>(UnknownToken),
            },
    {
        match Arith::parse(s.as_bytes()) {
            Some(p) => Ok(p),
            None => Err(UnknownToken),
        }
    }
}

/// Pointer primitives.
#[derive(Debug, Clone, Copy, PartialEq, Eq, Structural)]
pub enum Pointer {
    /// `p==`
    PEq,
    /// `pnull`
    PNull,
    /// `p+`
    PAdd,
    /// `p=`
    PSub,
    /// `toPtr`
    ToPtr,
}

impl Pointer {
    /// The token that names the primitive in a combinator file.
    pub open spec fn spec_token(self) -> Seq<char> {
        match self {
            Pointer::PEq => "p=="@,
            Pointer::PNull => "pnull"@,
            Pointer::PAdd => "p+"@,
            Pointer::PSub => "p="@,
            Pointer::ToPtr => "toPtr"@,
        }
    }

    /// The primitive of this family that the bytes `tok` name, if there is one.
    pub open spec fn spec_parse(tok: Seq<u8>) -> Option<Pointer> {
        if exists|p: Pointer| ascii(p.spec_token()) == tok {
            Some(choose|p: Pointer| ascii(p.spec_token()) == tok)
        } else {
            None
        }
    }

    /// Every token is a non-empty run of ASCII characters.
    pub proof fn lemma_token_ascii(p: Pointer)
        ensures
            is_ascii_chars(p.spec_token()),
            p.spec_token().len() > 0,
    {
        reveal_strlit("p==");
        reveal_strlit("pnull");
        reveal_strlit("p+");
        reveal_strlit("p=");
        reveal_strlit("toPtr");
    }

    /// Every byte of a token is one that tokens are made of, and no token
    /// starts with `&` or `!`.
    pub proof fn lemma_token_shape(p: Pointer)
        ensures
            forall|i: int|
                0 <= i < p.spec_token().len() ==> Class::Prim.has(
                    #[trigger] ascii(p.spec_token())[i],
                ),
            ascii(p.spec_token())[0] != 38,
            ascii(p.spec_token())[0] != 33,
    {
        reveal_strlit("p==");
        assert(Class::Prim.has(ascii("p=="@)[0]) && Class::Prim.has(ascii("p=="@)[1]) && Class::Prim.has(ascii("p=="@)[2]));
        reveal_strlit("pnull");
        assert(Class::Prim.has(ascii("pnull"@)[0]) && Class::Prim.has(ascii("pnull"@)[1]) && Class::Prim.has(ascii("pnull"@)[2]) && Class::Prim.has(ascii("pnull"@)[3]) && Class::Prim.has(ascii("pnull"@)[4]));
        reveal_strlit("p+");
        assert(Class::Prim.has(ascii("p+"@)[0]) && Class::Prim.has(ascii("p+"@)[1]));
        reveal_strlit("p=");
        assert(Class::Prim.has(ascii("p="@)[0]) && Class::Prim.has(ascii("p="@)[1]));
        reveal_strlit("toPtr");
        assert(Class::Prim.has(ascii("toPtr"@)[0]) && Class::Prim.has(ascii("toPtr"@)[1]) && Class::Prim.has(ascii("toPtr"@)[2]) && Class::Prim.has(ascii("toPtr"@)[3]) && Class::Prim.has(ascii("toPtr"@)[4]));
    }

    /// No two primitives of the family share a token.
    pub proof fn lemma_token_injective(p: Pointer, q: Pointer)
        requires
            p.spec_token() == q.spec_token(),
        ensures
            p == q,
    {
        reveal_strlit("p==");
        assert("p=="@.len() == 3 && "p=="@[0] == 'p' && "p=="@[1] == '=');
        reveal_strlit("pnull");
        assert("pnull"@.len() == 5 && "pnull"@[0] == 'p' && "pnull"@[1] == 'n');
        reveal_strlit("p+");
        assert("p+"@.len() == 2 && "p+"@[0] == 'p' && "p+"@[1] == '+');
        reveal_strlit("p=");
        assert("p="@.len() == 2 && "p="@[0] == 'p' && "p="@[1] == '=');
        reveal_strlit("toPtr");
        assert("toPtr"@.len() == 5 && "toPtr"@[0] == 't' && "toPtr"@[1] == 'o');
    }

    /// Reading back the token of a primitive gives that primitive.
    pub proof fn lemma_parse_token(p: Pointer)
        ensures
            Pointer::spec_parse(ascii(p.spec_token())) == Some(p),
    {
        let q = choose|q: Pointer| ascii(q.spec_token()) == ascii(p.spec_token());
        Pointer::lemma_token_ascii(p);
        Pointer::lemma_token_ascii(q);
        lemma_ascii_injective(q.spec_token(), p.spec_token());
        Pointer::lemma_token_injective(q, p);
    }

    /// The token that names the primitive.
    pub fn token(&self) -> (s: &'static str)
        ensures
            s@ == self.spec_token(),
    {
        match self {
            Pointer::PEq => "p==",
            Pointer::PNull => "pnull",
            Pointer::PAdd => "p+",
            Pointer::PSub => "p=",
            Pointer::ToPtr => "toPtr",
        }
    }

    /// An owned copy of the token.
    pub fn to_string(&self) -> (s: String)
        ensures
            s@ == self.spec_token(),
    {
        String::from_str(self.token())
    }

    /// Reads a primitive of this family from its token.
    pub fn parse(tok: &[u8]) -> (r: Option<Pointer>)
        ensures
            r == Pointer::spec_parse(tok@),
    {
        proof {
            reveal_strlit("p==");
            reveal_strlit("pnull");
            reveal_strlit("p+");
            reveal_strlit("p=");
            reveal_strlit("toPtr");
        }
        let r =
        if spells(tok, "p==") {
            Some(Pointer::PEq)
        } else if spells(tok, "pnull") {
            Some(Pointer::PNull)
        } else if spells(tok, "p+") {
            Some(Pointer::PAdd)
        } else if spells(tok, "p=") {
            Some(Pointer::PSub)
        } else if spells(tok, "toPtr") {
            Some(Pointer::ToPtr)
        } else {
            None
        };
        proof {
            match r {
                Some(p) => {
                    assert(ascii(p.spec_token()) == tok@);
                    Pointer::lemma_parse_token(p);
                },
                None => {
                    assert forall|p: Pointer| ascii(p.spec_token()) != tok@ by {
                        match p {
                            Pointer::PEq => {},
                            Pointer::PNull => {},
                            Pointer::PAdd => {},
                            Pointer::PSub => {},
                            Pointer::ToPtr => {},
                        }
                    }
                },
            }
        }
        r
    }
}

impl core::str::FromStr for Pointer {
    type Err = UnknownToken;

    fn from_str(s: &str) -> (r: Result<Self, Self::Err>)
        ensures
            r == match Pointer::spec_parse(s.spec_bytes()) {
                Some(p) => Ok::<Pointer, UnknownToken>(p),
                None => Err::<Pointer, UnknownToken>(UnknownToken),
            },
    {
        match Pointer::parse(s.as_bytes()) {
            Some(p) => Ok(p),
            None => Err(UnknownToken),
        }
    }
}

/// Input and output primitives.
#[derive(Debug, Clone, Copy, PartialEq, Eq, Structural)]
pub enum IO {
    /// `IO.>>=`
    Bind,
    /// `IO.>>`
    Then,
    /// `IO.return`
    Return,
    /// `IO.serialize`
    Serialize,
    /// `IO.deserialize`
    Deserialize,
    /// `IO.stdin`
    StdIn,
    /// `IO.stdout`
    StdOut,
    /// `IO.stderr`
    StdErr,
    /// `IO.getArgs`
    GetArgs,
    /// `IO.performIO`
    PerformIO,
    /// `IO.getTimeMilli`
    GetTimeMilli,
    /// `IO.print`
    Print,
    /// `IO.catch`
    Catch,
    /// `dynsym`
    DynSym,
}

impl IO {
    /// The token that names the primitive in a combinator file.
    pub open spec fn spec_token(self) -> Seq<char> {
        match self {
            IO::Bind => "IO.>>="@,
            IO::Then => "IO.>>"@,
            IO::Return => "IO.return"@,
            IO::Serialize => "IO.serialize"@,
            IO::Deserialize => "IO.deserialize"@,
            IO::StdIn => "IO.stdin"@,
            IO::StdOut => "IO.stdout"@,
            IO::StdErr => "IO.stderr"@,
            IO::GetArgs => "IO.getArgs"@,
            IO::PerformIO => "IO.performIO"@,
            IO::GetTimeMilli => "IO.getTimeMilli"@,
            IO::Print => "IO.print"@,
            IO::Catch => "IO.catch"@,
            IO::DynSym => "dynsym"@,
        }
    }

    /// The primitive of this family that the bytes `tok` name, if there is one.
    pub open spec fn spec_parse(tok: Seq<u8>) -> Option<IO> {
        if exists|p: IO| ascii(p.spec_token()) == tok {
            Some(choose|p: IO| ascii(p.spec_token()) == tok)
        } else {
            None
        }
    }

    /// Every token is a non-empty run of ASCII characters.
    pub proof fn lemma_token_ascii(p: IO)
        ensures
            is_ascii_chars(p.spec_token()),
            p.spec_token().len() > 0,
    {
        reveal_strlit("IO.>>=");
        reveal_strlit("IO.>>");
        reveal_strlit("IO.return");
        reveal_strlit("IO.serialize");
        reveal_strlit("IO.deserialize");
        reveal_strlit("IO.stdin");
        reveal_strlit("IO.stdout");
        reveal_strlit("IO.stderr");
        reveal_strlit("IO.getArgs");
        reveal_strlit("IO.performIO");
        reveal_strlit("IO.getTimeMilli");
        reveal_strlit("IO.print");
        reveal_strlit("IO.catch");
        reveal_strlit("dynsym");
    }

    /// Every byte of a token is one that tokens are made of, and no token
    /// starts with `&` or `!`.
    pub proof fn lemma_token_shape(p: IO)
        ensures
            forall|i: int|
                0 <= i < p.spec_token().len() ==> Class::Prim.has(
                    #[trigger] ascii(p.spec_token())[i],
                ),
            ascii(p.spec_token())[0] != 38,
            ascii(p.spec_token())[0] != 33,
    {
        reveal_strlit("IO.>>=");
        assert(Class::Prim.has(ascii("IO.>>="@)[0]) && Class::Prim.has(ascii("IO.>>="@)[1]) && Class::Prim.has(ascii("IO.>>="@)[2]) && Class::Prim.has(ascii("IO.>>="@)[3]) && Class::Prim.has(ascii("IO.>>="@)[4]) && Class::Prim.has(ascii("IO.>>="@)[5]));
        reveal_strlit("IO.>>");
        assert(Class::Prim.has(ascii("IO.>>"@)[0]) && Class::Prim.has(ascii("IO.>>"@)[1]) && Class::Prim.has(ascii("IO.>>"@)[2]) && Class::Prim.has(ascii("IO.>>"@)[3]) && Class::Prim.has(ascii("IO.>>"@)[4]));
        reveal_strlit("IO.return");
        assert(Class::Prim.has(ascii("IO.return"@)[0]) && Class::Prim.has(ascii("IO.return"@)[1]) && Class::Prim.has(ascii("IO.return"@)[2]) && Class::Prim.has(ascii("IO.return"@)[3]) && Class::Prim.has(ascii("IO.return"@)[4]) && Class::Prim.has(ascii("IO.return"@)[5]) && Class::Prim.has(ascii("IO.return"@)[6]) && Class::Prim.has(ascii("IO.return"@)[7]) && Class::Prim.has(ascii("IO.return"@)[8]));
        reveal_strlit("IO.serialize");
        assert(Class::Prim.has(ascii("IO.serialize"@)[0]) && Class::Prim.has(ascii("IO.serialize"@)[1]) && Class::Prim.has(ascii("IO.serialize"@)[2]) && Class::Prim.has(ascii("IO.serialize"@)[3]) && Class::Prim.has(ascii("IO.serialize"@)[4]) && Class::Prim.has(ascii("IO.serialize"@)[5]) && Class::Prim.has(ascii("IO.serialize"@)[6]) && Class::Prim.has(ascii("IO.serialize"@)[7]) && Class::Prim.has(ascii("IO.serialize"@)[8]) && Class::Prim.has(ascii("IO.serialize"@)[9]) && Class::Prim.has(ascii("IO.serialize"@)[10]) && Class::Prim.has(ascii("IO.serialize"@)[11]));
        reveal_strlit("IO.deserialize");
        assert(Class::Prim.has(ascii("IO.deserialize"@)[0]) && Class::Prim.has(ascii("IO.deserialize"@)[1]) && Class::Prim.has(ascii("IO.deserialize"@)[2]) && Class::Prim.has(ascii("IO.deserialize"@)[3]) && Class::Prim.has(ascii("IO.deserialize"@)[4]) && Class::Prim.has(ascii("IO.deserialize"@)[5]) && Class::Prim.has(ascii("IO.deserialize"@)[6]) && Class::Prim.has(ascii("IO.deserialize"@)[7]) && Class::Prim.has(ascii("IO.deserialize"@)[8]) && Class::Prim.has(ascii("IO.deserialize"@)[9]) && Class::Prim.has(ascii("IO.deserialize"@)[10]) && Class::Prim.has(ascii("IO.deserialize"@)[11]) && Class::Prim.has(ascii("IO.deserialize"@)[12]) && Class::Prim.has(ascii("IO.deserialize"@)[13]));
        reveal_strlit("IO.stdin");
        assert(Class::Prim.has(ascii("IO.stdin"@)[0]) && Class::Prim.has(ascii("IO.stdin"@)[1]) && Class::Prim.has(ascii("IO.stdin"@)[2]) && Class::Prim.has(ascii("IO.stdin"@)[3]) && Class::Prim.has(ascii("IO.stdin"@)[4]) && Class::Prim.has(ascii("IO.stdin"@)[5]) && Class::Prim.has(ascii("IO.stdin"@)[6]) && Class::Prim.has(ascii("IO.stdin"@)[7]));
        reveal_strlit("IO.stdout");
        assert(Class::Prim.has(ascii("IO.stdout"@)[0]) && Class::Prim.has(ascii("IO.stdout"@)[1]) && Class::Prim.has(ascii("IO.stdout"@)[2]) && Class::Prim.has(ascii("IO.stdout"@)[3]) && Class::Prim.has(ascii("IO.stdout"@)[4]) && Class::Prim.has(ascii("IO.stdout"@)[5]) && Class::Prim.has(ascii("IO.stdout"@)[6]) && Class::Prim.has(ascii("IO.stdout"@)[7]) && Class::Prim.has(ascii("IO.stdout"@)[8]));
        reveal_strlit("IO.stderr");
        assert(Class::Prim.has(ascii("IO.stderr"@)[0]) && Class::Prim.has(ascii("IO.stderr"@)[1]) && Class::Prim.has(ascii("IO.stderr"@)[2]) && Class::Prim.has(ascii("IO.stderr"@)[3]) && Class::Prim.has(ascii("IO.stderr"@)[4]) && Class::Prim.has(ascii("IO.stderr"@)[5]) && Class::Prim.has(ascii("IO.stderr"@)[6]) && Class::Prim.has(ascii("IO.stderr"@)[7]) && Class::Prim.has(ascii("IO.stderr"@)[8]));
        reveal_strlit("IO.getArgs");
        assert(Class::Prim.has(ascii("IO.getArgs"@)[0]) && Class::Prim.has(ascii("IO.getArgs"@)[1]) && Class::Prim.has(ascii("IO.getArgs"@)[2]) && Class::Prim.has(ascii("IO.getArgs"@)[3]) && Class::Prim.has(ascii("IO.getArgs"@)[4]) && Class::Prim.has(ascii("IO.getArgs"@)[5]) && Class::Prim.has(ascii("IO.getArgs"@)[6]) && Class::Prim.has(ascii("IO.getArgs"@)[7]) && Class::Prim.has(ascii("IO.getArgs"@)[8]) && Class::Prim.has(ascii("IO.getArgs"@)[9]));
        reveal_strlit("IO.performIO");
        assert(Class::Prim.has(ascii("IO.performIO"@)[0]) && Class::Prim.has(ascii("IO.performIO"@)[1]) && Class::Prim.has(ascii("IO.performIO"@)[2]) && Class::Prim.has(ascii("IO.performIO"@)[3]) && Class::Prim.has(ascii("IO.performIO"@)[4]) && Class::Prim.has(ascii("IO.performIO"@)[5]) && Class::Prim.has(ascii("IO.performIO"@)[6]) && Class::Prim.has(ascii("IO.performIO"@)[7]) && Class::Prim.has(ascii("IO.performIO"@)[8]) && Class::Prim.has(ascii("IO.performIO"@)[9]) && Class::Prim.has(ascii("IO.performIO"@)[10]) && Class::Prim.has(ascii("IO.performIO"@)[11]));
        reveal_strlit("IO.getTimeMilli");
        assert(Class::Prim.has(ascii("IO.getTimeMilli"@)[0]) && Class::Prim.has(ascii("IO.getTimeMilli"@)[1]) && Class::Prim.has(ascii("IO.getTimeMilli"@)[2]) && Class::Prim.has(ascii("IO.getTimeMilli"@)[3]) && Class::Prim.has(ascii("IO.getTimeMilli"@)[4]) && Class::Prim.has(ascii("IO.getTimeMilli"@)[5]) && Class::Prim.has(ascii("IO.getTimeMilli"@)[6]) && Class::Prim.has(ascii("IO.getTimeMilli"@)[7]) && Class::Prim.has(ascii("IO.getTimeMilli"@)[8]) && Class::Prim.has(ascii("IO.getTimeMilli"@)[9]) && Class::Prim.has(ascii("IO.getTimeMilli"@)[10]) && Class::Prim.has(ascii("IO.getTimeMilli"@)[11]) && Class::Prim.has(ascii("IO.getTimeMilli"@)[12]) && Class::Prim.has(ascii("IO.getTimeMilli"@)[13]) && Class::Prim.has(ascii("IO.getTimeMilli"@)[14]));
        reveal_strlit("IO.print");
        assert(Class::Prim.has(ascii("IO.print"@)[0]) && Class::Prim.has(ascii("IO.print"@)[1]) && Class::Prim.has(ascii("IO.print"@)[2]) && Class::Prim.has(ascii("IO.print"@)[3]) && Class::Prim.has(ascii("IO.print"@)[4]) && Class::Prim.has(ascii("IO.print"@)[5]) && Class::Prim.has(ascii("IO.print"@)[6]) && Class::Prim.has(ascii("IO.print"@)[7]));
        reveal_strlit("IO.catch");
        assert(Class::Prim.has(ascii("IO.catch"@)[0]) && Class::Prim.has(ascii("IO.catch"@)[1]) && Class::Prim.has(ascii("IO.catch"@)[2]) && Class::Prim.has(ascii("IO.catch"@)[3]) && Class::Prim.has(ascii("IO.catch"@)[4]) && Class::Prim.has(ascii("IO.catch"@)[5]) && Class::Prim.has(ascii("IO.catch"@)[6]) && Class::Prim.has(ascii("IO.catch"@)[7]));
        reveal_strlit("dynsym");
        assert(Class::Prim.has(ascii("dynsym"@)[0]) && Class::Prim.has(ascii("dynsym"@)[1]) && Class::Prim.has(ascii("dynsym"@)[2]) && Class::Prim.has(ascii("dynsym"@)[3]) && Class::Prim.has(ascii("dynsym"@)[4]) && Class::Prim.has(ascii("dynsym"@)[5]));
    }

    /// No two primitives of the family share a token.
    pub proof fn lemma_token_injective(p: IO, q: IO)
        requires
            p.spec_token() == q.spec_token(),
        ensures
            p == q,
    {
        reveal_strlit("IO.>>=");
        assert("IO.>>="@.len() == 6 && "IO.>>="@[0] == 'I' && "IO.>>="@[1] == 'O' && "IO.>>="@[2] == '.' && "IO.>>="@[3] == '>' && "IO.>>="@[4] == '>' && "IO.>>="@[5] == '=');
        reveal_strlit("IO.>>");
        assert("IO.>>"@.len() == 5 && "IO.>>"@[0] == 'I' && "IO.>>"@[1] == 'O' && "IO.>>"@[2] == '.' && "IO.>>"@[3] == '>' && "IO.>>"@[4] == '>');
        reveal_strlit("IO.return");
        assert("IO.return"@.len() == 9 && "IO.return"@[0] == 'I' && "IO.return"@[1] == 'O' && "IO.return"@[2] == '.' && "IO.return"@[3] == 'r' && "IO.return"@[4] == 'e' && "IO.return"@[5] == 't' && "IO.return"@[6] == 'u');
        reveal_strlit("IO.serialize");
        assert("IO.serialize"@.len() == 12 && "IO.serialize"@[0] == 'I' && "IO.serialize"@[1] == 'O' && "IO.serialize"@[2] == '.' && "IO.serialize"@[3] == 's' && "IO.serialize"@[4] == 'e' && "IO.serialize"@[5] == 'r' && "IO.serialize"@[6] == 'i');
        reveal_strlit("IO.deserialize");
        assert("IO.deserialize"@.len() == 14 && "IO.deserialize"@[0] == 'I' && "IO.deserialize"@[1] == 'O' && "IO.deserialize"@[2] == '.' && "IO.deserialize"@[3] == 'd' && "IO.deserialize"@[4] == 'e' && "IO.deserialize"@[5] == 's' && "IO.deserialize"@[6] == 'e');
        reveal_strlit("IO.stdin");
        assert("IO.stdin"@.len() == 8 && "IO.stdin"@[0] == 'I' && "IO.stdin"@[1] == 'O' && "IO.stdin"@[2] == '.' && "IO.stdin"@[3] == 's' && "IO.stdin"@[4] == 't' && "IO.stdin"@[5] == 'd' && "IO.stdin"@[6] == 'i');
        reveal_strlit("IO.stdout");
        assert("IO.stdout"@.len() == 9 && "IO.stdout"@[0] == 'I' && "IO.stdout"@[1] == 'O' && "IO.stdout"@[2] == '.' && "IO.stdout"@[3] == 's' && "IO.stdout"@[4] == 't' && "IO.stdout"@[5] == 'd' && "IO.stdout"@[6] == 'o');
        reveal_strlit("IO.stderr");
        assert("IO.stderr"@.len() == 9 && "IO.stderr"@[0] == 'I' && "IO.stderr"@[1] == 'O' && "IO.stderr"@[2] == '.' && "IO.stderr"@[3] == 's' && "IO.stderr"@[4] == 't' && "IO.stderr"@[5] == 'd' && "IO.stderr"@[6] == 'e');
        reveal_strlit("IO.getArgs");
        assert("IO.getArgs"@.len() == 10 && "IO.getArgs"@[0] == 'I' && "IO.getArgs"@[1] == 'O' && "IO.getArgs"@[2] == '.' && "IO.getArgs"@[3] == 'g' && "IO.getArgs"@[4] == 'e' && "IO.getArgs"@[5] == 't' && "IO.getArgs"@[6] == 'A');
        reveal_strlit("IO.performIO");
        assert("IO.performIO"@.len() == 12 && "IO.performIO"@[0] == 'I' && "IO.performIO"@[1] == 'O' && "IO.performIO"@[2] == '.' && "IO.performIO"@[3] == 'p' && "IO.performIO"@[4] == 'e' && "IO.performIO"@[5] == 'r' && "IO.performIO"@[6] == 'f');
        reveal_strlit("IO.getTimeMilli");
        assert("IO.getTimeMilli"@.len() == 15 && "IO.getTimeMilli"@[0] == 'I' && "IO.getTimeMilli"@[1] == 'O' && "IO.getTimeMilli"@[2] == '.' && "IO.getTimeMilli"@[3] == 'g' && "IO.getTimeMilli"@[4] == 'e' && "IO.getTimeMilli"@[5] == 't' && "IO.getTimeMilli"@[6] == 'T');
        reveal_strlit("IO.print");
        assert("IO.print"@.len() == 8 && "IO.print"@[0] == 'I' && "IO.print"@[1] == 'O' && "IO.print"@[2] == '.' && "IO.print"@[3] == 'p' && "IO.print"@[4] == 'r' && "IO.print"@[5] == 'i' && "IO.print"@[6] == 'n');
        reveal_strlit("IO.catch");
        assert("IO.catch"@.len() == 8 && "IO.catch"@[0] == 'I' && "IO.catch"@[1] == 'O' && "IO.catch"@[2] == '.' && "IO.catch"@[3] == 'c' && "IO.catch"@[4] == 'a' && "IO.catch"@[5] == 't' && "IO.catch"@[6] == 'c');
        reveal_strlit("dynsym");
        assert("dynsym"@.len() == 6 && "dynsym"@[0] == 'd' && "dynsym"@[1] == 'y' && "dynsym"@[2] == 'n' && "dynsym"@[3] == 's' && "dynsym"@[4] == 'y' && "dynsym"@[5] == 'm');
    }

    /// Reading back the token of a primitive gives that primitive.
    pub proof fn lemma_parse_token(p: IO)
        ensures
            IO::spec_parse(ascii(p.spec_token())) == Some(p),
    {
        let q = choose|q: IO| ascii(q.spec_token()) == ascii(p.spec_token());
        IO::lemma_token_ascii(p);
        IO::lemma_token_ascii(q);
        lemma_ascii_injective(q.spec_token(), p.spec_token());
        IO::lemma_token_injective(q, p);
    }

    /// The token that names the primitive.
    pub fn token(&self) -> (s: &'static str)
        ensures
            s@ == self.spec_token(),
    {
        match self {
            IO::Bind => "IO.>>=",
            IO::Then => "IO.>>",
            IO::Return => "IO.return",
            IO::Serialize => "IO.serialize",
            IO::Deserialize => "IO.deserialize",
            IO::StdIn => "IO.stdin",
            IO::StdOut => "IO.stdout",
            IO::StdErr => "IO.stderr",
            IO::GetArgs => "IO.getArgs",
            IO::PerformIO => "IO.performIO",
            IO::GetTimeMilli => "IO.getTimeMilli",
            IO::Print => "IO.print",
            IO::Catch => "IO.catch",
            IO::DynSym => "dynsym",
        }
    }

    /// An owned copy of the token.
    pub fn to_string(&self) -> (s: String)
        ensures
            s@ == self.spec_token(),
    {
        String::from_str(self.token())
    }

    /// Reads a primitive of this family from its token.
    pub fn parse(tok: &[u8]) -> (r: Option<IO>)
        ensures
            r == IO::spec_parse(tok@),
    {
        proof {
            reveal_strlit("IO.>>=");
            reveal_strlit("IO.>>");
            reveal_strlit("IO.return");
            reveal_strlit("IO.serialize");
            reveal_strlit("IO.deserialize");
            reveal_strlit("IO.stdin");
            reveal_strlit("IO.stdout");
            reveal_strlit("IO.stderr");
            reveal_strlit("IO.getArgs");
            reveal_strlit("IO.performIO");
            reveal_strlit("IO.getTimeMilli");
            reveal_strlit("IO.print");
            reveal_strlit("IO.catch");
            reveal_strlit("dynsym");
        }
        let r =
        if spells(tok, "IO.>>=") {
            Some(IO::Bind)
        } else if spells(tok, "IO.>>") {
            Some(IO::Then)
        } else if spells(tok, "IO.return") {
            Some(IO::Return)
        } else if spells(tok, "IO.serialize") {
            Some(IO::Serialize)
        } else if spells(tok, "IO.deserialize") {
            Some(IO::Deserialize)
        } else if spells(tok, "IO.stdin") {
            Some(IO::StdIn)
        } else if spells(tok, "IO.stdout") {
            Some(IO::StdOut)
        } else if spells(tok, "IO.stderr") {
            Some(IO::StdErr)
        } else if spells(tok, "IO.getArgs") {
            Some(IO::GetArgs)
        } else if spells(tok, "IO.performIO") {
            Some(IO::PerformIO)
        } else if spells(tok, "IO.getTimeMilli") {
            Some(IO::GetTimeMilli)
        } else if spells(tok, "IO.print") {
            Some(IO::Print)
        } else if spells(tok, "IO.catch") {
            Some(IO::Catch)
        } else if spells(tok, "dynsym") {
            Some(IO::DynSym)
        } else {
            None
        };
        proof {
            match r {
                Some(p) => {
                    assert(ascii(p.spec_token()) == tok@);
                    IO::lemma_parse_token(p);
                },
                None => {
                    assert forall|p: IO| ascii(p.spec_token()) != tok@ by {
                        match p {
                            IO::Bind => {},
                            IO::Then => {},
                            IO::Return => {},
                            IO::Serialize => {},
                            IO::Deserialize => {},
                            IO::StdIn => {},
                            IO::StdOut => {},
                            IO::StdErr => {},
                            IO::GetArgs => {},
                            IO::PerformIO => {},
                            IO::GetTimeMilli => {},
                            IO::Print => {},
                            IO::Catch => {},
                            IO::DynSym => {},
                        }
                    }
                },
            }
        }
        r
    }
}

impl core::str::FromStr for IO {
    type Err = UnknownToken;

    fn from_str(s: &str) -> (r: Result<Self, Self::Err>)
        ensures
            r == match IO::spec_parse(s.spec_bytes()) {
                Some(p) => Ok::<IO, UnknownToken>(p),
                None => Err::<IO, UnknownToken>(UnknownToken),
            },
    {
        match IO::parse(s.as_bytes()) {
            Some(p) => Ok(p),
            None => Err(UnknownToken),
        }
    }
}

/// Floating-point arithmetic and comparisons.
#[derive(Debug, Clone, Copy, PartialEq, Eq, Structural)]
pub enum FArith {
    /// `f+`
    FAdd,
    /// `f-`
    FSub,
    /// `f*`
    FMul,
    /// `f/`
    FDiv,
    /// `fneg`
    FNeg,
    /// `itof`
    IToF,
    /// `f==`
    Feq,
    /// `f/=`
    FNe,
    /// `f<`
    FLt,
    /// `f<=`
    FLe,
    /// `f>`
    FGt,
    /// `f>=`
    FGe,
    /// `fshow`
    FShow,
    /// `fread`
    FRead,
}

impl FArith {
    /// The token that names the primitive in a combinator file.
    pub open spec fn spec_token(self) -> Seq<char> {
        match self {
            FArith::FAdd => "f+"@,
            FArith::FSub => "f-"@,
            FArith::FMul => "f*"@,
            FArith::FDiv => "f/"@,
            FArith::FNeg => "fneg"@,
            FArith::IToF => "itof"@,
            FArith::Feq => "f=="@,
            FArith::FNe => "f/="@,
            FArith::FLt => "f<"@,
            FArith::FLe => "f<="@,
            FArith::FGt => "f>"@,
            FArith::FGe => "f>="@,
            FArith::FShow => "fshow"@,
            FArith::FRead => "fread"@,
        }
    }

    /// The primitive of this family that the bytes `tok` name, if there is one.
    pub open spec fn spec_parse(tok: Seq<u8>) -> Option<FArith> {
        if exists|p: FArith| ascii(p.spec_token()) == tok {
            Some(choose|p: FArith| ascii(p.spec_token()) == tok)
        } else {
            None
        }
    }

    /// Every token is a non-empty run of ASCII characters.
    pub proof fn lemma_token_ascii(p: FArith)
        ensures
            is_ascii_chars(p.spec_token()),
            p.spec_token().len() > 0,
    {
        reveal_strlit("f+");
        reveal_strlit("f-");
        reveal_strlit("f*");
        reveal_strlit("f/");
        reveal_strlit("fneg");
        reveal_strlit("itof");
        reveal_strlit("f==");
        reveal_strlit("f/=");
        reveal_strlit("f<");
        reveal_strlit("f<=");
        reveal_strlit("f>");
        reveal_strlit("f>=");
        reveal_strlit("fshow");
        reveal_strlit("fread");
    }

    /// Every byte of a token is one that tokens are made of, and no token
    /// starts with `&` or `!`.
    pub proof fn lemma_token_shape(p: FArith)
        ensures
            forall|i: int|
                0 <= i < p.spec_token().len() ==> Class::Prim.has(
                    #[trigger] ascii(p.spec_token())[i],
                ),
            ascii(p.spec_token())[0] != 38,
            ascii(p.spec_token())[0] != 33,
    {
        reveal_strlit("f+");
        assert(Class::Prim.has(ascii("f+"@)[0]) && Class::Prim.has(ascii("f+"@)[1]));
        reveal_strlit("f-");
        assert(Class::Prim.has(ascii("f-"@)[0]) && Class::Prim.has(ascii("f-"@)[1]));
        reveal_strlit("f*");
        assert(Class::Prim.has(ascii("f*"@)[0]) && Class::Prim.has(ascii("f*"@)[1]));
        reveal_strlit("f/");
        assert(Class::Prim.has(ascii("f/"@)[0]) && Class::Prim.has(ascii("f/"@)[1]));
        reveal_strlit("fneg");
        assert(Class::Prim.has(ascii("fneg"@)[0]) && Class::Prim.has(ascii("fneg"@)[1]) && Class::Prim.has(ascii("fneg"@)[2]) && Class::Prim.has(ascii("fneg"@)[3]));
        reveal_strlit("itof");
        assert(Class::Prim.has(ascii("itof"@)[0]) && Class::Prim.has(ascii("itof"@)[1]) && Class::Prim.has(ascii("itof"@)[2]) && Class::Prim.has(ascii("itof"@)[3]));
        reveal_strlit("f==");
        assert(Class::Prim.has(ascii("f=="@)[0]) && Class::Prim.has(ascii("f=="@)[1]) && Class::Prim.has(ascii("f=="@)[2]));
        reveal_strlit("f/=");
        assert(Class::Prim.has(ascii("f/="@)[0]) && Class::Prim.has(ascii("f/="@)[1]) && Class::Prim.has(ascii("f/="@)[2]));
        reveal_strlit("f<");
        assert(Class::Prim.has(ascii("f<"@)[0]) && Class::Prim.has(ascii("f<"@)[1]));
        reveal_strlit("f<=");
        assert(Class::Prim.has(ascii("f<="@)[0]) && Class::Prim.has(ascii("f<="@)[1]) && Class::Prim.has(ascii("f<="@)[2]));
        reveal_strlit("f>");
        assert(Class::Prim.has(ascii("f>"@)[0]) && Class::Prim.has(ascii("f>"@)[1]));
        reveal_strlit("f>=");
        assert(Class::Prim.has(ascii("f>="@)[0]) && Class::Prim.has(ascii("f>="@)[1]) && Class::Prim.has(ascii("f>="@)[2]));
        reveal_strlit("fshow");
        assert(Class::Prim.has(ascii("fshow"@)[0]) && Class::Prim.has(ascii("fshow"@)[1]) && Class::Prim.has(ascii("fshow"@)[2]) && Class::Prim.has(ascii("fshow"@)[3]) && Class::Prim.has(ascii("fshow"@)[4]));
        reveal_strlit("fread");
        assert(Class::Prim.has(ascii("fread"@)[0]) && Class::Prim.has(ascii("fread"@)[1]) && Class::Prim.has(ascii("fread"@)[2]) && Class::Prim.has(ascii("fread"@)[3]) && Class::Prim.has(ascii("fread"@)[4]));
    }

    /// No two primitives of the family share a token.
    pub proof fn lemma_token_injective(p: FArith, q: FArith)
        requires
            p.spec_token() == q.spec_token(),
        ensures
            p == q,
    {
        reveal_strlit("f+");
        assert("f+"@.len() == 2 && "f+"@[0] == 'f' && "f+"@[1] == '+');
        reveal_strlit("f-");
        assert("f-"@.len() == 2 && "f-"@[0] == 'f' && "f-"@[1] == '-');
        reveal_strlit("f*");
        assert("f*"@.len() == 2 && "f*"@[0] == 'f' && "f*"@[1] == '*');
        reveal_strlit("f/");
        assert("f/"@.len() == 2 && "f/"@[0] == 'f' && "f/"@[1] == '/');
        reveal_strlit("fneg");
        assert("fneg"@.len() == 4 && "fneg"@[0] == 'f' && "fneg"@[1] == 'n');
        reveal_strlit("itof");
        assert("itof"@.len() == 4 && "itof"@[0] == 'i' && "itof"@[1] == 't');
        reveal_strlit("f==");
        assert("f=="@.len() == 3 && "f=="@[0] == 'f' && "f=="@[1] == '=');
        reveal_strlit("f/=");
        assert("f/="@.len() == 3 && "f/="@[0] == 'f' && "f/="@[1] == '/');
        reveal_strlit("f<");
        assert("f<"@.len() == 2 && "f<"@[0] == 'f' && "f<"@[1] == '<');
        reveal_strlit("f<=");
        assert("f<="@.len() == 3 && "f<="@[0] == 'f' && "f<="@[1] == '<');
        reveal_strlit("f>");
        assert("f>"@.len() == 2 && "f>"@[0] == 'f' && "f>"@[1] == '>');
        reveal_strlit("f>=");
        assert("f>="@.len() == 3 && "f>="@[0] == 'f' && "f>="@[1] == '>');
        reveal_strlit("fshow");
        assert("fshow"@.len() == 5 && "fshow"@[0] == 'f' && "fshow"@[1] == 's');
        reveal_strlit("fread");
        assert("fread"@.len() == 5 && "fread"@[0] == 'f' && "fread"@[1] == 'r');
    }

    /// Reading back the token of a primitive gives that primitive.
    pub proof fn lemma_parse_token(p: FArith)
        ensures
            FArith::spec_parse(ascii(p.spec_token())) == Some(p),
    {
        let q = choose|q: FArith| ascii(q.spec_token()) == ascii(p.spec_token());
        FArith::lemma_token_ascii(p);
        FArith::lemma_token_ascii(q);
        lemma_ascii_injective(q.spec_token(), p.spec_token());
        FArith::lemma_token_injective(q, p);
    }

    /// The token that names the primitive.
    pub fn token(&self) -> (s: &'static str)
        ensures
            s@ == self.spec_token(),
    {
        match self {
            FArith::FAdd => "f+",
            FArith::FSub => "f-",
            FArith::FMul => "f*",
            FArith::FDiv => "f/",
            FArith::FNeg => "fneg",
            FArith::IToF => "itof",
            FArith::Feq => "f==",
            FArith::FNe => "f/=",
            FArith::FLt => "f<",
            FArith::FLe => "f<=",
            FArith::FGt => "f>",
            FArith::FGe => "f>=",
            FArith::FShow => "fshow",
            FArith::FRead => "fread",
        }
    }

    /// An owned copy of the token.
    pub fn to_string(&self) -> (s: String)
        ensures
            s@ == self.spec_token(),
    {
        String::from_str(self.token())
    }

    /// Reads a primitive of this family from its token.
    pub fn parse(tok: &[u8]) -> (r: Option<FArith>)
        ensures
            r == FArith::spec_parse(tok@),
    {
        proof {
            reveal_strlit("f+");
            reveal_strlit("f-");
            reveal_strlit("f*");
            reveal_strlit("f/");
            reveal_strlit("fneg");
            reveal_strlit("itof");
            reveal_strlit("f==");
            reveal_strlit("f/=");
            reveal_strlit("f<");
            reveal_strlit("f<=");
            reveal_strlit("f>");
            reveal_strlit("f>=");
            reveal_strlit("fshow");
            reveal_strlit("fread");
        }
        let r =
        if spells(tok, "f+") {
            Some(FArith::FAdd)
        } else if spells(tok, "f-") {
            Some(FArith::FSub)
        } else if spells(tok, "f*") {
            Some(FArith::FMul)
        } else if spells(tok, "f/") {
            Some(FArith::FDiv)
        } else if spells(tok, "fneg") {
            Some(FArith::FNeg)
        } else if spells(tok, "itof") {
            Some(FArith::IToF)
        } else if spells(tok, "f==") {
            Some(FArith::Feq)
        } else if spells(tok, "f/=") {
            Some(FArith::FNe)
        } else if spells(tok, "f<") {
            Some(FArith::FLt)
        } else if spells(tok, "f<=") {
            Some(FArith::FLe)
        } else if spells(tok, "f>") {
            Some(FArith::FGt)
        } else if spells(tok, "f>=") {
            Some(FArith::FGe)
        } else if spells(tok, "fshow") {
            Some(FArith::FShow)
        } else if spells(tok, "fread") {
            Some(FArith::FRead)
        } else {
            None
        };
        proof {
            match r {
                Some(p) => {
                    assert(ascii(p.spec_token()) == tok@);
                    FArith::lemma_parse_token(p);
                },
                None => {
                    assert forall|p: FArith| ascii(p.spec_token()) != tok@ by {
                        match p {
                            FArith::FAdd => {},
                            FArith::FSub => {},
                            FArith::FMul => {},
                            FArith::FDiv => {},
                            FArith::FNeg => {},
                            FArith::IToF => {},
                            FArith::Feq => {},
                            FArith::FNe => {},
                            FArith::FLt => {},
                            FArith::FLe => {},
                            FArith::FGt => {},
                            FArith::FGe => {},
                            FArith::FShow => {},
                            FArith::FRead => {},
                        }
                    }
                },
            }
        }
        r
    }
}

impl core::str::FromStr for FArith {
    type Err = UnknownToken;

    fn from_str(s: &str) -> (r: Result<Self, Self::Err>)
        ensures
            r == match FArith::spec_parse(s.spec_bytes()) {
                Some(p) => Ok::<FArith, UnknownToken>(p),
                None => Err::<FArith, UnknownToken>(UnknownToken),
            },
    {
        match FArith::parse(s.as_bytes()) {
            Some(p) => Ok(p),
            None => Err(UnknownToken),
        }
    }
}

/// Array and C-string primitives.
#[derive(Debug, Clone, Copy, PartialEq, Eq, Structural)]
pub enum Array {
    /// `A.alloc`
    Alloc,
    /// `A.size`
    Size,
    /// `A.read`
    Read,
    /// `A.write`
    Write,
    /// `A.==`
    Eq,
    /// `newCAStringLen`
    NewCAStringLen,
    /// `peekCAString`
    PeekCAString,
    /// `peekCAStringLen`
    PeekCAStringLen,
}

impl Array {
    /// The token that names the primitive in a combinator file.
    pub open spec fn spec_token(self) -> Seq<char> {
        match self {
            Array::Alloc => "A.alloc"@,
            Array::Size => "A.size"@,
            Array::Read => "A.read"@,
            Array::Write => "A.write"@,
            Array::Eq => "A.=="@,
            Array::NewCAStringLen => "newCAStringLen"@,
            Array::PeekCAString => "peekCAString"@,
            Array::PeekCAStringLen => "peekCAStringLen"@,
        }
    }

    /// The primitive of this family that the bytes `tok` name, if there is one.
    pub open spec fn spec_parse(tok: Seq<u8>) -> Option<Array> {
        if exists|p: Array| ascii(p.spec_token()) == tok {
            Some(choose|p: Array| ascii(p.spec_token()) == tok)
        } else {
            None
        }
    }

    /// Every token is a non-empty run of ASCII characters.
    pub proof fn lemma_token_ascii(p: Array)
        ensures
            is_ascii_chars(p.spec_token()),
            p.spec_token().len() > 0,
    {
        reveal_strlit("A.alloc");
        reveal_strlit("A.size");
        reveal_strlit("A.read");
        reveal_strlit("A.write");
        reveal_strlit("A.==");
        reveal_strlit("newCAStringLen");
        reveal_strlit("peekCAString");
        reveal_strlit("peekCAStringLen");
    }

    /// Every byte of a token is one that tokens are made of, and no token
    /// starts with `&` or `!`.
    pub proof fn lemma_token_shape(p: Array)
        ensures
            forall|i: int|
                0 <= i < p.spec_token().len() ==> Class::Prim.has(
                    #[trigger] ascii(p.spec_token())[i],
                ),
            ascii(p.spec_token())[0] != 38,
            ascii(p.spec_token())[0] != 33,
    {
        reveal_strlit("A.alloc");
        assert(Class::Prim.has(ascii("A.alloc"@)[0]) && Class::Prim.has(ascii("A.alloc"@)[1]) && Class::Prim.has(ascii("A.alloc"@)[2]) && Class::Prim.has(ascii("A.alloc"@)[3]) && Class::Prim.has(ascii("A.alloc"@)[4]) && Class::Prim.has(ascii("A.alloc"@)[5]) && Class::Prim.has(ascii("A.alloc"@)[6]));
        reveal_strlit("A.size");
        assert(Class::Prim.has(ascii("A.size"@)[0]) && Class::Prim.has(ascii("A.size"@)[1]) && Class::Prim.has(ascii("A.size"@)[2]) && Class::Prim.has(ascii("A.size"@)[3]) && Class::Prim.has(ascii("A.size"@)[4]) && Class::Prim.has(ascii("A.size"@)[5]));
        reveal_strlit("A.read");
        assert(Class::Prim.has(ascii("A.read"@)[0]) && Class::Prim.has(ascii("A.read"@)[1]) && Class::Prim.has(ascii("A.read"@)[2]) && Class::Prim.has(ascii("A.read"@)[3]) && Class::Prim.has(ascii("A.read"@)[4]) && Class::Prim.has(ascii("A.read"@)[5]));
        reveal_strlit("A.write");
        assert(Class::Prim.has(ascii("A.write"@)[0]) && Class::Prim.has(ascii("A.write"@)[1]) && Class::Prim.has(ascii("A.write"@)[2]) && Class::Prim.has(ascii("A.write"@)[3]) && Class::Prim.has(ascii("A.write"@)[4]) && Class::Prim.has(ascii("A.write"@)[5]) && Class::Prim.has(ascii("A.write"@)[6]));
        reveal_strlit("A.==");
        assert(Class::Prim.has(ascii("A.=="@)[0]) && Class::Prim.has(ascii("A.=="@)[1]) && Class::Prim.has(ascii("A.=="@)[2]) && Class::Prim.has(ascii("A.=="@)[3]));
        reveal_strlit("newCAStringLen");
        assert(Class::Prim.has(ascii("newCAStringLen"@)[0]) && Class::Prim.has(ascii("newCAStringLen"@)[1]) && Class::Prim.has(ascii("newCAStringLen"@)[2]) && Class::Prim.has(ascii("newCAStringLen"@)[3]) && Class::Prim.has(ascii("newCAStringLen"@)[4]) && Class::Prim.has(ascii("newCAStringLen"@)[5]) && Class::Prim.has(ascii("newCAStringLen"@)[6]) && Class::Prim.has(ascii("newCAStringLen"@)[7]) && Class::Prim.has(ascii("newCAStringLen"@)[8]) && Class::Prim.has(ascii("newCAStringLen"@)[9]) && Class::Prim.has(ascii("newCAStringLen"@)[10]) && Class::Prim.has(ascii("newCAStringLen"@)[11]) && Class::Prim.has(ascii("newCAStringLen"@)[12]) && Class::Prim.has(ascii("newCAStringLen"@)[13]));
        reveal_strlit("peekCAString");
        assert(Class::Prim.has(ascii("peekCAString"@)[0]) && Class::Prim.has(ascii("peekCAString"@)[1]) && Class::Prim.has(ascii("peekCAString"@)[2]) && Class::Prim.has(ascii("peekCAString"@)[3]) && Class::Prim.has(ascii("peekCAString"@)[4]) && Class::Prim.has(ascii("peekCAString"@)[5]) && Class::Prim.has(ascii("peekCAString"@)[6]) && Class::Prim.has(ascii("peekCAString"@)[7]) && Class::Prim.has(ascii("peekCAString"@)[8]) && Class::Prim.has(ascii("peekCAString"@)[9]) && Class::Prim.has(ascii("peekCAString"@)[10]) && Class::Prim.has(ascii("peekCAString"@)[11]));
        reveal_strlit("peekCAStringLen");
        assert(Class::Prim.has(ascii("peekCAStringLen"@)[0]) && Class::Prim.has(ascii("peekCAStringLen"@)[1]) && Class::Prim.has(ascii("peekCAStringLen"@)[2]) && Class::Prim.has(ascii("peekCAStringLen"@)[3]) && Class::Prim.has(ascii("peekCAStringLen"@)[4]) && Class::Prim.has(ascii("peekCAStringLen"@)[5]) && Class::Prim.has(ascii("peekCAStringLen"@)[6]) && Class::Prim.has(ascii("peekCAStringLen"@)[7]) && Class::Prim.has(ascii("peekCAStringLen"@)[8]) && Class::Prim.has(ascii("peekCAStringLen"@)[9]) && Class::Prim.has(ascii("peekCAStringLen"@)[10]) && Class::Prim.has(ascii("peekCAStringLen"@)[11]) && Class::Prim.has(ascii("peekCAStringLen"@)[12]) && Class::Prim.has(ascii("peekCAStringLen"@)[13]) && Class::Prim.has(ascii("peekCAStringLen"@)[14]));
    }

    /// No two primitives of the family share a token.
    pub proof fn lemma_token_injective(p: Array, q: Array)
        requires
            p.spec_token() == q.spec_token(),
        ensures
            p == q,
    {
        reveal_strlit("A.alloc");
        assert("A.alloc"@.len() == 7 && "A.alloc"@[0] == 'A' && "A.alloc"@[1] == '.' && "A.alloc"@[2] == 'a');
        reveal_strlit("A.size");
        assert("A.size"@.len() == 6 && "A.size"@[0] == 'A' && "A.size"@[1] == '.' && "A.size"@[2] == 's');
        reveal_strlit("A.read");
        assert("A.read"@.len() == 6 && "A.read"@[0] == 'A' && "A.read"@[1] == '.' && "A.read"@[2] == 'r');
        reveal_strlit("A.write");
        assert("A.write"@.len() == 7 && "A.write"@[0] == 'A' && "A.write"@[1] == '.' && "A.write"@[2] == 'w');
        reveal_strlit("A.==");
        assert("A.=="@.len() == 4 && "A.=="@[0] == 'A' && "A.=="@[1] == '.' && "A.=="@[2] == '=');
        reveal_strlit("newCAStringLen");
        assert("newCAStringLen"@.len() == 14 && "newCAStringLen"@[0] == 'n' && "newCAStringLen"@[1] == 'e' && "newCAStringLen"@[2] == 'w');
        reveal_strlit("peekCAString");
        assert("peekCAString"@.len() == 12 && "peekCAString"@[0] == 'p' && "peekCAString"@[1] == 'e' && "peekCAString"@[2] == 'e');
        reveal_strlit("peekCAStringLen");
        assert("peekCAStringLen"@.len() == 15 && "peekCAStringLen"@[0] == 'p' && "peekCAStringLen"@[1] == 'e' && "peekCAStringLen"@[2] == 'e');
    }

    /// Reading back the token of a primitive gives that primitive.
    pub proof fn lemma_parse_token(p: Array)
        ensures
            Array::spec_parse(ascii(p.spec_token())) == Some(p),
    {
        let q = choose|q: Array| ascii(q.spec_token()) == ascii(p.spec_token());
        Array::lemma_token_ascii(p);
        Array::lemma_token_ascii(q);
        lemma_ascii_injective(q.spec_token(), p.spec_token());
        Array::lemma_token_injective(q, p);
    }

    /// The token that names the primitive.
    pub fn token(&self) -> (s: &'static str)
        ensures
            s@ == self.spec_token(),
    {
        match self {
            Array::Alloc => "A.alloc",
            Array::Size => "A.size",
            Array::Read => "A.read",
            Array::Write => "A.write",
            Array::Eq => "A.==",
            Array::NewCAStringLen => "newCAStringLen",
            Array::PeekCAString => "peekCAString",
            Array::PeekCAStringLen => "peekCAStringLen",
        }
    }

    /// An owned copy of the token.
    pub fn to_string(&self) -> (s: String)
        ensures
            s@ == self.spec_token(),
    {
        String::from_str(self.token())
    }

    /// Reads a primitive of this family from its token.
    pub fn parse(tok: &[u8]) -> (r: Option<Array>)
        ensures
            r == Array::spec_parse(tok@),
    {
        proof {
            reveal_strlit("A.alloc");
            reveal_strlit("A.size");
            reveal_strlit("A.read");
            reveal_strlit("A.write");
            reveal_strlit("A.==");
            reveal_strlit("newCAStringLen");
            reveal_strlit("peekCAString");
            reveal_strlit("peekCAStringLen");
        }
        let r =
        if spells(tok, "A.alloc") {
            Some(Array::Alloc)
        } else if spells(tok, "A.size") {
            Some(Array::Size)
        } else if spells(tok, "A.read") {
            Some(Array::Read)
        } else if spells(tok, "A.write") {
            Some(Array::Write)
        } else if spells(tok, "A.==") {
            Some(Array::Eq)
        } else if spells(tok, "newCAStringLen") {
            Some(Array::NewCAStringLen)
        } else if spells(tok, "peekCAString") {
            Some(Array::PeekCAString)
        } else if spells(tok, "peekCAStringLen") {
            Some(Array::PeekCAStringLen)
        } else {
            None
        };
        proof {
            match r {
                Some(p) => {
                    assert(ascii(p.spec_token()) == tok@);
                    Array::lemma_parse_token(p);
                },
                None => {
                    assert forall|p: Array| ascii(p.spec_token()) != tok@ by {
                        match p {
                            Array::Alloc => {},
                            Array::Size => {},
                            Array::Read => {},
                            Array::Write => {},
                            Array::Eq => {},
                            Array::NewCAStringLen => {},
                            Array::PeekCAString => {},
                            Array::PeekCAStringLen => {},
                        }
                    }
                },
            }
        }
        r
    }
}

impl core::str::FromStr for Array {
    type Err = UnknownToken;

    fn from_str(s: &str) -> (r: Result<Self, Self::Err>)
        ensures
            r == match Array::spec_parse(s.spec_bytes()) {
                Some(p) => Ok::<Array, UnknownToken>(p),
                None => Err::<Array, UnknownToken>(UnknownToken),
            },
    {
        match Array::parse(s.as_bytes()) {
            Some(p) => Ok(p),
            None => Err(UnknownToken),
        }
    }
}

/// Any primitive: the disjoint union of the seven families.
#[derive(Debug, Clone, Copy, PartialEq, Eq, Structural)]
pub enum Prim {
    Combinator(Combinator),
    BuiltIn(BuiltIn),
    Arith(Arith),
    Pointer(Pointer),
    IO(IO),
    FArith(FArith),
    Array(Array),
}

impl Prim {
    /// The token that names the primitive in a combinator file.
    pub open spec fn spec_token(self) -> Seq<char> {
        match self {
            Prim::Combinator(p) => p.spec_token(),
            Prim::BuiltIn(p) => p.spec_token(),
            Prim::Arith(p) => p.spec_token(),
            Prim::Pointer(p) => p.spec_token(),
            Prim::IO(p) => p.spec_token(),
            Prim::FArith(p) => p.spec_token(),
            Prim::Array(p) => p.spec_token(),
        }
    }

    /// The primitive that the bytes `tok` name, if there is one.
    pub open spec fn spec_parse(tok: Seq<u8>) -> Option<Prim> {
        if exists|p: Prim| ascii(p.spec_token()) == tok {
            Some(choose|p: Prim| ascii(p.spec_token()) == tok)
        } else {
            None
        }
    }

    /// Every token is a non-empty run of ASCII characters.
    pub proof fn lemma_token_ascii(p: Prim)
        ensures
            is_ascii_chars(p.spec_token()),
            p.spec_token().len() > 0,
    {
        match p {
            Prim::Combinator(x) => Combinator::lemma_token_ascii(x),
            Prim::BuiltIn(x) => BuiltIn::lemma_token_ascii(x),
            Prim::Arith(x) => Arith::lemma_token_ascii(x),
            Prim::Pointer(x) => Pointer::lemma_token_ascii(x),
            Prim::IO(x) => IO::lemma_token_ascii(x),
            Prim::FArith(x) => FArith::lemma_token_ascii(x),
            Prim::Array(x) => Array::lemma_token_ascii(x),
        }
    }

    /// Every byte of a token is one that tokens are made of, and no token
    /// starts with `&` or `!`.
    pub proof fn lemma_token_shape(p: Prim)
        ensures
            forall|i: int|
                0 <= i < p.spec_token().len() ==> Class::Prim.has(
                    #[trigger] ascii(p.spec_token())[i],
                ),
            ascii(p.spec_token())[0] != 38,
            ascii(p.spec_token())[0] != 33,
    {
        match p {
            Prim::Combinator(x) => Combinator::lemma_token_shape(x),
            Prim::BuiltIn(x) => BuiltIn::lemma_token_shape(x),
            Prim::Arith(x) => Arith::lemma_token_shape(x),
            Prim::Pointer(x) => Pointer::lemma_token_shape(x),
            Prim::IO(x) => IO::lemma_token_shape(x),
            Prim::FArith(x) => FArith::lemma_token_shape(x),
            Prim::Array(x) => Array::lemma_token_shape(x),
        }
    }

    /// No two primitives share a token, whatever their families.
    #[verifier::rlimit(100)]
    pub proof fn lemma_token_injective(p: Prim, q: Prim)
        requires
            p.spec_token() == q.spec_token(),
        ensures
            p == q,
    {
        reveal_strlit("S");
        assert("S"@.len() == 1 && "S"@[0] == 'S');
        reveal_strlit("K");
        assert("K"@.len() == 1 && "K"@[0] == 'K');
        reveal_strlit("I");
        assert("I"@.len() == 1 && "I"@[0] == 'I');
        reveal_strlit("B");
        assert("B"@.len() == 1 && "B"@[0] == 'B');
        reveal_strlit("C");
        assert("C"@.len() == 1 && "C"@[0] == 'C');
        reveal_strlit("A");
        assert("A"@.len() == 1 && "A"@[0] == 'A');
        reveal_strlit("Y");
        assert("Y"@.len() == 1 && "Y"@[0] == 'Y');
        reveal_strlit("S'");
        assert("S'"@.len() == 2 && "S'"@[0] == 'S' && "S'"@[1] == '\'');
        reveal_strlit("B'");
        assert("B'"@.len() == 2 && "B'"@[0] == 'B' && "B'"@[1] == '\'');
        reveal_strlit("C'");
        assert("C'"@.len() == 2 && "C'"@[0] == 'C' && "C'"@[1] == '\'');
        reveal_strlit("P");
        assert("P"@.len() == 1 && "P"@[0] == 'P');
        reveal_strlit("R");
        assert("R"@.len() == 1 && "R"@[0] == 'R');
        reveal_strlit("O");
        assert("O"@.len() == 1 && "O"@[0] == 'O');
        reveal_strlit("U");
        assert("U"@.len() == 1 && "U"@[0] == 'U');
        reveal_strlit("Z");
        assert("Z"@.len() == 1 && "Z"@[0] == 'Z');
        reveal_strlit("K2");
        assert("K2"@.len() == 2 && "K2"@[0] == 'K' && "K2"@[1] == '2');
        reveal_strlit("K3");
        assert("K3"@.len() == 2 && "K3"@[0] == 'K' && "K3"@[1] == '3');
        reveal_strlit("K4");
        assert("K4"@.len() == 2 && "K4"@[0] == 'K' && "K4"@[1] == '4');
        reveal_strlit("C'B");
        assert("C'B"@.len() == 3 && "C'B"@[0] == 'C' && "C'B"@[1] == '\'' && "C'B"@[2] == 'B');
        reveal_strlit("error");
        assert("error"@.len() == 5 && "error"@[0] == 'e' && "error"@[1] == 'r' && "error"@[2] == 'r' && "error"@[3] == 'o' && "error"@[4] == 'r');
        reveal_strlit("noDefault");
        assert("noDefault"@.len() == 9 && "noDefault"@[0] == 'n' && "noDefault"@[1] == 'o' && "noDefault"@[2] == 'D' && "noDefault"@[3] == 'e' && "noDefault"@[4] == 'f' && "noDefault"@[5] == 'a' && "noDefault"@[6] == 'u');
        reveal_strlit("noMatch");
        assert("noMatch"@.len() == 7 && "noMatch"@[0] == 'n' && "noMatch"@[1] == 'o' && "noMatch"@[2] == 'M' && "noMatch"@[3] == 'a' && "noMatch"@[4] == 't' && "noMatch"@[5] == 'c' && "noMatch"@[6] == 'h');
        reveal_strlit("seq");
        assert("seq"@.len() == 3 && "seq"@[0] == 's' && "seq"@[1] == 'e' && "seq"@[2] == 'q');
        reveal_strlit("equal");
        assert("equal"@.len() == 5 && "equal"@[0] == 'e' && "equal"@[1] == 'q' && "equal"@[2] == 'u' && "equal"@[3] == 'a' && "equal"@[4] == 'l');
        reveal_strlit("sequal");
        assert("sequal"@.len() == 6 && "sequal"@[0] == 's' && "sequal"@[1] == 'e' && "sequal"@[2] == 'q' && "sequal"@[3] == 'u' && "sequal"@[4] == 'a' && "sequal"@[5] == 'l');
        reveal_strlit("compare");
        assert("compare"@.len() == 7 && "compare"@[0] == 'c' && "compare"@[1] == 'o' && "compare"@[2] == 'm' && "compare"@[3] == 'p' && "compare"@[4] == 'a' && "compare"@[5] == 'r' && "compare"@[6] == 'e');
        reveal_strlit("scmp");
        assert("scmp"@.len() == 4 && "scmp"@[0] == 's' && "scmp"@[1] == 'c' && "scmp"@[2] == 'm' && "scmp"@[3] == 'p');
        reveal_strlit("icmp");
        assert("icmp"@.len() == 4 && "icmp"@[0] == 'i' && "icmp"@[1] == 'c' && "icmp"@[2] == 'm' && "icmp"@[3] == 'p');
        reveal_strlit("rnf");
        assert("rnf"@.len() == 3 && "rnf"@[0] == 'r' && "rnf"@[1] == 'n' && "rnf"@[2] == 'f');
        reveal_strlit("+");
        assert("+"@.len() == 1 && "+"@[0] == '+');
        reveal_strlit("-");
        assert("-"@.len() == 1 && "-"@[0] == '-');
        reveal_strlit("*");
        assert("*"@.len() == 1 && "*"@[0] == '*');
        reveal_strlit("quot");
        assert("quot"@.len() == 4 && "quot"@[0] == 'q' && "quot"@[1] == 'u' && "quot"@[2] == 'o' && "quot"@[3] == 't');
        reveal_strlit("rem");
        assert("rem"@.len() == 3 && "rem"@[0] == 'r' && "rem"@[1] == 'e' && "rem"@[2] == 'm');
        reveal_strlit("subtract");
        assert("subtract"@.len() == 8 && "subtract"@[0] == 's' && "subtract"@[1] == 'u' && "subtract"@[2] == 'b' && "subtract"@[3] == 't' && "subtract"@[4] == 'r' && "subtract"@[5] == 'a' && "subtract"@[6] == 'c');
        reveal_strlit("uquot");
        assert("uquot"@.len() == 5 && "uquot"@[0] == 'u' && "uquot"@[1] == 'q' && "uquot"@[2] == 'u' && "uquot"@[3] == 'o' && "uquot"@[4] == 't');
        reveal_strlit("urem");
        assert("urem"@.len() == 4 && "urem"@[0] == 'u' && "urem"@[1] == 'r' && "urem"@[2] == 'e' && "urem"@[3] == 'm');
        reveal_strlit("neg");
        assert("neg"@.len() == 3 && "neg"@[0] == 'n' && "neg"@[1] == 'e' && "neg"@[2] == 'g');
        reveal_strlit("and");
        assert("and"@.len() == 3 && "and"@[0] == 'a' && "and"@[1] == 'n' && "and"@[2] == 'd');
        reveal_strlit("or");
        assert("or"@.len() == 2 && "or"@[0] == 'o' && "or"@[1] == 'r');
        reveal_strlit("xor");
        assert("xor"@.len() == 3 && "xor"@[0] == 'x' && "xor"@[1] == 'o' && "xor"@[2] == 'r');
        reveal_strlit("inv");
        assert("inv"@.len() == 3 && "inv"@[0] == 'i' && "inv"@[1] == 'n' && "inv"@[2] == 'v');
        reveal_strlit("shl");
        assert("shl"@.len() == 3 && "shl"@[0] == 's' && "shl"@[1] == 'h' && "shl"@[2] == 'l');
        reveal_strlit("shr");
        assert("shr"@.len() == 3 && "shr"@[0] == 's' && "shr"@[1] == 'h' && "shr"@[2] == 'r');
        reveal_strlit("ashr");
        assert("ashr"@.len() == 4 && "ashr"@[0] == 'a' && "ashr"@[1] == 's' && "ashr"@[2] == 'h' && "ashr"@[3] == 'r');
        reveal_strlit("eq");
        assert("eq"@.len() == 2 && "eq"@[0] == 'e' && "eq"@[1] == 'q');
        reveal_strlit("ne");
        assert("ne"@.len() == 2 && "ne"@[0] == 'n' && "ne"@[1] == 'e');
        reveal_strlit("lt");
        assert("lt"@.len() == 2 && "lt"@[0] == 'l' && "lt"@[1] == 't');
        reveal_strlit("le");
        assert("le"@.len() == 2 && "le"@[0] == 'l' && "le"@[1] == 'e');
        reveal_strlit("gt");
        assert("gt"@.len() == 2 && "gt"@[0] == 'g' && "gt"@[1] == 't');
        reveal_strlit("ge");
        assert("ge"@.len() == 2 && "ge"@[0] == 'g' && "ge"@[1] == 'e');
        reveal_strlit("u<");
        assert("u<"@.len() == 2 && "u<"@[0] == 'u' && "u<"@[1] == '<');
        reveal_strlit("u<=");
        assert("u<="@.len() == 3 && "u<="@[0] == 'u' && "u<="@[1] == '<' && "u<="@[2] == '=');
        reveal_strlit("u>");
        assert("u>"@.len() == 2 && "u>"@[0] == 'u' && "u>"@[1] == '>');
        reveal_strlit("u>=");
        assert("u>="@.len() == 3 && "u>="@[0] == 'u' && "u>="@[1] == '>' && "u>="@[2] == '=');
        reveal_strlit("toInt");
        assert("toInt"@.len() == 5 && "toInt"@[0] == 't' && "toInt"@[1] == 'o' && "toInt"@[2] == 'I' && "toInt"@[3] == 'n' && "toInt"@[4] == 't');
        reveal_strlit("p==");
        assert("p=="@.len() == 3 && "p=="@[0] == 'p' && "p=="@[1] == '=' && "p=="@[2] == '=');
        reveal_strlit("pnull");
        assert("pnull"@.len() == 5 && "pnull"@[0] == 'p' && "pnull"@[1] == 'n' && "pnull"@[2] == 'u' && "pnull"@[3] == 'l' && "pnull"@[4] == 'l');
        reveal_strlit("p+");
        assert("p+"@.len() == 2 && "p+"@[0] == 'p' && "p+"@[1] == '+');
        reveal_strlit("p=");
        assert("p="@.len() == 2 && "p="@[0] == 'p' && "p="@[1] == '=');
        reveal_strlit("toPtr");
        assert("toPtr"@.len() == 5 && "toPtr"@[0] == 't' && "toPtr"@[1] == 'o' && "toPtr"@[2] == 'P' && "toPtr"@[3] == 't' && "toPtr"@[4] == 'r');
        reveal_strlit("IO.>>=");
        assert("IO.>>="@.len() == 6 && "IO.>>="@[0] == 'I' && "IO.>>="@[1] == 'O' && "IO.>>="@[2] == '.' && "IO.>>="@[3] == '>' && "IO.>>="@[4] == '>' && "IO.>>="@[5] == '=');
        reveal_strlit("IO.>>");
        assert("IO.>>"@.len() == 5 && "IO.>>"@[0] == 'I' && "IO.>>"@[1] == 'O' && "IO.>>"@[2] == '.' && "IO.>>"@[3] == '>' && "IO.>>"@[4] == '>');
        reveal_strlit("IO.return");
        assert("IO.return"@.len() == 9 && "IO.return"@[0] == 'I' && "IO.return"@[1] == 'O' && "IO.return"@[2] == '.' && "IO.return"@[3] == 'r' && "IO.return"@[4] == 'e' && "IO.return"@[5] == 't' && "IO.return"@[6] == 'u');
        reveal_strlit("IO.serialize");
        assert("IO.serialize"@.len() == 12 && "IO.serialize"@[0] == 'I' && "IO.serialize"@[1] == 'O' && "IO.serialize"@[2] == '.' && "IO.serialize"@[3] == 's' && "IO.serialize"@[4] == 'e' && "IO.serialize"@[5] == 'r' && "IO.serialize"@[6] == 'i');
        reveal_strlit("IO.deserialize");
        assert("IO.deserialize"@.len() == 14 && "IO.deserialize"@[0] == 'I' && "IO.deserialize"@[1] == 'O' && "IO.deserialize"@[2] == '.' && "IO.deserialize"@[3] == 'd' && "IO.deserialize"@[4] == 'e' && "IO.deserialize"@[5] == 's' && "IO.deserialize"@[6] == 'e');
        reveal_strlit("IO.stdin");
        assert("IO.stdin"@.len() == 8 && "IO.stdin"@[0] == 'I' && "IO.stdin"@[1] == 'O' && "IO.stdin"@[2] == '.' && "IO.stdin"@[3] == 's' && "IO.stdin"@[4] == 't' && "IO.stdin"@[5] == 'd' && "IO.stdin"@[6] == 'i');
        reveal_strlit("IO.stdout");
        assert("IO.stdout"@.len() == 9 && "IO.stdout"@[0] == 'I' && "IO.stdout"@[1] == 'O' && "IO.stdout"@[2] == '.' && "IO.stdout"@[3] == 's' && "IO.stdout"@[4] == 't' && "IO.stdout"@[5] == 'd' && "IO.stdout"@[6] == 'o');
        reveal_strlit("IO.stderr");
        assert("IO.stderr"@.len() == 9 && "IO.stderr"@[0] == 'I' && "IO.stderr"@[1] == 'O' && "IO.stderr"@[2] == '.' && "IO.stderr"@[3] == 's' && "IO.stderr"@[4] == 't' && "IO.stderr"@[5] == 'd' && "IO.stderr"@[6] == 'e');
        reveal_strlit("IO.getArgs");
        assert("IO.getArgs"@.len() == 10 && "IO.getArgs"@[0] == 'I' && "IO.getArgs"@[1] == 'O' && "IO.getArgs"@[2] == '.' && "IO.getArgs"@[3] == 'g' && "IO.getArgs"@[4] == 'e' && "IO.getArgs"@[5] == 't' && "IO.getArgs"@[6] == 'A');
        reveal_strlit("IO.performIO");
        assert("IO.performIO"@.len() == 12 && "IO.performIO"@[0] == 'I' && "IO.performIO"@[1] == 'O' && "IO.performIO"@[2] == '.' && "IO.performIO"@[3] == 'p' && "IO.performIO"@[4] == 'e' && "IO.performIO"@[5] == 'r' && "IO.performIO"@[6] == 'f');
        reveal_strlit("IO.getTimeMilli");
        assert("IO.getTimeMilli"@.len() == 15 && "IO.getTimeMilli"@[0] == 'I' && "IO.getTimeMilli"@[1] == 'O' && "IO.getTimeMilli"@[2] == '.' && "IO.getTimeMilli"@[3] == 'g' && "IO.getTimeMilli"@[4] == 'e' && "IO.getTimeMilli"@[5] == 't' && "IO.getTimeMilli"@[6] == 'T');
        reveal_strlit("IO.print");
        assert("IO.print"@.len() == 8 && "IO.print"@[0] == 'I' && "IO.print"@[1] == 'O' && "IO.print"@[2] == '.' && "IO.print"@[3] == 'p' && "IO.print"@[4] == 'r' && "IO.print"@[5] == 'i' && "IO.print"@[6] == 'n');
        reveal_strlit("IO.catch");
        assert("IO.catch"@.len() == 8 && "IO.catch"@[0] == 'I' && "IO.catch"@[1] == 'O' && "IO.catch"@[2] == '.' && "IO.catch"@[3] == 'c' && "IO.catch"@[4] == 'a' && "IO.catch"@[5] == 't' && "IO.catch"@[6] == 'c');
        reveal_strlit("dynsym");
        assert("dynsym"@.len() == 6 && "dynsym"@[0] == 'd' && "dynsym"@[1] == 'y' && "dynsym"@[2] == 'n' && "dynsym"@[3] == 's' && "dynsym"@[4] == 'y' && "dynsym"@[5] == 'm');
        reveal_strlit("f+");
        assert("f+"@.len() == 2 && "f+"@[0] == 'f' && "f+"@[1] == '+');
        reveal_strlit("f-");
        assert("f-"@.len() == 2 && "f-"@[0] == 'f' && "f-"@[1] == '-');
        reveal_strlit("f*");
        assert("f*"@.len() == 2 && "f*"@[0] == 'f' && "f*"@[1] == '*');
        reveal_strlit("f/");
        assert("f/"@.len() == 2 && "f/"@[0] == 'f' && "f/"@[1] == '/');
        reveal_strlit("fneg");
        assert("fneg"@.len() == 4 && "fneg"@[0] == 'f' && "fneg"@[1] == 'n' && "fneg"@[2] == 'e' && "fneg"@[3] == 'g');
        reveal_strlit("itof");
        assert("itof"@.len() == 4 && "itof"@[0] == 'i' && "itof"@[1] == 't' && "itof"@[2] == 'o' && "itof"@[3] == 'f');
        reveal_strlit("f==");
        assert("f=="@.len() == 3 && "f=="@[0] == 'f' && "f=="@[1] == '=' && "f=="@[2] == '=');
        reveal_strlit("f/=");
        assert("f/="@.len() == 3 && "f/="@[0] == 'f' && "f/="@[1] == '/' && "f/="@[2] == '=');
        reveal_strlit("f<");
        assert("f<"@.len() == 2 && "f<"@[0] == 'f' && "f<"@[1] == '<');
        reveal_strlit("f<=");
        assert("f<="@.len() == 3 && "f<="@[0] == 'f' && "f<="@[1] == '<' && "f<="@[2] == '=');
        reveal_strlit("f>");
        assert("f>"@.len() == 2 && "f>"@[0] == 'f' && "f>"@[1] == '>');
        reveal_strlit("f>=");
        assert("f>="@.len() == 3 && "f>="@[0] == 'f' && "f>="@[1] == '>' && "f>="@[2] == '=');
        reveal_strlit("fshow");
        assert("fshow"@.len() == 5 && "fshow"@[0] == 'f' && "fshow"@[1] == 's' && "fshow"@[2] == 'h' && "fshow"@[3] == 'o' && "fshow"@[4] == 'w');
        reveal_strlit("fread");
        assert("fread"@.len() == 5 && "fread"@[0] == 'f' && "fread"@[1] == 'r' && "fread"@[2] == 'e' && "fread"@[3] == 'a' && "fread"@[4] == 'd');
        reveal_strlit("A.alloc");
        assert("A.alloc"@.len() == 7 && "A.alloc"@[0] == 'A' && "A.alloc"@[1] == '.' && "A.alloc"@[2] == 'a' && "A.alloc"@[3] == 'l' && "A.alloc"@[4] == 'l' && "A.alloc"@[5] == 'o' && "A.alloc"@[6] == 'c');
        reveal_strlit("A.size");
        assert("A.size"@.len() == 6 && "A.size"@[0] == 'A' && "A.size"@[1] == '.' && "A.size"@[2] == 's' && "A.size"@[3] == 'i' && "A.size"@[4] == 'z' && "A.size"@[5] == 'e');
        reveal_strlit("A.read");
        assert("A.read"@.len() == 6 && "A.read"@[0] == 'A' && "A.read"@[1] == '.' && "A.read"@[2] == 'r' && "A.read"@[3] == 'e' && "A.read"@[4] == 'a' && "A.read"@[5] == 'd');
        reveal_strlit("A.write");
        assert("A.write"@.len() == 7 && "A.write"@[0] == 'A' && "A.write"@[1] == '.' && "A.write"@[2] == 'w' && "A.write"@[3] == 'r' && "A.write"@[4] == 'i' && "A.write"@[5] == 't' && "A.write"@[6] == 'e');
        reveal_strlit("A.==");
        assert("A.=="@.len() == 4 && "A.=="@[0] == 'A' && "A.=="@[1] == '.' && "A.=="@[2] == '=' && "A.=="@[3] == '=');
        reveal_strlit("newCAStringLen");
        assert("newCAStringLen"@.len() == 14 && "newCAStringLen"@[0] == 'n' && "newCAStringLen"@[1] == 'e' && "newCAStringLen"@[2] == 'w' && "newCAStringLen"@[3] == 'C' && "newCAStringLen"@[4] == 'A' && "newCAStringLen"@[5] == 'S' && "newCAStringLen"@[6] == 't');
        reveal_strlit("peekCAString");
        assert("peekCAString"@.len() == 12 && "peekCAString"@[0] == 'p' && "peekCAString"@[1] == 'e' && "peekCAString"@[2] == 'e' && "peekCAString"@[3] == 'k' && "peekCAString"@[4] == 'C' && "peekCAString"@[5] == 'A' && "peekCAString"@[6] == 'S');
        reveal_strlit("peekCAStringLen");
        assert("peekCAStringLen"@.len() == 15 && "peekCAStringLen"@[0] == 'p' && "peekCAStringLen"@[1] == 'e' && "peekCAStringLen"@[2] == 'e' && "peekCAStringLen"@[3] == 'k' && "peekCAStringLen"@[4] == 'C' && "peekCAStringLen"@[5] == 'A' && "peekCAStringLen"@[6] == 'S');
    }

    /// Reading back the token of a primitive gives that primitive.
    pub proof fn lemma_parse_token(p: Prim)
        ensures
            Prim::spec_parse(ascii(p.spec_token())) == Some(p),
    {
        let q = choose|q: Prim| ascii(q.spec_token()) == ascii(p.spec_token());
        Prim::lemma_token_ascii(p);
        Prim::lemma_token_ascii(q);
        lemma_ascii_injective(q.spec_token(), p.spec_token());
        Prim::lemma_token_injective(q, p);
    }

    /// The token that names the primitive.
    pub fn token(&self) -> (s: &'static str)
        ensures
            s@ == self.spec_token(),
    {
        match self {
            Prim::Combinator(p) => p.token(),
            Prim::BuiltIn(p) => p.token(),
            Prim::Arith(p) => p.token(),
            Prim::Pointer(p) => p.token(),
            Prim::IO(p) => p.token(),
            Prim::FArith(p) => p.token(),
            Prim::Array(p) => p.token(),
        }
    }

    /// An owned copy of the token.
    pub fn to_string(&self) -> (s: String)
        ensures
            s@ == self.spec_token(),
    {
        String::from_str(self.token())
    }

    /// Reads a primitive from its token, trying each family in turn.
    pub fn parse(tok: &[u8]) -> (r: Option<Prim>)
        ensures
            r == Prim::spec_parse(tok@),
    {
        let r =
        if let Some(p) = Combinator::parse(tok) {
            Some(Prim::Combinator(p))
        } else if let Some(p) = BuiltIn::parse(tok) {
            Some(Prim::BuiltIn(p))
        } else if let Some(p) = Arith::parse(tok) {
            Some(Prim::Arith(p))
        } else if let Some(p) = Pointer::parse(tok) {
            Some(Prim::Pointer(p))
        } else if let Some(p) = IO::parse(tok) {
            Some(Prim::IO(p))
        } else if let Some(p) = FArith::parse(tok) {
            Some(Prim::FArith(p))
        } else if let Some(p) = Array::parse(tok) {
            Some(Prim::Array(p))
        } else {
            None
        };
        proof {
            match r {
                Some(p) => {
                    assert(ascii(p.spec_token()) == tok@);
                    Prim::lemma_parse_token(p);
                },
                None => {
                    assert forall|p: Prim| ascii(p.spec_token()) != tok@ by {
                        match p {
                            Prim::Combinator(x) => {},
                            Prim::BuiltIn(x) => {},
                            Prim::Arith(x) => {},
                            Prim::Pointer(x) => {},
                            Prim::IO(x) => {},
                            Prim::FArith(x) => {},
                            Prim::Array(x) => {},
                        }
                    }
                },
            }
        }
        r
    }
}

impl core::str::FromStr for Prim {
    type Err = UnknownToken;

    fn from_str(s: &str) -> (r: Result<Self, Self::Err>)
        ensures
            r == match Prim::spec_parse(s.spec_bytes()) {
                Some(p) => Ok::<Prim, UnknownToken>(p),
                None => Err::<Prim, UnknownToken>(UnknownToken),
            },
    {
        match Prim::parse(s.as_bytes()) {
            Some(p) => Ok(p),
            None => Err(UnknownToken),
        }
    }
}

} // verus!
