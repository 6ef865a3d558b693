//! Combinator graphs.
//!
//! A combinator file holds a program as one expression over a closed set of
//! primitives. The library reads such a file into a flat pool of expressions
//! ([`parse`], by the grammar in [`grammar`]), writes it back ([`print`]),
//! and lowers it to a graph in which shared expressions are shared nodes
//! ([`lower`]). On the graph it marks what the root reaches and sweeps away
//! the rest ([`mark`]), and finds the applications at which a combinator has
//! all its arguments ([`redex`]).
//!
//! What the library promises is stated in the contracts of its functions and
//! proved; what it takes on trust of the crates it calls is stated in
//! [`arena`], and in one place each in [`parse`] and [`text`].

pub mod text;
pub mod lex;
pub mod comb;
pub mod expr;
pub mod print;
pub mod grammar;
pub mod parse;
pub mod sound;
pub mod reread;
pub mod arena;
pub mod graph;
pub mod lower;
pub mod mark;
pub mod redex;
pub mod leaves;
pub mod layout;
