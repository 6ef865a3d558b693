//! The leaves of a graph, and a report on them.

use vstd::prelude::*;
use crate::arena::is_sink;
use crate::arena::rising;
use crate::arena::store_node;
use crate::arena::store_sinks;
use crate::comb::Prim;
use crate::expr::Expr;
use crate::expr::Index;
use crate::expr::Term;
use crate::graph::CombGraph;
use crate::graph::CombNode;
use crate::print::quoted;
use crate::print::push_quoted;
use crate::text::ascii;
use crate::text::dec;
use crate::text::dec_signed;
use crate::text::push_bytes;
use crate::text::push_dec;
use crate::text::push_dec_signed;
use crate::text::str_bytes;

verus! {

impl Term {
    /// The expression as the label of a node: a leaf as it is written in a
    /// file, an application as `@`, a reference as `*`, an array as its
    /// size in brackets.
    pub open spec fn label(self) -> Seq<u8> {
        match self {
            Term::App(_, _, _) => seq![64u8],
            Term::Array(n, _) => seq![91u8] + dec(n as nat) + seq![93u8],
            Term::Ref(_) => seq![42u8],
            Term::Float(s) => seq![38u8] + s,
            Term::Int(i) => seq![35u8] + dec_signed(i as int),
            Term::String(s) => quoted(s),
            Term::Tick(s) => seq![33u8] + quoted(s),
            Term::Ffi(s) => seq![94u8] + s,
            Term::Prim(p) => ascii(p.spec_token()),
            Term::Unknown(s) => seq![63u8, 33u8] + s,
        }
    }
}

impl Expr {
    /// The expression as the label of a node.
    pub fn label(&self) -> (text: Vec<u8>)
        ensures
            text@ == self@.label(),
    {
        let mut out: Vec<u8> = Vec::new();
        match self {
            Expr::App(_, _, _) => {
                out.push(64);
            },
            Expr::Array(n, _) => {
                out.push(91);
                push_dec(&mut out, *n as u64);
                out.push(93);
            },
            Expr::Ref(_) => {
                out.push(42);
            },
            Expr::Float(s) => {
                out.push(38);
                push_bytes(&mut out, s.as_slice());
            },
            Expr::Int(i) => {
                out.push(35);
                push_dec_signed(&mut out, *i);
            },
            Expr::String(s) => {
                push_quoted(&mut out, s);
            },
            Expr::Tick(s) => {
                out.push(33);
                push_quoted(&mut out, s);
            },
            Expr::Ffi(s) => {
                out.push(94);
                push_bytes(&mut out, s.as_slice());
            },
            Expr::Prim(p) => {
                proof {
                    Prim::lemma_token_ascii(*p);
                }
                push_bytes(&mut out, str_bytes(p.token()));
            },
            Expr::Unknown(s) => {
                out.push(63);
                out.push(33);
                push_bytes(&mut out, s.as_slice());
            },
        }
        assert(out@ =~= self@.label());
        out
    }
}

/// The line that reports on a leaf: its label and whether it is marked
/// reachable.
pub open spec fn leaf_line(node: CombNode<Index>) -> Seq<u8> {
    node.expr@.label() + ascii(": reachable="@) + if node.reachable {
        ascii("true"@)
    } else {
        ascii("false"@)
    } + seq![10u8]
}

/// The report on the first `upto` of `leaves`: their lines, in order.
pub open spec fn leaf_lines(nodes: Map<usize, CombNode<Index>>, leaves: Seq<usize>, upto: nat) -> Seq<
    u8,
>
    decreases upto,
{
    if upto == 0 {
        Seq::empty()
    } else {
        leaf_lines(nodes, leaves, (upto - 1) as nat) + leaf_line(nodes[leaves[upto - 1]])
    }
}

impl CombGraph<Index> {
    /// Whether `leaves` lists the leaves of the graph, the nodes without
    /// outgoing edges, each once and by rising identifier.
    pub open spec fn lists_leaves(&self, leaves: Seq<usize>) -> bool {
        rising(leaves) && forall|n: usize| leaves.contains(n) <==> is_sink(self.out(), n)
    }

    /// The leaves of the graph.
    pub fn leaves(&self) -> (leaves: Vec<usize>)
        ensures
            self.lists_leaves(leaves@),
    {
        store_sinks(&self.g)
    }

    /// A report on the leaves: for each a line with its label and whether
    /// it is marked reachable.
    pub fn print_leaves(&self) -> (report: Vec<u8>)
        requires
            self.wf(),
        ensures
            exists|leaves: Seq<usize>| #[trigger]
                self.lists_leaves(leaves) && report@ == leaf_lines(
                    self.nodes(),
                    leaves,
                    leaves.len(),
                ),
    {
        let leaves = store_sinks(&self.g);
        let mut report: Vec<u8> = Vec::new();
        let mut i: usize = 0;
        while i < leaves.len()
            invariant
                i <= leaves.len(),
                self.wf(),
                self.lists_leaves(leaves@),
                report@ == leaf_lines(self.nodes(), leaves@, i as nat),
            decreases leaves.len() - i,
        {
            let leaf = leaves[i];
            assert(leaves@.contains(leaf));
            assert(is_sink(self.out(), leaf));
            let node = store_node(&self.g, leaf);
            let label = node.expr.label();
            let ghost before = report@;
            proof {
                reveal_strlit(": reachable=");
                reveal_strlit("true");
                reveal_strlit("false");
            }
            push_bytes(&mut report, label.as_slice());
            push_bytes(&mut report, str_bytes(": reachable="));
            if node.reachable {
                push_bytes(&mut report, str_bytes("true"));
            } else {
                push_bytes(&mut report, str_bytes("false"));
            }
            report.push(10);
            assert(report@ =~= before + leaf_line(*node));
            i += 1;
        }
        assert(self.lists_leaves(leaves@));
        report
    }
}

} // verus!
