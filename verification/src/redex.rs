//! Redex detection: finding the applications at which a combinator has all
//! the arguments it needs.

use vstd::prelude::*;
use crate::arena::bits;
use crate::arena::graph_in;
use crate::arena::graph_nodes;
use crate::arena::graph_out;
use crate::arena::is_sink;
use crate::arena::rising;
use crate::arena::store_incoming;
use crate::arena::store_node;
use crate::arena::store_node_mut;
use crate::arena::store_sinks;
use crate::arena::store_visit_map;
use crate::arena::visit;
use crate::arena::Link;
use crate::arena::Store;
use crate::comb::Combinator;
use crate::comb::Prim;
use crate::expr::Expr;
use crate::expr::Index;
use crate::expr::Term;
use crate::graph::linked;
use crate::graph::CombEdge;
use crate::graph::CombGraph;
use crate::graph::CombNode;

verus! {

/// Whether an indirection leads from `b` to `a`: `b` is a reference to `a`.
pub open spec fn crosses(inc: Map<usize, Seq<Link>>, a: usize, b: usize) -> bool {
    inc.dom().contains(a) && inc[a].contains((b, CombEdge::Ind))
}

/// Whether each node of `chain` has an indirection from the next.
pub open spec fn is_chain(inc: Map<usize, Seq<Link>>, chain: Seq<usize>) -> bool {
    forall|i: int| 0 <= i < chain.len() - 1 ==> crosses(inc, #[trigger] chain[i], chain[i + 1])
}

/// Whether `x` stands for `n`: it is `n`, or a reference from which
/// indirections alone lead to `n`.
pub open spec fn stands_for(inc: Map<usize, Seq<Link>>, n: usize, x: usize) -> bool {
    exists|chain: Seq<usize>|
        chain.len() > 0 && #[trigger] is_chain(inc, chain) && chain[0] == n && chain.last() == x
}

/// Whether `m` applies `n`: a function edge leads from `m` to `n` or to a
/// node that stands for `n`. Indirections take up no step of a spine.
pub open spec fn applies(inc: Map<usize, Seq<Link>>, n: usize, m: usize) -> bool {
    exists|x: usize| #[trigger]
        stands_for(inc, n, x) && inc.dom().contains(x) && inc[x].contains((m, CombEdge::Fun))
}

/// One step up the spines: the nodes that apply a node of `fresh`.
pub open spec fn step_up(inc: Map<usize, Seq<Link>>, fresh: Set<usize>) -> Set<usize> {
    Set::new(|m: usize| exists|n: usize| fresh.contains(n) && #[trigger] applies(inc, n, m))
}

/// `steps` steps up the spines from `frontier`, never going up twice from
/// the same node: the nodes reached, and the nodes gone up from, `visited`
/// included.
pub open spec fn climb(
    inc: Map<usize, Seq<Link>>,
    frontier: Set<usize>,
    visited: Set<usize>,
    steps: nat,
) -> (Set<usize>, Set<usize>)
    decreases steps,
{
    if steps == 0 {
        (frontier, visited)
    } else {
        climb(
            inc,
            step_up(inc, frontier.difference(visited)),
            visited.union(frontier),
            (steps - 1) as nat,
        )
    }
}

/// The combinator that the node is, if it is one.
pub open spec fn combinator_of(node: CombNode<Index>) -> Option<Combinator> {
    match node.expr@ {
        Term::Prim(Prim::Combinator(c)) => Some(c),
        _ => None,
    }
}

/// The redexes of the first `upto` of `sinks`, taken in turn: from each that
/// is a combinator, as many steps up the spines as the combinator takes
/// arguments; the nodes reached are redexes of that combinator, those of a
/// later sink before those of an earlier. Also the nodes gone up from.
pub open spec fn detect(
    nodes: Map<usize, CombNode<Index>>,
    inc: Map<usize, Seq<Link>>,
    sinks: Seq<usize>,
    upto: nat,
) -> (Map<usize, Combinator>, Set<usize>)
    decreases upto,
{
    if upto == 0 {
        (Map::empty(), Set::empty())
    } else {
        let (found, visited) = detect(nodes, inc, sinks, (upto - 1) as nat);
        let leaf = sinks[upto - 1];
        match combinator_of(nodes[leaf]) {
            Some(c) => {
                let (top, seen) = climb(inc, set![leaf], visited, c.spec_arity());
                (found.union_prefer_right(Map::new(|m: usize| top.contains(m), |m: usize| c)), seen)
            },
            None => (found, visited),
        }
    }
}

/// The node `node` with the redex mark `found`, if there is one.
pub open spec fn with_redex(node: CombNode<Index>, found: Option<Combinator>) -> CombNode<Index> {
    match found {
        Some(c) => CombNode {
            expr: node.expr,
            reachable: node.reachable,
            redex: Some(c),
            meta: node.meta,
        },
        None => node,
    }
}

/// The redex mark that `found` holds for `n`, if it holds one.
pub open spec fn lookup(found: Map<usize, Combinator>, n: usize) -> Option<Combinator> {
    if found.dom().contains(n) {
        Some(found[n])
    } else {
        None
    }
}

/// The set of positions whose bit is set.
spec fn members(bits: Seq<bool>) -> Set<usize> {
    Set::new(|n: usize| n < bits.len() && bits[n as int])
}

/// The number of clear bits.
spec fn clear_bits(seen: Seq<bool>) -> nat
    decreases seen.len(),
{
    if seen.len() == 0 {
        0
    } else {
        clear_bits(seen.drop_last()) + if seen.last() {
            0nat
        } else {
            1nat
        }
    }
}

proof fn lemma_clear_bits_set(seen: Seq<bool>, i: int)
    requires
        0 <= i < seen.len(),
        !seen[i],
    ensures
        clear_bits(seen.update(i, true)) + 1 == clear_bits(seen),
    decreases seen.len(),
{
    let next = seen.update(i, true);
    if i == seen.len() - 1 {
        assert(next.drop_last() =~= seen.drop_last());
    } else {
        assert(next.drop_last() =~= seen.drop_last().update(i, true));
        lemma_clear_bits_set(seen.drop_last(), i);
    }
}

/// Every node stands for itself.
proof fn lemma_stands_for_self(inc: Map<usize, Seq<Link>>, n: usize)
    ensures
        stands_for(inc, n, n),
{
    let chain = seq![n];
    assert(is_chain(inc, chain));
    assert(chain[0] == n && chain.last() == n);
}

/// A reference to what stands for `n` stands for `n`.
proof fn lemma_stands_for_step(inc: Map<usize, Seq<Link>>, n: usize, x: usize, y: usize)
    requires
        stands_for(inc, n, x),
        crosses(inc, x, y),
    ensures
        stands_for(inc, n, y),
{
    let chain = choose|chain: Seq<usize>|
        chain.len() > 0 && #[trigger] is_chain(inc, chain) && chain[0] == n && chain.last() == x;
    let longer = chain.push(y);
    assert forall|i: int| 0 <= i < longer.len() - 1 implies crosses(
        inc,
        #[trigger] longer[i],
        longer[i + 1],
    ) by {
        if i < chain.len() - 1 {
            assert(longer[i] == chain[i]);
            assert(longer[i + 1] == chain[i + 1]);
        }
    }
    assert(is_chain(inc, longer));
    assert(longer[0] == n && longer.last() == y);
}

/// A set of nodes that holds `n` and every reference to a node it holds,
/// holds everything that stands for `n`.
proof fn lemma_closed_holds_chain(
    inc: Map<usize, Seq<Link>>,
    chain: Seq<usize>,
    closed: Set<usize>,
    i: int,
)
    requires
        chain.len() > 0,
        is_chain(inc, chain),
        closed.contains(chain[0]),
        forall|a: usize, b: usize|
            closed.contains(a) && #[trigger] crosses(inc, a, b) ==> closed.contains(b),
        0 <= i < chain.len(),
    ensures
        closed.contains(chain[i]),
    decreases i,
{
    if i > 0 {
        lemma_closed_holds_chain(inc, chain, closed, i - 1);
        assert(crosses(inc, chain[i - 1], chain[i - 1 + 1]));
    }
}

/// Whether the link `l` has been dealt with: a function edge by putting its
/// source among `more`, an indirection by crossing it.
spec fn handled(l: Link, more: Seq<usize>, crossed: Set<usize>) -> bool {
    match l.1 {
        CombEdge::Fun => more.contains(l.0),
        CombEdge::Ind => crossed.contains(l.0),
        _ => true,
    }
}

/// Whether the link `l` is an incoming edge of a node crossed.
spec fn awaits(inc: Map<usize, Seq<Link>>, crossed: Set<usize>, l: Link) -> bool {
    exists|x: usize| crossed.contains(x) && #[trigger] inc[x].contains(l)
}

/// The state of the search for the nodes that apply `n`: the nodes crossed
/// stand for `n`; what is pending are incoming edges of theirs; and every
/// incoming edge of theirs is pending or dealt with.
spec fn searching(
    inc: Map<usize, Seq<Link>>,
    dom: Set<usize>,
    n: usize,
    before: Seq<usize>,
    more: Seq<usize>,
    pending: Seq<Link>,
    crossed: Seq<bool>,
) -> bool {
    &&& linked(inc, dom)
    &&& forall|x: usize| #[trigger] dom.contains(x) ==> x < crossed.len()
    &&& members(crossed).contains(n)
    &&& forall|x: usize| #[trigger]
        members(crossed).contains(x) ==> dom.contains(x) && stands_for(inc, n, x)
    &&& forall|i: int|
        0 <= i < pending.len() ==> awaits(inc, members(crossed), #[trigger] pending[i])
    &&& forall|x: usize, i: int|
        members(crossed).contains(x) && 0 <= i < inc[x].len() ==> pending.contains(
            #[trigger] inc[x][i],
        ) || handled(inc[x][i], more, members(crossed))
    &&& forall|m: usize|
        #![trigger more.contains(m)]
        more.contains(m) ==> before.contains(m) || applies(inc, n, m)
    &&& forall|m: usize|
        #![trigger more.contains(m)]
        more.contains(m) ==> dom.contains(m)
    &&& forall|m: usize| #![trigger before.contains(m)] before.contains(m) ==> more.contains(m)
}

/// Puts the nodes that apply `n` at the end of `more`: the sources of the
/// function edges to `n` and to whatever stands for `n`.
fn push_appliers(g: &Store, n: usize, more: &mut Vec<usize>)
    requires
        linked(graph_in(*g), graph_nodes(*g).dom()),
        graph_nodes(*g).dom().contains(n),
        forall|m: usize| old(more)@.contains(m) ==> graph_nodes(*g).dom().contains(m),
    ensures
        forall|m: usize|
            #![trigger final(more)@.contains(m)]
            final(more)@.contains(m) <==> old(more)@.contains(m) || applies(graph_in(*g), n, m),
        forall|m: usize| final(more)@.contains(m) ==> graph_nodes(*g).dom().contains(m),
{
    let ghost inc = graph_in(*g);
    let ghost dom = graph_nodes(*g).dom();
    let mut crossed = store_visit_map(g);
    visit(&mut crossed, n);
    let mut pending = store_incoming(g, n);
    proof {
        lemma_stands_for_self(inc, n);
        assert forall|i: int| 0 <= i < pending@.len() implies awaits(
                        inc,
                        members(bits(crossed)),
                        #[trigger] pending@[i],
                    ) by {
            assert(inc[n].contains(pending@[i]));
        }
        assert(searching(inc, dom, n, old(more)@, more@, pending@, bits(crossed)));
    }
    while pending.len() > 0
        invariant
            inc == graph_in(*g),
            dom == graph_nodes(*g).dom(),
            searching(inc, dom, n, old(more)@, more@, pending@, bits(crossed)),
        decreases clear_bits(bits(crossed)), pending@.len(),
    {
        let ghost was_pending = pending@;
        let ghost was_more = more@;
        let ghost was_crossed = bits(crossed);
        let link = pending.pop().unwrap();
        let source = link.0;
        proof {
            assert(awaits(inc, members(was_crossed), was_pending[was_pending.len() - 1]));
            let x = choose|x: usize|
                members(was_crossed).contains(x) && #[trigger] inc[x].contains(link);
            let i = choose|i: int| 0 <= i < inc[x].len() && inc[x][i] == link;
            assert(dom.contains(inc[x][i].0));
            assert(stands_for(inc, n, x));
            if link.1 == CombEdge::Ind {
                assert(crosses(inc, x, source));
                lemma_stands_for_step(inc, n, x, source);
            }
            if link.1 == CombEdge::Fun {
                assert(applies(inc, n, source));
            }
            assert forall|l: Link| was_pending.contains(l) implies pending@.contains(l) || l
                == link by {
                let j = choose|j: int| 0 <= j < was_pending.len() && was_pending[j] == l;
                if j < pending@.len() {
                    assert(pending@[j] == l);
                }
            }
        }
        match link.1 {
            CombEdge::Fun => {
                more.push(source);
                proof {
                    assert(more@[more@.len() - 1] == source);
                    assert forall|m: usize| was_more.contains(m) implies more@.contains(m) by {
                        let j = choose|j: int| 0 <= j < was_more.len() && was_more[j] == m;
                        assert(more@[j] == m);
                    }
                    assert forall|m: usize| more@.contains(m) implies was_more.contains(m) || m
                        == source by {
                        let j = choose|j: int| 0 <= j < more@.len() && more@[j] == m;
                        if j < was_more.len() {
                            assert(was_more[j] == m);
                        }
                    }
                    assert forall|i: int| 0 <= i < pending@.len() implies awaits(
                        inc,
                        members(bits(crossed)),
                        #[trigger] pending@[i],
                    ) by {
                        assert(pending@[i] == was_pending[i]);
                        assert(awaits(inc, members(was_crossed), was_pending[i]));
                    }
                    assert forall|x: usize, i: int|
                        members(bits(crossed)).contains(x) && 0 <= i < inc[x].len() implies pending@.contains(
                        #[trigger] inc[x][i],
                    ) || handled(inc[x][i], more@, members(bits(crossed))) by {
                        let l = inc[x][i];
                        if l != link && !was_pending.contains(l) {
                            assert(handled(l, was_more, members(was_crossed)));
                        }
                    }
                    assert forall|m: usize| #![trigger more@.contains(m)] more@.contains(m) implies old(
                        more,
                    )@.contains(m) || applies(inc, n, m) by {
                        if m != source {
                            assert(was_more.contains(m));
                        }
                    }
                    assert(searching(inc, dom, n, old(more)@, more@, pending@, bits(crossed)));
                }
            },
            CombEdge::Ind => {
                if visit(&mut crossed, source) {
                    let mut links = store_incoming(g, source);
                    let ghost added = links@;
                    let ghost popped = pending@;
                    pending.append(&mut links);
                    proof {
                        lemma_clear_bits_set(was_crossed, source as int);
                        assert forall|x: usize| members(was_crossed).contains(x) implies members(
                            bits(crossed),
                        ).contains(x) by {}
                        assert forall|x: usize| #[trigger]
                            members(bits(crossed)).contains(x) implies dom.contains(x)
                            && stands_for(inc, n, x) by {
                            if x != source {
                                assert(members(was_crossed).contains(x));
                            }
                        }
                        assert forall|l: Link| popped.contains(l) implies pending@.contains(l) by {
                            let j = choose|j: int| 0 <= j < popped.len() && popped[j] == l;
                            assert(pending@[j] == l);
                        }
                        assert forall|l: Link| added.contains(l) implies pending@.contains(l) by {
                            let j = choose|j: int| 0 <= j < added.len() && added[j] == l;
                            assert(pending@[popped.len() + j] == l);
                        }
                        assert forall|i: int| 0 <= i < pending@.len() implies awaits(
                        inc,
                        members(bits(crossed)),
                        #[trigger] pending@[i],
                    ) by {
                            if i < popped.len() {
                                assert(pending@[i] == was_pending[i]);
                                assert(awaits(inc, members(was_crossed), was_pending[i]));
                                let x = choose|x: usize|
                                    members(was_crossed).contains(x) && #[trigger] inc[x].contains(
                                        was_pending[i],
                                    );
                                assert(members(bits(crossed)).contains(x));
                            } else {
                                assert(pending@[i] == added[i - popped.len()]);
                                assert(inc[source].contains(pending@[i]));
                            }
                        }
                        assert forall|x: usize, i: int|
                            members(bits(crossed)).contains(x) && 0 <= i < inc[x].len() implies pending@.contains(
                            #[trigger] inc[x][i],
                        ) || handled(inc[x][i], more@, members(bits(crossed))) by {
                            let l = inc[x][i];
                            if x == source {
                                assert(added[i] == l);
                                assert(added.contains(l));
                            } else {
                                assert(members(was_crossed).contains(x));
                                if l == link {
                                    assert(members(bits(crossed)).contains(source));
                                } else if was_pending.contains(l) {
                                    assert(popped.contains(l));
                                } else {
                                    assert(handled(l, was_more, members(was_crossed)));
                                }
                            }
                        }
                        assert(searching(inc, dom, n, old(more)@, more@, pending@, bits(crossed)));
                    }
                } else {
                    proof {
                        assert(bits(crossed) =~= was_crossed);
                        assert forall|i: int| 0 <= i < pending@.len() implies awaits(
                        inc,
                        members(bits(crossed)),
                        #[trigger] pending@[i],
                    ) by {
                            assert(pending@[i] == was_pending[i]);
                            assert(awaits(inc, members(was_crossed), was_pending[i]));
                        }
                        assert(searching(inc, dom, n, old(more)@, more@, pending@, bits(crossed)));
                    }
                }
            },
            _ => {
                proof {
                    assert forall|i: int| 0 <= i < pending@.len() implies awaits(
                        inc,
                        members(bits(crossed)),
                        #[trigger] pending@[i],
                    ) by {
                        assert(pending@[i] == was_pending[i]);
                        assert(awaits(inc, members(was_crossed), was_pending[i]));
                    }
                    assert(searching(inc, dom, n, old(more)@, more@, pending@, bits(crossed)));
                }
            },
        }
    }
    proof {
        let closed = members(bits(crossed));
        assert forall|a: usize, b: usize|
            closed.contains(a) && #[trigger] crosses(inc, a, b) implies closed.contains(b) by {
            let i = choose|i: int| 0 <= i < inc[a].len() && inc[a][i] == (b, CombEdge::Ind);
            assert(pending@.contains(inc[a][i]) || handled(inc[a][i], more@, closed));
        }
        assert forall|m: usize| applies(inc, n, m) implies more@.contains(m) by {
            let x = choose|x: usize| #[trigger]
                stands_for(inc, n, x) && inc.dom().contains(x) && inc[x].contains(
                    (m, CombEdge::Fun),
                );
            let chain = choose|chain: Seq<usize>|
                chain.len() > 0 && #[trigger] is_chain(inc, chain) && chain[0] == n && chain.last()
                    == x;
            lemma_closed_holds_chain(inc, chain, closed, chain.len() - 1);
            let i = choose|i: int| 0 <= i < inc[x].len() && inc[x][i] == (m, CombEdge::Fun);
            assert(pending@.contains(inc[x][i]) || handled(inc[x][i], more@, closed));
        }
    }
}

/// Whether the nodes `nodes` are the nodes `before` with the redex marks `found`.
spec fn carries(
    before: Map<usize, CombNode<Index>>,
    nodes: Map<usize, CombNode<Index>>,
    found: Map<usize, Combinator>,
) -> bool {
    &&& nodes.dom() == before.dom()
    &&& forall|n: usize| #[trigger]
        nodes.dom().contains(n) ==> nodes[n] == with_redex(before[n], lookup(found, n))
}

/// The elements of a sequence up to and with position `k`: those before it,
/// and the one there.
proof fn lemma_prefix_set(s: Seq<usize>, k: int)
    requires
        0 <= k < s.len(),
    ensures
        s.subrange(0, k + 1).to_set() =~= s.subrange(0, k).to_set().insert(s[k]),
{
    let shorter = s.subrange(0, k);
    let longer = s.subrange(0, k + 1);
    assert forall|a: usize| longer.to_set().contains(a) <==> shorter.to_set().insert(
        s[k],
    ).contains(a) by {
        if longer.contains(a) {
            let j = choose|j: int| 0 <= j < longer.len() && longer[j] == a;
            if j < k {
                assert(shorter[j] == a);
            }
        }
        if shorter.contains(a) {
            let j = choose|j: int| 0 <= j < shorter.len() && shorter[j] == a;
            assert(longer[j] == a);
        }
        if a == s[k] {
            assert(longer[k] == a);
        }
    }
}

impl CombGraph<Index> {
    /// Whether this graph is `before` after redex detection: the same root,
    /// nodes and edges, with each node that the detection reaches marked with
    /// the combinator found, and the others as they were. The sinks are gone
    /// through by rising identifier.
    pub open spec fn redexes(&self, before: CombGraph<Index>) -> bool {
        &&& self.root == before.root
        &&& self.out() == before.out()
        &&& self.inc() == before.inc()
        &&& self.nodes().dom() == before.nodes().dom()
        &&& exists|sinks: Seq<usize>|
            {
                &&& #[trigger] rising(sinks)
                &&& forall|n: usize| sinks.contains(n) <==> is_sink(before.out(), n)
                &&& forall|n: usize| #[trigger]
                    self.nodes().dom().contains(n) ==> self.nodes()[n] == with_redex(
                        before.nodes()[n],
                        lookup(detect(before.nodes(), before.inc(), sinks, sinks.len()).0, n),
                    )
            }
    }

    /// Marks the redexes: for each node without outgoing edges that is a
    /// combinator, the nodes that stand as many applications above it as the
    /// combinator takes arguments. The spine is climbed along function edges;
    /// indirections are crossed without counting.
    pub fn mark_redexes(&mut self)
        requires
            old(self).wf(),
        ensures
            final(self).wf(),
            final(self).redexes(*old(self)),
    {
        let ghost before = graph_nodes(self.g);
        let ghost inc = graph_in(self.g);
        let ghost out = graph_out(self.g);
        let ghost dom = before.dom();
        let sinks = store_sinks(&self.g);
        let mut visited = store_visit_map(&self.g);
        let mut i: usize = 0;
        assert(members(bits(visited)) =~= Set::empty());
        while i < sinks.len()
            invariant
                i <= sinks.len(),
                self.root == old(self).root,
                graph_out(self.g) == out,
                graph_in(self.g) == inc,
                dom == before.dom(),
                old(self).wf(),
                before == old(self).nodes(),
                out == old(self).out(),
                inc == old(self).inc(),
                forall|n: usize| sinks@.contains(n) <==> is_sink(out, n),
                forall|x: usize| #[trigger] dom.contains(x) ==> x < bits(visited).len(),
                linked(out, dom),
                linked(inc, dom),
                carries(before, graph_nodes(self.g), detect(before, inc, sinks@, i as nat).0),
                members(bits(visited)) == detect(before, inc, sinks@, i as nat).1,
            decreases sinks.len() - i,
        {
            let leaf = sinks[i];
            assert(sinks@.contains(leaf));
            assert(is_sink(out, leaf));
            assert(dom.contains(leaf));
            assert(graph_nodes(self.g).dom().contains(leaf));
            let ghost found = detect(before, inc, sinks@, i as nat).0;
            let ghost seen = detect(before, inc, sinks@, i as nat).1;
            let comb = match &store_node(&self.g, leaf).expr {
                Expr::Prim(Prim::Combinator(c)) => Some(*c),
                _ => None,
            };
            assert(comb == combinator_of(before[leaf]));
            if let Some(c) = comb {
                let arity = c.arity();
                let mut more: Vec<usize> = Vec::new();
                more.push(leaf);
                assert(more@.to_set() =~= set![leaf]) by {
                    assert(more@[0] == leaf);
                }
                let mut step: usize = 0;
                while step < arity
                    invariant
                        step <= arity,
                        graph_in(self.g) == inc,
                        graph_nodes(self.g).dom() == dom,
                        linked(inc, dom),
                        forall|x: usize| #[trigger] dom.contains(x) ==> x < bits(visited).len(),
                        forall|m: usize| more@.contains(m) ==> dom.contains(m),
                        climb(inc, set![leaf], seen, arity as nat) == climb(
                            inc,
                            more@.to_set(),
                            members(bits(visited)),
                            (arity - step) as nat,
                        ),
                    decreases arity - step,
                {
                    let nodes = more;
                    more = Vec::new();
                    let ghost was = members(bits(visited));
                    let mut k: usize = 0;
                    assert(nodes@.subrange(0, 0).to_set() =~= Set::<usize>::empty());
                    assert(more@.to_set() =~= step_up(inc, Set::<usize>::empty().difference(was)));
                    while k < nodes.len()
                        invariant
                            k <= nodes.len(),
                            graph_in(self.g) == inc,
                            graph_nodes(self.g).dom() == dom,
                            linked(inc, dom),
                            forall|x: usize| #[trigger] dom.contains(x) ==> x < bits(visited).len(),
                            forall|m: usize| nodes@.contains(m) ==> dom.contains(m),
                            forall|m: usize| more@.contains(m) ==> dom.contains(m),
                            members(bits(visited)) == was.union(
                                nodes@.subrange(0, k as int).to_set(),
                            ),
                            more@.to_set() == step_up(
                                inc,
                                nodes@.subrange(0, k as int).to_set().difference(was),
                            ),
                        decreases nodes.len() - k,
                    {
                        let n = nodes[k];
                        assert(nodes@.contains(n));
                        assert(dom.contains(n));
                        let ghost prefix = nodes@.subrange(0, k as int).to_set();
                        let ghost was_more = more@;
                        let ghost was_bits = bits(visited);
                        proof {
                            lemma_prefix_set(nodes@, k as int);
                        }
                        if visit(&mut visited, n) {
                            push_appliers(&self.g, n, &mut more);
                            proof {
                                assert(!members(was_bits).contains(n));
                                assert(!was.union(prefix).contains(n));
                                assert(!was.contains(n) && !prefix.contains(n));
                                assert(more@.to_set() =~= step_up(
                                    inc,
                                    prefix.insert(n).difference(was),
                                )) by {
                                    assert forall|m: usize| more@.to_set().contains(m) <==> step_up(
                                        inc,
                                        prefix.insert(n).difference(was),
                                    ).contains(m) by {
                                        if more@.contains(m) {
                                            if was_more.contains(m) {
                                                assert(was_more.to_set().contains(m));
                                                let a = choose|a: usize|
                                                    prefix.difference(was).contains(a)
                                                        && #[trigger] applies(inc, a, m);
                                                assert(prefix.insert(n).difference(was).contains(a));
                                            } else {
                                                assert(applies(inc, n, m));
                                                assert(prefix.insert(n).difference(was).contains(n));
                                            }
                                        }
                                        if step_up(inc, prefix.insert(n).difference(was)).contains(
                                            m,
                                        ) {
                                            let a = choose|a: usize|
                                                prefix.insert(n).difference(was).contains(a)
                                                    && #[trigger] applies(inc, a, m);
                                            if a != n {
                                                assert(prefix.difference(was).contains(a));
                                                assert(step_up(inc, prefix.difference(was)).contains(
                                                    m,
                                                ));
                                                assert(was_more.to_set().contains(m));
                                            }
                                        }
                                    }
                                }
                            }
                        } else {
                            proof {
                                assert(bits(visited) =~= was_bits);
                                assert(members(was_bits).contains(n));
                                assert(was.union(prefix).contains(n));
                                assert(was.contains(n) || prefix.contains(n));
                                assert(prefix.insert(n).difference(was) =~= prefix.difference(was));
                            }
                        }
                        proof {
                            assert forall|x: usize| members(bits(visited)).contains(x) <==> was.union(
                                prefix.insert(n),
                            ).contains(x) by {
                                assert(members(was_bits).contains(x) <==> was.union(prefix).contains(
                                    x,
                                ));
                            }
                            assert(members(bits(visited)) =~= was.union(prefix.insert(n)));
                        }
                        k += 1;
                    }
                    proof {
                        assert(nodes@.subrange(0, nodes@.len() as int) =~= nodes@);
                    }
                    step += 1;
                }
                let ghost top = more@.to_set();
                let ghost next = found.union_prefer_right(
                    Map::new(|m: usize| top.contains(m), |m: usize| c),
                );
                let mut k: usize = 0;
                while k < more.len()
                    invariant
                        k <= more.len(),
                        self.root == old(self).root,
                        graph_out(self.g) == out,
                        graph_in(self.g) == inc,
                        dom == before.dom(),
                        graph_nodes(self.g).dom() == dom,
                        forall|m: usize| more@.contains(m) ==> dom.contains(m),
                        forall|n: usize| #[trigger]
                            dom.contains(n) ==> graph_nodes(self.g)[n] == with_redex(
                                before[n],
                                if more@.subrange(0, k as int).contains(n) {
                                    Some(c)
                                } else {
                                    lookup(found, n)
                                },
                            ),
                    decreases more.len() - k,
                {
                    let n = more[k];
                    assert(more@.contains(n));
                    let ghost nodes = graph_nodes(self.g);
                    let node = store_node_mut(&mut self.g, n);
                    node.redex = Some(c);
                    proof {
                        let new_nodes = graph_nodes(self.g);
                        assert(new_nodes.dom() =~= dom);
                        let shorter = more@.subrange(0, k as int);
                        let longer = more@.subrange(0, k + 1);
                        assert(longer[k as int] == n);
                        assert forall|x: usize| #[trigger] dom.contains(x) implies new_nodes[x]
                            == with_redex(
                            before[x],
                            if longer.contains(x) {
                                Some(c)
                            } else {
                                lookup(found, x)
                            },
                        ) by {
                            if x != n {
                                if longer.contains(x) {
                                    let j = choose|j: int| 0 <= j < longer.len() && longer[j] == x;
                                    assert(shorter[j] == x);
                                }
                                if shorter.contains(x) {
                                    let j = choose|j: int| 0 <= j < shorter.len() && shorter[j] == x;
                                    assert(longer[j] == x);
                                }
                            }
                        }
                    }
                    k += 1;
                }
                proof {
                    assert(more@.subrange(0, more@.len() as int) =~= more@);
                    assert(detect(before, inc, sinks@, (i + 1) as nat).0 == next);
                    assert(carries(before, graph_nodes(self.g), next));
                }
            }
            i += 1;
        }
        proof {
            let nodes = graph_nodes(self.g);
            assert(rising(sinks@));
            assert forall|n: usize| #[trigger] nodes.dom().contains(n) implies
                crate::graph::shaped(nodes[n].expr@, out[n]) by {
                assert(old(self).nodes().dom().contains(n));
            }
        }
    }
}

/// Two rising sequences with the same elements are the same sequence.
proof fn lemma_rising_unique(s: Seq<usize>, t: Seq<usize>)
    requires
        rising(s),
        rising(t),
        forall|n: usize| s.contains(n) <==> t.contains(n),
    ensures
        s == t,
    decreases s.len(),
{
    if s.len() == 0 {
        if t.len() > 0 {
            assert(t.contains(t[0]));
        }
        assert(s =~= t);
    } else {
        let top = s.last();
        assert(s.contains(top));
        let j = choose|j: int| 0 <= j < t.len() && t[j] == top;
        if j < t.len() - 1 {
            assert(t.contains(t.last()));
            let i = choose|i: int| 0 <= i < s.len() && s[i] == t.last();
        }
        let shorter_s = s.drop_last();
        let shorter_t = t.drop_last();
        assert forall|n: usize| shorter_s.contains(n) <==> shorter_t.contains(n) by {
            if shorter_s.contains(n) {
                let i = choose|i: int| 0 <= i < shorter_s.len() && shorter_s[i] == n;
                assert(s[i] == n);
                assert(s.contains(n));
                let k = choose|k: int| 0 <= k < t.len() && t[k] == n;
                assert(shorter_t[k] == n);
            }
            if shorter_t.contains(n) {
                let k = choose|k: int| 0 <= k < shorter_t.len() && shorter_t[k] == n;
                assert(t[k] == n);
                assert(t.contains(n));
                let i = choose|i: int| 0 <= i < s.len() && s[i] == n;
                assert(shorter_s[i] == n);
            }
        }
        lemma_rising_unique(shorter_s, shorter_t);
        assert(s =~= shorter_s.push(top));
        assert(t =~= shorter_t.push(top));
    }
}

/// The detection looks at the expressions of the nodes and at the edges, not
/// at the marks: nodes that differ in marks alone give the same redexes.
proof fn lemma_detect_ignores_marks(
    nodes: Map<usize, CombNode<Index>>,
    marked: Map<usize, CombNode<Index>>,
    inc: Map<usize, Seq<Link>>,
    sinks: Seq<usize>,
    upto: nat,
)
    requires
        upto <= sinks.len(),
        forall|i: int|
            0 <= i < sinks.len() ==> combinator_of(nodes[#[trigger] sinks[i]]) == combinator_of(
                marked[sinks[i]],
            ),
    ensures
        detect(marked, inc, sinks, upto) == detect(nodes, inc, sinks, upto),
    decreases upto,
{
    if upto > 0 {
        lemma_detect_ignores_marks(nodes, marked, inc, sinks, (upto - 1) as nat);
        assert(combinator_of(nodes[sinks[upto - 1]]) == combinator_of(marked[sinks[upto - 1]]));
    }
}

/// Detection never takes a redex mark away.
pub proof fn lemma_redexes_stay(start: CombGraph<Index>, after: CombGraph<Index>, n: usize)
    requires
        after.redexes(start),
        start.nodes().dom().contains(n),
        start.nodes()[n].redex is Some,
    ensures
        after.nodes()[n].redex is Some,
        after.nodes()[n].expr == start.nodes()[n].expr,
        after.nodes()[n].reachable == start.nodes()[n].reachable,
        after.nodes()[n].meta == start.nodes()[n].meta,
{
}

/// Detecting twice is detecting once: a second detection changes nothing.
pub proof fn lemma_redexes_idempotent(start: CombGraph<Index>, once: CombGraph<Index>, twice: CombGraph<Index>)
    requires
        start.wf(),
        once.redexes(start),
        twice.redexes(once),
    ensures
        twice.same(once),
{
    let first = choose|sinks: Seq<usize>|
        {
            &&& #[trigger] rising(sinks)
            &&& forall|n: usize| sinks.contains(n) <==> is_sink(start.out(), n)
            &&& forall|n: usize| #[trigger]
                once.nodes().dom().contains(n) ==> once.nodes()[n] == with_redex(
                    start.nodes()[n],
                    lookup(detect(start.nodes(), start.inc(), sinks, sinks.len()).0, n),
                )
        };
    let second = choose|sinks: Seq<usize>|
        {
            &&& #[trigger] rising(sinks)
            &&& forall|n: usize| sinks.contains(n) <==> is_sink(once.out(), n)
            &&& forall|n: usize| #[trigger]
                twice.nodes().dom().contains(n) ==> twice.nodes()[n] == with_redex(
                    once.nodes()[n],
                    lookup(detect(once.nodes(), once.inc(), sinks, sinks.len()).0, n),
                )
        };
    lemma_rising_unique(first, second);
    assert forall|i: int| 0 <= i < first.len() implies combinator_of(
        start.nodes()[#[trigger] first[i]],
    ) == combinator_of(once.nodes()[first[i]]) by {
        assert(first.contains(first[i]));
        assert(is_sink(start.out(), first[i]));
        assert(once.nodes().dom().contains(first[i]));
    }
    lemma_detect_ignores_marks(start.nodes(), once.nodes(), start.inc(), first, first.len());
    assert(twice.nodes() =~= once.nodes());
}

/// Whether `m` stands `steps` applications above `n`: on a spine that goes
/// up from `n` by function edges, indirections not counted.
pub open spec fn spine(inc: Map<usize, Seq<Link>>, n: usize, m: usize, steps: nat) -> bool
    decreases steps,
{
    if steps == 0 {
        n == m
    } else {
        exists|x: usize| #[trigger] applies(inc, n, x) && spine(inc, x, m, (steps - 1) as nat)
    }
}

/// Whether a leaf that is the combinator `c` has `m` as many applications
/// above it as `c` takes arguments.
pub open spec fn fires_at(
    nodes: Map<usize, CombNode<Index>>,
    out: Map<usize, Seq<Link>>,
    inc: Map<usize, Seq<Link>>,
    leaf: usize,
    c: Combinator,
    m: usize,
) -> bool {
    &&& is_sink(out, leaf)
    &&& combinator_of(nodes[leaf]) == Some(c)
    &&& spine(inc, leaf, m, c.spec_arity())
}

/// What a climb of `steps` steps reaches stands `steps` applications above a
/// node of the frontier it started from.
proof fn lemma_climb_spine(
    inc: Map<usize, Seq<Link>>,
    frontier: Set<usize>,
    visited: Set<usize>,
    steps: nat,
    m: usize,
)
    requires
        climb(inc, frontier, visited, steps).0.contains(m),
    ensures
        exists|n: usize| frontier.contains(n) && #[trigger] spine(inc, n, m, steps),
    decreases steps,
{
    if steps == 0 {
        assert(spine(inc, m, m, 0));
    } else {
        let fresh = frontier.difference(visited);
        lemma_climb_spine(inc, step_up(inc, fresh), visited.union(frontier), (steps - 1) as nat, m);
        let x = choose|x: usize|
            step_up(inc, fresh).contains(x) && #[trigger] spine(inc, x, m, (steps - 1) as nat);
        let n = choose|n: usize| fresh.contains(n) && #[trigger] applies(inc, n, x);
        assert(spine(inc, n, m, steps));
    }
}

/// Every redex that the detection finds is one: its combinator is a sink,
/// and the redex stands as many applications above it as it takes arguments.
proof fn lemma_detect_spine(
    nodes: Map<usize, CombNode<Index>>,
    out: Map<usize, Seq<Link>>,
    inc: Map<usize, Seq<Link>>,
    sinks: Seq<usize>,
    upto: nat,
    m: usize,
)
    requires
        upto <= sinks.len(),
        forall|i: int| 0 <= i < sinks.len() ==> is_sink(out, #[trigger] sinks[i]),
        detect(nodes, inc, sinks, upto).0.dom().contains(m),
    ensures
        exists|leaf: usize| #[trigger]
            fires_at(nodes, out, inc, leaf, detect(nodes, inc, sinks, upto).0[m], m),
    decreases upto,
{
    if upto > 0 {
        let (found, visited) = detect(nodes, inc, sinks, (upto - 1) as nat);
        let now = detect(nodes, inc, sinks, upto).0;
        let leaf = sinks[upto - 1];
        match combinator_of(nodes[leaf]) {
            Some(c) => {
                let (top, seen) = climb(inc, set![leaf], visited, c.spec_arity());
                if top.contains(m) {
                    lemma_climb_spine(inc, set![leaf], visited, c.spec_arity(), m);
                    let n = choose|n: usize|
                        set![leaf].contains(n) && #[trigger] spine(inc, n, m, c.spec_arity());
                    assert(n == leaf);
                    assert(now[m] == c);
                    assert(fires_at(nodes, out, inc, leaf, c, m));
                } else {
                    assert(found.dom().contains(m));
                    assert(now[m] == found[m]);
                    lemma_detect_spine(nodes, out, inc, sinks, (upto - 1) as nat, m);
                    let earlier = choose|earlier: usize| #[trigger]
                        fires_at(nodes, out, inc, earlier, found[m], m);
                    assert(fires_at(nodes, out, inc, earlier, now[m], m));
                }
            },
            None => {
                lemma_detect_spine(nodes, out, inc, sinks, (upto - 1) as nat, m);
                let earlier = choose|earlier: usize| #[trigger]
                    fires_at(nodes, out, inc, earlier, found[m], m);
                assert(fires_at(nodes, out, inc, earlier, now[m], m));
            },
        }
    }
}

/// What stands at least one application above a node applies something.
proof fn lemma_spine_end(inc: Map<usize, Seq<Link>>, n: usize, m: usize, steps: nat)
    requires
        steps > 0,
        spine(inc, n, m, steps),
    ensures
        exists|y: usize| #[trigger] applies(inc, y, m),
    decreases steps,
{
    let x = choose|x: usize| #[trigger] applies(inc, n, x) && spine(inc, x, m, (steps - 1) as nat);
    if steps > 1 {
        lemma_spine_end(inc, x, m, (steps - 1) as nat);
    }
}

/// A redex mark that the detection sets stands at an application, as many
/// applications above a leaf that is the combinator as the combinator takes
/// arguments.
pub proof fn lemma_redex_above_leaf(start: CombGraph<Index>, after: CombGraph<Index>, n: usize)
    requires
        start.wf(),
        after.redexes(start),
        start.nodes().dom().contains(n),
        after.nodes()[n].redex != start.nodes()[n].redex,
    ensures
        after.nodes()[n].redex is Some,
        start.nodes()[n].expr@ is App,
        exists|leaf: usize| #[trigger]
            fires_at(
                start.nodes(),
                start.out(),
                start.inc(),
                leaf,
                after.nodes()[n].redex.unwrap(),
                n,
            ),
{
    let nodes = start.nodes();
    let out = start.out();
    let inc = start.inc();
    let sinks = choose|sinks: Seq<usize>|
        {
            &&& #[trigger] rising(sinks)
            &&& forall|n: usize| sinks.contains(n) <==> is_sink(out, n)
            &&& forall|n: usize| #[trigger]
                after.nodes().dom().contains(n) ==> after.nodes()[n] == with_redex(
                    nodes[n],
                    lookup(detect(nodes, inc, sinks, sinks.len()).0, n),
                )
        };
    assert(after.nodes().dom().contains(n));
    let found = detect(nodes, inc, sinks, sinks.len()).0;
    assert(found.dom().contains(n));
    let c = found[n];
    assert forall|i: int| 0 <= i < sinks.len() implies is_sink(out, #[trigger] sinks[i]) by {
        assert(sinks.contains(sinks[i]));
    }
    lemma_detect_spine(nodes, out, inc, sinks, sinks.len(), n);
    let leaf = choose|leaf: usize| #[trigger] fires_at(nodes, out, inc, leaf, c, n);
    lemma_spine_end(inc, leaf, n, c.spec_arity());
    let y = choose|y: usize| #[trigger] applies(inc, y, n);
    let x = choose|x: usize| #[trigger]
        stands_for(inc, y, x) && inc.dom().contains(x) && inc[x].contains((n, CombEdge::Fun));
    assert(out[n].contains((x, CombEdge::Fun)));
    let i = choose|i: int| 0 <= i < out[n].len() && out[n][i] == (x, CombEdge::Fun);
    assert(crate::graph::shaped(nodes[n].expr@, out[n]));
}

} // verus!
