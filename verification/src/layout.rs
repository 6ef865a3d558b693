//! Metadata of the expressions of a program, for laying its graph out: how
//! deep each lies under the root, and in which order a walk from the root
//! comes by the expressions.
//!
//! The walk follows applications and arrays to their children and stops at
//! everything else; an expression that several others point at is walked
//! once for each, and what is noted of it last stays.

use vstd::prelude::*;
use crate::expr::Expr;
use crate::expr::Index;
use crate::expr::Program;
use crate::expr::ProgramView;
use crate::expr::Term;

verus! {

/// One visit of the walk to an expression.
#[derive(Debug, Clone, Copy, PartialEq, Eq, Structural)]
pub struct Visit {
    /// The position of the expression in the body.
    pub index: Index,
    /// The number of steps from the root to the expression, on this visit.
    pub depth: usize,
    /// For an expression at which the walk stops, its horizontal slot: the
    /// number of such visits so far, this one included. For an application or
    /// an array, which lie at the mean of their children, `None`.
    pub slot: Option<usize>,
}

/// Cell metadata, acquired while walking the program.
#[derive(Debug, Clone, Copy, PartialEq, Eq, Structural)]
pub struct NodeMetadata {
    /// Distance to a leaf
    pub height: usize,
    /// Distance to root
    pub depth: usize,
}

/// The walk from the expression at `idx`, which lies `level` steps under
/// the root, after `slot` slots have been given out: the visits in the order
/// in which they end, children before parents, and the number of slots given
/// out by then. `None` where an index lies outside the body, where the walk
/// goes deeper than the body is long, as on a circle it would, or where the
/// slots run out.
pub open spec fn walk(body: Seq<Term>, idx: Index, level: nat, slot: nat) -> Option<
    (Seq<Visit>, nat),
>
    decreases body.len() - level, 0nat,
{
    if level >= body.len() || idx >= body.len() || level > usize::MAX {
        None
    } else {
        let here = level as usize;
        match body[idx as int] {
            Term::App(f, _, a) => match walk(body, f, level + 1, slot) {
                Some((left, s)) => match walk(body, a, level + 1, s) {
                    Some((right, s)) => Some(
                        ((left + right).push(Visit { index: idx, depth: here, slot: None }), s),
                    ),
                    None => None,
                },
                None => None,
            },
            Term::Array(_, v) => match walk_items(body, v, level + 1, slot) {
                Some((under, s)) => Some(
                    (under.push(Visit { index: idx, depth: here, slot: None }), s),
                ),
                None => None,
            },
            _ => if slot >= usize::MAX {
                None
            } else {
                Some(
                    (
                        seq![Visit { index: idx, depth: here, slot: Some((slot + 1) as usize) }],
                        slot + 1,
                    ),
                )
            },
        }
    }
}

/// The walks from the elements of an array, one after the other.
pub open spec fn walk_items(body: Seq<Term>, items: Seq<Index>, level: nat, slot: nat) -> Option<
    (Seq<Visit>, nat),
>
    decreases body.len() - level, 1 + items.len(),
{
    if items.len() == 0 {
        Some((Seq::empty(), slot))
    } else {
        match walk_items(body, items.drop_last(), level, slot) {
            Some((before, s)) => match walk(body, items.last(), level, s) {
                Some((last, s)) => Some((before + last, s)),
                None => None,
            },
            None => None,
        }
    }
}

/// The depth that the visits leave noted for the expression at `idx`: that of
/// its last visit, or 0 where they never come by it.
pub open spec fn last_depth(visits: Seq<Visit>, idx: Index) -> usize
    decreases visits.len(),
{
    if visits.len() == 0 {
        0
    } else if visits.last().index == idx {
        visits.last().depth
    } else {
        last_depth(visits.drop_last(), idx)
    }
}

impl ProgramView {
    /// The walk from the root.
    pub open spec fn visits(self) -> Option<Seq<Visit>> {
        match walk(self.body, self.root, 0, 0) {
            Some((visits, _)) => Some(visits),
            None => None,
        }
    }
}

/// Where the walk from a prefix of the items fails, that from the items fails.
proof fn lemma_walk_items_prefix(body: Seq<Term>, items: Seq<Index>, n: int, level: nat, slot: nat)
    requires
        0 <= n <= items.len(),
        walk_items(body, items.subrange(0, n), level, slot).is_none(),
    ensures
        walk_items(body, items, level, slot).is_none(),
    decreases items.len(),
{
    if n < items.len() {
        assert(items.drop_last().subrange(0, n) =~= items.subrange(0, n));
        lemma_walk_items_prefix(body, items.drop_last(), n, level, slot);
    } else {
        assert(items.subrange(0, n) =~= items);
    }
}

impl Program {
    /// Walks from the expression at `i`, which lies `depth` steps under the
    /// root: appends the visits to `visits` and counts the slots in `slot`.
    /// Returns whether the walk succeeds; where it does not, what it left in
    /// `visits` and `slot` is of no use.
    pub fn build_meta(&self, visits: &mut Vec<Visit>, slot: &mut usize, i: Index, depth: usize) -> (ok:
        bool)
        ensures
            ok == walk(self@.body, i, depth as nat, *old(slot) as nat).is_some(),
            ok ==> {
                let (walked, slots) = walk(self@.body, i, depth as nat, *old(slot) as nat).unwrap();
                final(visits)@ == old(visits)@ + walked && *final(slot) == slots
            },
        decreases self.body.len() - depth, 0nat,
    {
        if depth >= self.body.len() || i >= self.body.len() {
            return false;
        }
        let ghost body = self@.body;
        assert(body[i as int] == self.body@[i as int]@);
        match &self.body[i] {
            Expr::App(f, _, a) => {
                if !self.build_meta(visits, slot, *f, depth + 1) {
                    return false;
                }
                if !self.build_meta(visits, slot, *a, depth + 1) {
                    return false;
                }
                visits.push(Visit { index: i, depth, slot: None });
                assert(visits@ =~= old(visits)@ + walk(
                    body,
                    i,
                    depth as nat,
                    *old(slot) as nat,
                ).unwrap().0);
                true
            },
            Expr::Array(_, v) => {
                let mut k: usize = 0;
                assert(v@.subrange(0, 0) =~= Seq::<Index>::empty());
                while k < v.len()
                    invariant
                        k <= v.len(),
                        depth < self.body.len(),
                        i < body.len(),
                        body == self@.body,
                        body[i as int] == self.body@[i as int]@,
                        self.body@[i as int]@ matches Term::Array(_, items) && items == v@,
                        walk_items(
                            body,
                            v@.subrange(0, k as int),
                            (depth + 1) as nat,
                            *old(slot) as nat,
                        ).is_some(),
                        ({
                            let (walked, slots) = walk_items(
                                body,
                                v@.subrange(0, k as int),
                                (depth + 1) as nat,
                                *old(slot) as nat,
                            ).unwrap();
                            visits@ == old(visits)@ + walked && *slot == slots
                        }),
                    decreases v.len() - k,
                {
                    let ghost prefix = v@.subrange(0, k as int);
                    let ghost next = v@.subrange(0, k + 1);
                    proof {
                        assert(next.drop_last() =~= prefix);
                        assert(next.last() == v@[k as int]);
                    }
                    if !self.build_meta(visits, slot, v[k], depth + 1) {
                        proof {
                            assert(walk_items(
                                body,
                                next,
                                (depth + 1) as nat,
                                *old(slot) as nat,
                            ).is_none());
                            lemma_walk_items_prefix(
                                body,
                                v@,
                                k + 1,
                                (depth + 1) as nat,
                                *old(slot) as nat,
                            );
                        }
                        return false;
                    }
                    proof {
                        let (walked, slots) = walk_items(
                            body,
                            next,
                            (depth + 1) as nat,
                            *old(slot) as nat,
                        ).unwrap();
                        assert(visits@ =~= old(visits)@ + walked);
                    }
                    k += 1;
                }
                assert(v@.subrange(0, v@.len() as int) =~= v@);
                visits.push(Visit { index: i, depth, slot: None });
                assert(visits@ =~= old(visits)@ + walk(
                    body,
                    i,
                    depth as nat,
                    *old(slot) as nat,
                ).unwrap().0);
                true
            },
            _ => {
                if *slot == usize::MAX {
                    return false;
                }
                *slot = *slot + 1;
                visits.push(Visit { index: i, depth, slot: Some(*slot) });
                assert(visits@ =~= old(visits)@ + walk(
                    body,
                    i,
                    depth as nat,
                    *old(slot) as nat,
                ).unwrap().0);
                true
            },
        }
    }

    /// The visits of the walk from the root, or `None` where the walk fails.
    pub fn walk(&self) -> (r: Option<Vec<Visit>>)
        ensures
            r.is_some() == self@.visits().is_some(),
            r matches Some(visits) ==> visits@ == self@.visits().unwrap(),
    {
        let mut visits: Vec<Visit> = Vec::new();
        let mut slot: usize = 0;
        if self.build_meta(&mut visits, &mut slot, self.root, 0) {
            assert(visits@ =~= self@.visits().unwrap());
            Some(visits)
        } else {
            None
        }
    }

    /// The metadata of every expression after the walk from the root: the
    /// depth noted last, and the height, which is that of the children and
    /// so, with the leaves at height 0, is 0 throughout. `None` where the
    /// walk fails.
    pub fn build_metadata(&self) -> (r: Option<Vec<NodeMetadata>>)
        ensures
            r.is_some() == self@.visits().is_some(),
            r matches Some(metadata) ==> {
                &&& metadata@.len() == self@.body.len()
                &&& forall|i: int|
                    0 <= i < metadata@.len() ==> (#[trigger] metadata@[i]) == (NodeMetadata {
                        height: 0,
                        depth: last_depth(self@.visits().unwrap(), i as usize),
                    })
            },
    {
        let visits = match self.walk() {
            Some(visits) => visits,
            None => {
                return None;
            },
        };
        let len = self.body.len();
        let mut metadata: Vec<NodeMetadata> = Vec::new();
        let mut i: usize = 0;
        while i < len
            invariant
                i <= len,
                metadata@.len() == i,
                forall|j: int|
                    0 <= j < i ==> (#[trigger] metadata@[j]) == (NodeMetadata {
                        height: 0,
                        depth: 0,
                    }),
            decreases len - i,
        {
            metadata.push(NodeMetadata { height: 0, depth: 0 });
            i += 1;
        }
        let mut k: usize = 0;
        assert(visits@.subrange(0, 0) =~= Seq::<Visit>::empty());
        while k < visits.len()
            invariant
                k <= visits.len(),
                metadata@.len() == len,
                forall|j: int|
                    0 <= j < len ==> (#[trigger] metadata@[j]) == (NodeMetadata {
                        height: 0,
                        depth: last_depth(visits@.subrange(0, k as int), j as usize),
                    }),
            decreases visits.len() - k,
        {
            let visit = visits[k];
            proof {
                let next = visits@.subrange(0, k + 1);
                assert(next.drop_last() =~= visits@.subrange(0, k as int));
                assert(next.last() == visit);
            }
            if visit.index < len {
                metadata.set(visit.index, NodeMetadata { height: 0, depth: visit.depth });
            }
            k += 1;
        }
        assert(visits@.subrange(0, visits@.len() as int) =~= visits@);
        Some(metadata)
    }
}

} // verus!
