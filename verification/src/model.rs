//! The data shared by the grid, the single-agent search and the multi-agent search.
use crate::geometry::{Pair, Rank, Rect};
use std::rc::Rc;
use vstd::prelude::*;
use vstd::std_specs::cmp::PartialEqSpecImpl;

verus! {

/// What the map knows of one cell: the cost paid on entering it, and whether it can be entered.
#[derive(Clone, Copy, Debug, PartialEq, Eq, Structural)]
pub struct CellInfo {
    pub cost: usize,
    pub blocked: bool,
}

/// An integer cost as a machine value, everything from `usize::MAX` up being infinite.
pub open spec fn saturate(x: int) -> usize {
    if x >= usize::MAX {
        usize::MAX
    } else if x < 0 {
        0
    } else {
        x as usize
    }
}

/// Sum of two costs, infinite if either is or if the sum does not fit.
pub fn saturating_sum(a: usize, b: usize) -> (out: usize)
    ensures
        out == saturate(a + b),
{
    a.saturating_add(b)
}

/// Sum of two costs when it is finite, that is below `usize::MAX`.
pub open spec fn finite_sum(a: int, b: int) -> Option<usize> {
    if 0 <= a + b < usize::MAX {
        Some((a + b) as usize)
    } else {
        None
    }
}

/// Sum of two costs, or `None` when the sum is infinite.
pub fn add_finite(a: usize, b: usize) -> (out: Option<usize>)
    ensures
        out == finite_sum(a as int, b as int),
{
    if a < usize::MAX && b < usize::MAX - a {
        Some(a + b)
    } else {
        None
    }
}

/// One stay of an agent: where its footprint is, from which tick to which, and the stay
/// before it.
#[derive(Debug)]
pub struct ScoredCell {
    /// The footprint during the stay.
    pub location: Rect,
    /// The tick of arrival and the last tick of the stay.
    pub duration: Pair,
    /// The last tick of the stay plus the estimated cost of the way that remains.
    pub cost: usize,
    /// The stay from which the agent moved here, shared by all stays that follow it.
    pub prev: Option<Rc<ScoredCell>>,
}

/// A plan of one agent: its stays in order of time.
pub type Path = Vec<ScoredCell>;

impl ScoredCell {
    /// How many stays precede this one.
    pub open spec fn depth(self) -> nat
        decreases self,
    {
        match self.prev {
            None => 0,
            Some(p) => 1 + p.depth(),
        }
    }

    /// The order of the open list, in which the greatest stay is expanded first: a lower
    /// `cost` is greater; then a later last tick; then a later arrival; then a higher
    /// location; then a higher predecessor, where no predecessor is lowest of all and two
    /// predecessors are held against each other in this same order.
    pub open spec fn spec_compare(self, other: ScoredCell) -> Rank
        decreases self.depth() + other.depth(),
    {
        Rank::of(other.cost as int, self.cost as int).spec_refine(
            Rank::of(self.duration.1 as int, other.duration.1 as int),
        ).spec_refine(Rank::of(self.duration.0 as int, other.duration.0 as int)).spec_refine(
            self.location.spec_rank(other.location),
        ).spec_refine(
            match (self.prev, other.prev) {
                (None, None) => Rank::Equal,
                (None, Some(_)) => Rank::Less,
                (Some(_), None) => Rank::Greater,
                (Some(s), Some(o)) => s.spec_compare(*o),
            },
        )
    }

    /// Where this stay stands against `other` in the order of the open list.
    pub fn compare(&self, other: &ScoredCell) -> (out: Rank)
        ensures
            out == self.spec_compare(*other),
        decreases self.depth() + other.depth(),
    {
        let keys = Rank::of_usize(other.cost, self.cost).refine(
            Rank::of_usize(self.duration.1, other.duration.1),
        ).refine(Rank::of_usize(self.duration.0, other.duration.0)).refine(
            self.location.rank(other.location),
        );
        match keys {
            Rank::Equal => match (&self.prev, &other.prev) {
                (None, None) => Rank::Equal,
                (None, Some(_)) => Rank::Less,
                (Some(_), None) => Rank::Greater,
                (Some(s), Some(o)) => s.compare(o),
            },
            Rank::Less => Rank::Less,
            Rank::Greater => Rank::Greater,
        }
    }

    /// Same footprint and same ticks.
    pub open spec fn same_stay(self, other: ScoredCell) -> bool {
        self.location == other.location && self.duration == other.duration
    }

    /// How many ticks the stay lasts.
    pub open spec fn ticks(self) -> nat {
        if self.duration.0 <= self.duration.1 {
            (self.duration.1 - self.duration.0 + 1) as nat
        } else {
            0
        }
    }
}

impl Clone for ScoredCell {
    fn clone(&self) -> (out: ScoredCell)
        ensures
            out == *self,
    {
        let prev = match &self.prev {
            None => None,
            Some(p) => Some(Rc::clone(p)),
        };
        ScoredCell { location: self.location, duration: self.duration, cost: self.cost, prev }
    }
}

impl PartialEqSpecImpl for ScoredCell {
    open spec fn obeys_eq_spec() -> bool {
        true
    }

    open spec fn eq_spec(&self, other: &ScoredCell) -> bool {
        self.same_stay(*other)
    }
}

impl PartialEq for ScoredCell {
    /// Two stays are equal when footprint and ticks agree.
    fn eq(&self, other: &ScoredCell) -> (out: bool) {
        self.location == other.location && self.duration == other.duration
    }
}

impl Eq for ScoredCell {

}

/// The agent that started at `uid` may not overlap `location` at any tick of `duration`.
#[derive(Clone, Copy, Debug, PartialEq, Eq, Structural, PartialOrd, Ord)]
pub struct Constraint {
    pub uid: Pair,
    pub location: Rect,
    pub duration: Pair,
}

/// One side of a collision: the agent, its footprint and its stay.
#[derive(Clone, Copy, Debug, PartialEq, Eq, Structural)]
pub struct ConflictInfo {
    pub uid: Pair,
    pub location: Rect,
    pub duration: Pair,
}

/// Two agents whose footprints overlap during their stays.
#[derive(Clone, Copy, Debug, PartialEq, Eq, Structural)]
pub struct Conflict(pub ConflictInfo, pub ConflictInfo);

impl Conflict {
    /// The constraints that resolve the conflict: each agent is kept out of the footprint of
    /// the other for the stay of the other.
    pub open spec fn spec_constraints(self) -> Seq<Constraint> {
        seq![
            Constraint { uid: self.0.uid, location: self.1.location, duration: self.1.duration },
            Constraint { uid: self.1.uid, location: self.0.location, duration: self.0.duration },
        ]
    }

    /// The two agents.
    pub fn uids(self) -> (out: (Pair, Pair))
        ensures
            out == (self.0.uid, self.1.uid),
    {
        (self.0.uid, self.1.uid)
    }

    /// The constraint on the first agent and the constraint on the second.
    pub fn constraints(self) -> (out: [Constraint; 2])
        ensures
            out@ == self.spec_constraints(),
    {
        let constraint_0 = Constraint {
            uid: self.0.uid,
            location: self.1.location,
            duration: self.1.duration,
        };
        let constraint_1 = Constraint {
            uid: self.1.uid,
            location: self.0.location,
            duration: self.0.duration,
        };
        let out = [constraint_0, constraint_1];
        assert(out@ =~= self.spec_constraints());
        out
    }
}

/// The footprint of the plan at every tick of its stays, stay after stay.
pub open spec fn spec_unfold(path: Seq<ScoredCell>) -> Seq<Rect>
    decreases path.len(),
{
    if path.len() == 0 {
        Seq::empty()
    } else {
        spec_unfold(path.drop_last()) + Seq::new(
            path.last().ticks(),
            |t: int| path.last().location,
        )
    }
}

/// The stays follow each other without a gap from tick 0, and none is empty.
pub open spec fn timed(path: Seq<ScoredCell>) -> bool {
    &&& path.len() >= 1
    &&& path[0].duration.0 == 0
    &&& forall|i: int| 0 <= i < path.len() ==> (#[trigger] path[i]).duration.0 <= path[i].duration.1
    &&& forall|i: int|
        0 <= i < path.len() - 1 ==> path[i + 1].duration.0 == (#[trigger] path[i]).duration.1 + 1
}

/// The last tick of the plan.
pub open spec fn end_tick(path: Seq<ScoredCell>) -> int {
    path.last().duration.1 as int
}

/// A plan whose stays follow each other, without its last stay, is such a plan.
pub proof fn lemma_timed_prefix(path: Seq<ScoredCell>)
    requires
        timed(path),
        path.len() >= 2,
    ensures
        timed(path.drop_last()),
        path.last().duration.0 == end_tick(path.drop_last()) + 1,
        path.last().duration.0 <= path.last().duration.1,
{
    let head = path.drop_last();
    assert forall|i: int| 0 <= i < head.len() - 1 implies head[i + 1].duration.0 == (
    #[trigger] head[i]).duration.1 + 1 by {
        assert(head[i] == path[i]);
        assert(head[i + 1] == path[i + 1]);
    }
    assert forall|i: int| 0 <= i < head.len() implies (#[trigger] head[i]).duration.0
        <= head[i].duration.1 by {
        assert(head[i] == path[i]);
    }
    assert(head[0] == path[0]);
    assert(head.last() == path[path.len() - 2]);
    assert(path[path.len() - 2 + 1].duration.0 == path[path.len() - 2].duration.1 + 1);
}

/// A plan whose stays follow each other from tick 0 unfolds into one footprint for each tick
/// up to its last.
pub proof fn lemma_unfold_len(path: Seq<ScoredCell>)
    requires
        timed(path),
    ensures
        spec_unfold(path).len() == end_tick(path) + 1,
    decreases path.len(),
{
    let head = path.drop_last();
    if path.len() == 1 {
        assert(spec_unfold(head) =~= Seq::empty());
    } else {
        lemma_timed_prefix(path);
        lemma_unfold_len(head);
    }
}

/// In the unfolding of a plan whose stays follow each other from tick 0, the footprint at a
/// tick is that of the stay that holds the tick.
pub proof fn lemma_unfold_at(path: Seq<ScoredCell>, i: int, t: int)
    requires
        timed(path),
        0 <= i < path.len(),
        path[i].duration.0 <= t <= path[i].duration.1,
    ensures
        0 <= t < spec_unfold(path).len(),
        spec_unfold(path)[t] == path[i].location,
    decreases path.len(),
{
    let head = path.drop_last();
    let last = path.last();
    let tail = Seq::new(last.ticks(), |t: int| last.location);
    lemma_unfold_len(path);
    lemma_stay_before_end(path, i);
    if path.len() == 1 {
        assert(spec_unfold(head) =~= Seq::empty());
        assert(tail[t] == last.location);
    } else {
        lemma_timed_prefix(path);
        lemma_unfold_len(head);
        if i < path.len() - 1 {
            assert(head[i] == path[i]);
            lemma_unfold_at(head, i, t);
        } else {
            assert(tail[t - last.duration.0] == last.location);
        }
    }
}

/// In a plan whose stays follow each other, no stay ends after the last.
pub proof fn lemma_stay_before_end(path: Seq<ScoredCell>, i: int)
    requires
        timed(path),
        0 <= i < path.len(),
    ensures
        path[i].duration.1 <= end_tick(path),
    decreases path.len() - i,
{
    if i < path.len() - 1 {
        lemma_stay_before_end(path, i + 1);
        assert(path[i + 1].duration.0 == path[i].duration.1 + 1);
    }
}

/// The footprint of the plan at every tick of its stays: one entry for each tick from 0 to
/// the last tick of a plan whose stays follow each other from tick 0.
pub fn unfold_path(path: Path) -> (out: Vec<Rect>)
    ensures
        out@ == spec_unfold(path@),
        timed(path@) ==> out@.len() == end_tick(path@) + 1,
{
    let mut out: Vec<Rect> = Vec::new();
    let mut i: usize = 0;
    while i < path.len()
        invariant
            0 <= i <= path.len(),
            out@ == spec_unfold(path@.take(i as int)),
        decreases path.len() - i,
    {
        let location = path[i].location;
        let first = path[i].duration.0;
        let last = path[i].duration.1;
        let ghost before = out@;
        let ghost cell = path@[i as int];
        if first <= last {
            let mut t: usize = first;
            loop
                invariant_except_break
                    first <= t <= last,
                    out@ == before + Seq::new((t - first) as nat, |k: int| location),
                ensures
                    out@ == before + Seq::new((last - first + 1) as nat, |k: int| location),
                decreases last - t,
            {
                out.push(location);
                proof {
                    assert(out@ =~= before + Seq::new((t - first + 1) as nat, |k: int| location));
                }
                if t == last {
                    break ;
                }
                t += 1;
            }
        } else {
            assert(out@ =~= before + Seq::new(0nat, |k: int| location));
        }
        proof {
            let upto = path@.take(i + 1);
            assert(upto.drop_last() =~= path@.take(i as int));
            assert(upto.last() == cell);
            assert(Seq::new(cell.ticks(), |t: int| cell.location) =~= Seq::new(
                cell.ticks(),
                |k: int| location,
            ));
        }
        i += 1;
    }
    proof {
        assert(path@.take(path@.len() as int) =~= path@);
        if timed(path@) {
            lemma_unfold_len(path@);
        }
    }
    out
}

} // verus!
