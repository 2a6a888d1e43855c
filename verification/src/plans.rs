//! What holds of every plan that the search of one agent finds.
use crate::astar::AStar;
use crate::geometry::{Pair, Rect};
use crate::model::{Constraint, ScoredCell};
use crate::search::{
    clashes, lemma_trail_last, peek, spec_filter, spec_satisfies, spec_trail, Search,
};
use vstd::prelude::*;

verus! {

impl AStar {
    /// `b` may follow `a` in a plan: it is at a neighbour of the footprint of `a`, begins
    /// the tick after `a` ends, and lasts at least as many ticks as entering its footprint
    /// costs.
    pub open spec fn step_ok(&self, a: ScoredCell, b: ScoredCell) -> bool {
        &&& self.grid.spec_neighbors(a.location).contains(b.location)
        &&& b.duration.0 == a.duration.1 + 1
        &&& b.duration.1 >= a.duration.1 + self.grid.spec_cost(b.location)
    }

    /// The cost of the stay is its last tick plus the estimate at its footprint.
    pub open spec fn scored(&self, n: ScoredCell) -> bool {
        n.cost == n.duration.1 + self.heuristic.at(n.location.origin)
    }

    /// The stay and all before it are stays of a plan from `start` that keeps the
    /// constraints: the first is at the footprint of `start` from tick 0; each other may
    /// follow the one before; each breaks no constraint, but for a first stay of the
    /// single tick 0, which is not held against them; and the cost of each is its last tick
    /// plus the estimate at its footprint.
    pub open spec fn sound(&self, start: Pair, constraints: Seq<Constraint>, n: ScoredCell) -> bool
        decreases n,
    {
        &&& self.scored(n)
        &&& match n.prev {
            None => {
                &&& n.location == self.footprint(start)
                &&& n.duration.0 == 0
                &&& n.duration.1 > 0 ==> spec_satisfies(n, constraints)
            },
            Some(p) => {
                &&& self.sound(start, constraints, *p)
                &&& self.step_ok(*p, n)
                &&& spec_satisfies(n, constraints)
            },
        }
    }

    /// Every stay of the sequence is sound.
    #[verifier::opaque]
    pub open spec fn all_sound(
        &self,
        start: Pair,
        constraints: Seq<Constraint>,
        s: Seq<ScoredCell>,
    ) -> bool {
        forall|i: int| 0 <= i < s.len() ==> self.sound(start, constraints, #[trigger] s[i])
    }

    /// The stays are those of a plan from `start` that keeps the constraints.
    pub open spec fn linked(
        &self,
        start: Pair,
        constraints: Seq<Constraint>,
        path: Seq<ScoredCell>,
    ) -> bool {
        &&& path.len() >= 1
        &&& path[0].location == self.footprint(start)
        &&& path[0].duration.0 == 0
        &&& path[0].duration.1 > 0 ==> spec_satisfies(path[0], constraints)
        &&& forall|i: int| 0 <= i < path.len() - 1 ==> self.step_ok(#[trigger] path[i], path[i + 1])
        &&& forall|i: int| 0 < i < path.len() ==> spec_satisfies(#[trigger] path[i], constraints)
        &&& forall|i: int| 0 <= i < path.len() ==> self.scored(#[trigger] path[i])
    }

    /// The path is a plan of the agent that starts at `start`: its stays are linked and keep
    /// the constraints that name the agent, and the last is at a destination, where the
    /// agent may stay for ever.
    pub open spec fn plan_ok(
        &self,
        start: Pair,
        constraints: Seq<Constraint>,
        path: Seq<ScoredCell>,
    ) -> bool {
        &&& self.linked(start, spec_filter(start, constraints), path)
        &&& self.is_goal(path.last(), spec_filter(start, constraints))
    }

    /// The successors of a sound stay are sound.
    pub proof fn lemma_moves_sound(
        &self,
        start: Pair,
        constraints: Seq<Constraint>,
        n: ScoredCell,
        k: int,
    )
        requires
            self.sound(start, constraints, n),
            0 <= k <= self.grid.spec_neighbors(n.location).len(),
        ensures
            self.all_sound(
                start,
                constraints,
                self.spec_moves(n, constraints, self.grid.spec_neighbors(n.location), k),
            ),
        decreases k,
    {
        reveal(AStar::all_sound);
        let around = self.grid.spec_neighbors(n.location);
        let now = self.spec_moves(n, constraints, around, k);
        if k > 0 {
            self.lemma_moves_sound(start, constraints, n, k - 1);
            let before = self.spec_moves(n, constraints, around, k - 1);
            let location = around[k - 1];
            self.grid.lemma_sum_costs_nonneg(location.spec_cells());
            assert forall|i: int| 0 <= i < now.len() implies self.sound(
                start,
                constraints,
                #[trigger] now[i],
            ) by {
                if i < before.len() {
                    assert(now[i] == before[i]);
                } else {
                    let c = self.spec_move(n, location)->0;
                    assert(now[i] == c);
                    assert(*c.prev->0 == n);
                    assert(around.contains(location));
                    assert(self.step_ok(n, c));
                }
            }
        } else {
            assert forall|i: int| 0 <= i < now.len() implies self.sound(
                start,
                constraints,
                #[trigger] now[i],
            ) by {
                let w = Self::spec_wait(n)->0;
                assert(now[i] == w);
                match n.prev {
                    None => {},
                    Some(p) => {
                        assert(self.step_ok(*p, n));
                        assert(self.step_ok(*p, w));
                    },
                }
            }
        }
    }

    /// What the open list holds after the successors of a sound stay are taken in is
    /// sound, and so is the goal, if one is found.
    pub proof fn lemma_absorb_sound(
        &self,
        start: Pair,
        constraints: Seq<Constraint>,
        open: Seq<ScoredCell>,
        successors: Seq<ScoredCell>,
        k: int,
    )
        requires
            self.all_sound(start, constraints, open),
            self.all_sound(start, constraints, successors),
            0 <= k <= successors.len(),
        ensures
            self.all_sound(
                start,
                constraints,
                self.spec_absorb(constraints, open, successors, k).1,
            ),
            self.spec_absorb(constraints, open, successors, k).0 matches Some(goal) ==> self.sound(
                start,
                constraints,
                goal,
            ) && self.is_goal(goal, constraints),
        decreases k,
    {
        reveal(AStar::all_sound);
        if k > 0 {
            self.lemma_absorb_sound(start, constraints, open, successors, k - 1);
        }
    }

    /// A neighbour of a footprint is another footprint.
    pub proof fn lemma_neighbor_differs(&self, rect: Rect, other: Rect)
        requires
            self.grid.spec_neighbors(rect).contains(other),
        ensures
            other != rect,
    {
        self.grid.lemma_neighbors(rect);
    }

    /// The trail of a sound stay is linked: it holds the stay and all before it, in order
    /// of time.
    pub proof fn lemma_trail_linked(&self, start: Pair, constraints: Seq<Constraint>, n: ScoredCell)
        requires
            self.sound(start, constraints, n),
        ensures
            self.linked(start, constraints, spec_trail(n)),
            spec_trail(n).last() == n,
        decreases n,
    {
        lemma_trail_last(n);
        match n.prev {
            None => {},
            Some(p) => {
                self.lemma_trail_linked(start, constraints, peek(&p));
                lemma_trail_last(peek(&p));
                self.lemma_neighbor_differs(p.location, n.location);
                let stem = spec_trail(peek(&p));
                let path = spec_trail(n);
                assert(path == stem.push(n));
                assert forall|i: int| 0 <= i < path.len() - 1 implies self.step_ok(
                    #[trigger] path[i],
                    path[i + 1],
                ) by {
                    if i < stem.len() - 1 {
                        assert(path[i] == stem[i]);
                        assert(path[i + 1] == stem[i + 1]);
                    } else {
                        assert(path[i] == peek(&p));
                    }
                }
                assert forall|i: int| 0 < i < path.len() implies spec_satisfies(
                    #[trigger] path[i],
                    constraints,
                ) by {
                    if i < stem.len() {
                        assert(path[i] == stem[i]);
                    }
                }
                assert(path[0] == stem[0]);
            },
        }
    }

    /// What a search from sound stays finds is linked and ends at a goal.
    pub proof fn lemma_run_sound(
        &self,
        start: Pair,
        constraints: Seq<Constraint>,
        open: Seq<ScoredCell>,
        fuel: nat,
    )
        requires
            self.all_sound(start, constraints, open),
        ensures
            self.spec_run(constraints, open, fuel) matches Search::Found(path) ==> self.linked(
                start,
                constraints,
                path,
            ) && self.is_goal(path.last(), constraints),
        decreases fuel,
    {
        if open.len() > 0 && fuel > 0 {
            let best = crate::search::spec_best(open);
            crate::search::lemma_best_in_range(open);
            let n = open[best];
            let rest = open.remove(best);
            assert(self.sound(start, constraints, n) && self.all_sound(start, constraints, rest))
                by {
                reveal(AStar::all_sound);
            }
            let successors = self.spec_successors(n, constraints);
            self.lemma_moves_sound(
                start,
                constraints,
                n,
                self.grid.spec_neighbors(n.location).len() as int,
            );
            self.lemma_absorb_sound(
                start,
                constraints,
                rest,
                successors,
                successors.len() as int,
            );
            match self.spec_absorb(constraints, rest, successors, successors.len() as int) {
                (Some(goal), _) => {
                    self.lemma_trail_linked(start, constraints, goal);
                },
                (None, next) => {
                    self.lemma_run_sound(start, constraints, next, (fuel - 1) as nat);
                },
            }
        }
    }

    /// What the search finds is a plan of the agent.
    pub proof fn lemma_search_sound(&self, start: Pair, constraints: Seq<Constraint>, limit: nat)
        ensures
            self.spec_search(start, constraints, limit) matches Search::Found(path)
                ==> self.plan_ok(start, constraints, path),
    {
        let first = seq![self.spec_initial(start)];
        assert(self.all_sound(start, spec_filter(start, constraints), first)) by {
            reveal(AStar::all_sound);
        }
        self.lemma_run_sound(start, spec_filter(start, constraints), first, limit);
    }

    /// A plan of an agent begins at the footprint of its origin at tick 0 and ends at a
    /// destination.
    pub proof fn lemma_plan_ends(&self, start: Pair, constraints: Seq<Constraint>)
        ensures
            self.spec_astar(start, constraints) matches Some(path) ==> {
                &&& path.len() >= 1
                &&& path[0].location.origin == start
                &&& path[0].location.extent == self.unit_extent
                &&& path[0].duration.0 == 0
                &&& self.destinations@.contains(path.last().location.origin)
            },
    {
        self.lemma_search_sound(start, constraints, usize::MAX as nat);
    }

    /// The cost of every stay of a plan is its last tick plus the estimate at its footprint.
    pub proof fn lemma_plan_cost(&self, start: Pair, constraints: Seq<Constraint>, i: int)
        ensures
            self.spec_astar(start, constraints) matches Some(path) ==> (0 <= i < path.len()
                ==> path[i].cost == path[i].duration.1 + self.heuristic.at(
                path[i].location.origin,
            )),
    {
        self.lemma_search_sound(start, constraints, usize::MAX as nat);
        match self.spec_astar(start, constraints) {
            Some(path) => {
                if 0 <= i < path.len() {
                    assert(self.scored(path[i]));
                }
            },
            None => {},
        }
    }

    /// In a plan each stay but the first begins the tick after the stay before it ends, at
    /// a neighbour of the footprint of that stay, and lasts at least as many ticks as
    /// entering its footprint costs; so it does not end before it begins where that cost
    /// is not 0.
    pub proof fn lemma_plan_time(&self, start: Pair, constraints: Seq<Constraint>, i: int)
        ensures
            self.spec_astar(start, constraints) matches Some(path) ==> (0 <= i < path.len() - 1
                ==> {
                &&& self.grid.spec_neighbors(path[i].location).contains(path[i + 1].location)
                &&& path[i + 1].duration.0 == path[i].duration.1 + 1
                &&& path[i + 1].duration.1 >= path[i].duration.1 + self.grid.spec_cost(
                    path[i + 1].location,
                )
                &&& self.grid.spec_cost(path[i + 1].location) >= 1 ==> path[i + 1].duration.1
                    >= path[i + 1].duration.0
            }),
    {
        self.lemma_search_sound(start, constraints, usize::MAX as nat);
        match self.spec_astar(start, constraints) {
            Some(path) => {
                if 0 <= i < path.len() - 1 {
                    assert(self.step_ok(path[i], path[i + 1]));
                }
            },
            None => {},
        }
    }

    /// No stay of a plan breaks a constraint that names the agent; but a first stay of the
    /// single tick 0 is not held against the constraints.
    pub proof fn lemma_plan_keeps(&self, start: Pair, constraints: Seq<Constraint>, i: int, k: int)
        requires
            0 <= k < constraints.len(),
            constraints[k].uid == start,
        ensures
            self.spec_astar(start, constraints) matches Some(path) ==> (0 <= i < path.len() && (i
                > 0 || path[0].duration.1 > 0) ==> !clashes(
                constraints[k],
                path[i].location,
                path[i].duration,
            )),
    {
        self.lemma_search_sound(start, constraints, usize::MAX as nat);
        lemma_filter_has(start, constraints, k);
        match self.spec_astar(start, constraints) {
            Some(path) => {
                if 0 <= i < path.len() && (i > 0 || path[0].duration.1 > 0) {
                    let mine = spec_filter(start, constraints);
                    let at = choose|at: int| 0 <= at < mine.len() && mine[at] == constraints[k];
                    assert(spec_satisfies(path[i], mine));
                    assert(!clashes(mine[at], path[i].location, path[i].duration));
                }
            },
            None => {},
        }
    }

    /// Where no constraint that names the agent covers the footprint of its origin at tick
    /// 0, no stay of its plan breaks a constraint that names it.
    pub proof fn lemma_plan_keeps_all(
        &self,
        start: Pair,
        constraints: Seq<Constraint>,
        i: int,
        k: int,
    )
        requires
            0 <= k < constraints.len(),
            constraints[k].uid == start,
            !(constraints[k].location.spec_intersects(self.footprint(start))
                && constraints[k].duration.0 == 0),
        ensures
            self.spec_astar(start, constraints) matches Some(path) ==> (0 <= i < path.len()
                ==> !clashes(constraints[k], path[i].location, path[i].duration)),
    {
        self.lemma_search_sound(start, constraints, usize::MAX as nat);
        self.lemma_plan_keeps(start, constraints, i, k);
    }
}

/// A constraint that names the agent is among those that are kept for it.
pub proof fn lemma_filter_has(uid: Pair, constraints: Seq<Constraint>, k: int)
    requires
        0 <= k < constraints.len(),
        constraints[k].uid == uid,
    ensures
        spec_filter(uid, constraints).contains(constraints[k]),
    decreases constraints.len(),
{
    let rest = spec_filter(uid, constraints.drop_last());
    if k == constraints.len() - 1 {
        if constraints.last().uid == uid {
            assert(rest.push(constraints.last())[rest.len() as int] == constraints[k]);
        }
    } else {
        lemma_filter_has(uid, constraints.drop_last(), k);
        let at = choose|at: int| 0 <= at < rest.len() && rest[at] == constraints.drop_last()[k];
        if constraints.last().uid == uid {
            assert(rest.push(constraints.last())[at] == constraints[k]);
        }
    }
}

} // verus!
