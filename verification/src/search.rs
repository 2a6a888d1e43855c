//! The search of one agent for a way to a destination, through footprints and ticks, under
//! the constraints that name it.
use crate::astar::AStar;
use crate::geometry::{Pair, Rank, Rect};
use crate::model::{add_finite, finite_sum, Constraint, Path, ScoredCell};
use std::rc::Rc;
use vstd::prelude::*;

verus! {

/// How a search ended.
#[derive(Debug)]
pub enum Search<T> {
    /// A plan.
    Found(T),
    /// Nothing was left to expand: no plan exists.
    Unreachable,
    /// The allowed number of expansions was used up.
    LimitReached,
}

impl View for Search<Path> {
    type V = Search<Seq<ScoredCell>>;

    open spec fn view(&self) -> Search<Seq<ScoredCell>> {
        match *self {
            Search::Found(path) => Search::Found(path@),
            Search::Unreachable => Search::Unreachable,
            Search::LimitReached => Search::LimitReached,
        }
    }
}

/// The constraints that name the agent `uid`, in their order.
pub open spec fn spec_filter(uid: Pair, constraints: Seq<Constraint>) -> Seq<Constraint>
    decreases constraints.len(),
{
    if constraints.len() == 0 {
        Seq::empty()
    } else {
        let rest = spec_filter(uid, constraints.drop_last());
        if constraints.last().uid == uid {
            rest.push(constraints.last())
        } else {
            rest
        }
    }
}

/// A stay at `location` over `duration` breaks the constraint: the footprints overlap and
/// the stays share a tick.
pub open spec fn clashes(k: Constraint, location: Rect, duration: Pair) -> bool {
    &&& k.location.spec_intersects(location)
    &&& k.duration.0 <= duration.1
    &&& duration.0 <= k.duration.1
}

/// The stay breaks none of the constraints.
pub open spec fn spec_satisfies(cell: ScoredCell, constraints: Seq<Constraint>) -> bool {
    forall|i: int|
        0 <= i < constraints.len() ==> !clashes(
            #[trigger] constraints[i],
            cell.location,
            cell.duration,
        )
}

/// The stay may go on for ever: no constraint on its footprint ends at its arrival or later.
pub open spec fn spec_may_stop(cell: ScoredCell, constraints: Seq<Constraint>) -> bool {
    forall|i: int|
        0 <= i < constraints.len() ==> !((#[trigger] constraints[i]).location.spec_intersects(
            cell.location,
        ) && cell.duration.0 <= constraints[i].duration.1)
}

/// The open list holds no stay with the footprint and ticks of the candidate at its cost or
/// less.
pub open spec fn spec_open_allows(candidate: ScoredCell, open: Seq<ScoredCell>) -> bool {
    forall|i: int|
        0 <= i < open.len() ==> !((#[trigger] open[i]).same_stay(candidate) && open[i].cost
            <= candidate.cost)
}

/// The stay that is expanded next: the greatest of the open list, the first of them if
/// several are equal in the order.
pub open spec fn spec_best(open: Seq<ScoredCell>) -> int
    decreases open.len(),
{
    if open.len() <= 1 {
        0
    } else {
        let best = spec_best(open.drop_last());
        if open.last().spec_compare(open[best]) == Rank::Greater {
            open.len() - 1
        } else {
            best
        }
    }
}

/// The stay that is expanded next is a stay of the open list.
pub proof fn lemma_best_in_range(open: Seq<ScoredCell>)
    requires
        open.len() > 0,
    ensures
        0 <= spec_best(open) < open.len(),
    decreases open.len(),
{
    if open.len() > 1 {
        lemma_best_in_range(open.drop_last());
    }
}

/// The stays from the first to `last`, each the predecessor of the next; a predecessor at
/// the footprint of its successor is left out.
pub open spec fn spec_trail(last: ScoredCell) -> Seq<ScoredCell>
    decreases last,
{
    match last.prev {
        None => seq![last],
        Some(p) => if last.location != p.location {
            spec_trail(*p).push(last)
        } else {
            spec_trail(*p).drop_last().push(last)
        },
    }
}

/// The stay behind a handle.
pub open spec fn peek(p: &Rc<ScoredCell>) -> ScoredCell {
    **p
}

/// The sequence in the opposite order.
pub open spec fn backward(s: Seq<ScoredCell>) -> Seq<ScoredCell> {
    Seq::new(s.len(), |i: int| s[s.len() - 1 - i])
}

/// A trail ends with the stay it was taken from.
pub proof fn lemma_trail_last(last: ScoredCell)
    ensures
        spec_trail(last).len() >= 1,
        spec_trail(last).last() == last,
    decreases last,
{
    match last.prev {
        None => {},
        Some(p) => {
            lemma_trail_last(peek(&p));
        },
    }
}

/// The constraints that name the agent `uid`.
pub fn filter_constraints(uid: Pair, constraints: &[Constraint]) -> (out: Vec<Constraint>)
    ensures
        out@ == spec_filter(uid, constraints@),
{
    let mut out: Vec<Constraint> = Vec::new();
    let mut i: usize = 0;
    while i < constraints.len()
        invariant
            0 <= i <= constraints.len(),
            out@ == spec_filter(uid, constraints@.take(i as int)),
        decreases constraints.len() - i,
    {
        proof {
            assert(constraints@.take(i + 1).drop_last() =~= constraints@.take(i as int));
        }
        if constraints[i].uid == uid {
            out.push(constraints[i]);
        }
        i += 1;
    }
    proof {
        assert(constraints@.take(constraints@.len() as int) =~= constraints@);
    }
    out
}

/// Whether the stay breaks none of the constraints.
pub fn satisfies_constraints(scored_cell: &ScoredCell, constraints: &[Constraint]) -> (out: bool)
    ensures
        out == spec_satisfies(*scored_cell, constraints@),
{
    let mut i: usize = 0;
    while i < constraints.len()
        invariant
            0 <= i <= constraints.len(),
            forall|j: int|
                0 <= j < i ==> !clashes(
                    #[trigger] constraints@[j],
                    scored_cell.location,
                    scored_cell.duration,
                ),
        decreases constraints.len() - i,
    {
        let constraint = constraints[i];
        let relevant_cell = constraint.location.intersects(scored_cell.location);
        let relevant_time = constraint.duration.0 <= scored_cell.duration.1
            && scored_cell.duration.0 <= constraint.duration.1;
        if relevant_cell && relevant_time {
            return false;
        }
        i += 1;
    }
    true
}

/// Whether no stay of the open list has the footprint and ticks of the candidate at its
/// cost or less.
pub fn open_allows_candidate(candidate: &ScoredCell, open: &Vec<ScoredCell>) -> (out: bool)
    ensures
        out == spec_open_allows(*candidate, open@),
{
    let mut i: usize = 0;
    while i < open.len()
        invariant
            0 <= i <= open.len(),
            forall|j: int|
                0 <= j < i ==> !((#[trigger] open@[j]).same_stay(*candidate) && open@[j].cost
                    <= candidate.cost),
        decreases open.len() - i,
    {
        let cell = &open[i];
        if cell.cost <= candidate.cost && cell.location == candidate.location && cell.duration
            == candidate.duration {
            return false;
        }
        i += 1;
    }
    true
}

/// Whether the agent may stay at the candidate for ever.
pub fn may_stop(candidate: &ScoredCell, constraints: &[Constraint]) -> (out: bool)
    ensures
        out == spec_may_stop(*candidate, constraints@),
{
    let mut i: usize = 0;
    while i < constraints.len()
        invariant
            0 <= i <= constraints.len(),
            forall|j: int|
                0 <= j < i ==> !((#[trigger] constraints@[j]).location.spec_intersects(
                    candidate.location,
                ) && candidate.duration.0 <= constraints@[j].duration.1),
        decreases constraints.len() - i,
    {
        let constraint = constraints[i];
        if constraint.location.intersects(candidate.location) && candidate.duration.0
            <= constraint.duration.1 {
            return false;
        }
        i += 1;
    }
    true
}

/// The stays from the first to `last` in order of time.
pub fn reconstruct_path(last: ScoredCell) -> (out: Path)
    ensures
        out@ == spec_trail(last),
{
    let mut found: Vec<ScoredCell> = Vec::new();
    found.push(last.clone());
    let mut cursor: &ScoredCell = &last;
    proof {
        lemma_trail_last(last);
        assert(spec_trail(last) =~= spec_trail(last).drop_last() + backward(found@));
    }
    loop
        invariant_except_break
            spec_trail(last) == spec_trail(*cursor).drop_last() + backward(found@),
        ensures
            spec_trail(last) == backward(found@),
        decreases cursor.depth(),
    {
        match &cursor.prev {
            None => {
                proof {
                    assert(spec_trail(*cursor).drop_last() =~= Seq::empty());
                    assert(spec_trail(last) =~= backward(found@));
                }
                break ;
            },
            Some(before) => {
                let ghost old_found = found@;
                proof {
                    lemma_trail_last(peek(before));
                }
                if cursor.location != before.location {
                    found.push((**before).clone());
                    proof {
                        let stem = spec_trail(peek(before));
                        assert(spec_trail(*cursor).drop_last() =~= stem);
                        assert(stem =~= stem.drop_last().push(peek(before)));
                        assert(backward(found@) =~= seq![peek(before)] + backward(old_found));
                        assert(stem.drop_last() + backward(found@) =~= stem + backward(old_found));
                    }
                } else {
                    proof {
                        assert(spec_trail(*cursor).drop_last() =~= spec_trail(
                            **before,
                        ).drop_last());
                    }
                }
                cursor = &**before;
            },
        }
    }
    let mut out: Vec<ScoredCell> = Vec::new();
    let mut i: usize = found.len();
    while i > 0
        invariant
            0 <= i <= found.len(),
            out@.len() == found.len() - i,
            forall|j: int| 0 <= j < out@.len() ==> out@[j] == found@[found.len() - 1 - j],
        decreases i,
    {
        i -= 1;
        out.push(found[i].clone());
    }
    proof {
        assert(out@ =~= backward(found@));
    }
    out
}

/// The index of the stay that is expanded next: the greatest of the open list, and the
/// first of those that are equal to it in the order.
pub fn best_index(open: &Vec<ScoredCell>) -> (out: usize)
    requires
        open.len() > 0,
    ensures
        out == spec_best(open@),
        out < open.len(),
        forall|j: int|
            0 <= j < open@.len() ==> open@[out as int].spec_compare(#[trigger] open@[j])
                != Rank::Less,
        forall|j: int|
            0 <= j < out ==> open@[out as int].spec_compare(#[trigger] open@[j]) == Rank::Greater,
{
    proof {
        assert forall|j: int| 0 <= j < open@.len() implies open@[spec_best(open@)].spec_compare(
            #[trigger] open@[j],
        ) != Rank::Less && (j < spec_best(open@) ==> open@[spec_best(open@)].spec_compare(open@[j])
            == Rank::Greater) by {
            crate::order::lemma_best_greatest(open@, j);
        }
    }
    let mut best: usize = 0;
    let mut i: usize = 1;
    proof {
        assert(spec_best(open@.take(1)) == 0);
    }
    while i < open.len()
        invariant
            1 <= i <= open.len(),
            best < i,
            best == spec_best(open@.take(i as int)),
        decreases open.len() - i,
    {
        proof {
            assert(open@.take(i + 1).drop_last() =~= open@.take(i as int));
        }
        if open[i].compare(&open[best]) == Rank::Greater {
            best = i;
        }
        i += 1;
    }
    proof {
        assert(open@.take(open@.len() as int) =~= open@);
    }
    best
}

/// Another handle on the same predecessor.
fn share(prev: &Option<Rc<ScoredCell>>) -> (out: Option<Rc<ScoredCell>>)
    ensures
        out == *prev,
{
    match prev {
        None => None,
        Some(p) => Some(Rc::clone(p)),
    }
}

impl AStar {
    /// The stay with which the agent that starts at `start` begins: the single tick 0 at the
    /// footprint of `start`, its cost the estimate there.
    pub open spec fn spec_initial(&self, start: Pair) -> ScoredCell {
        ScoredCell {
            location: self.footprint(start),
            duration: Pair(0, 0),
            cost: self.heuristic.at(start),
            prev: None,
        }
    }

    /// The stay `n` made one tick longer, if its ticks and cost stay finite.
    pub open spec fn spec_wait(n: ScoredCell) -> Option<ScoredCell> {
        match (finite_sum(n.cost as int, 1), finite_sum(n.duration.1 as int, 1)) {
            (Some(cost), Some(until)) => Some(
                ScoredCell {
                    location: n.location,
                    duration: Pair(n.duration.0, until),
                    cost,
                    prev: n.prev,
                },
            ),
            _ => None,
        }
    }

    /// The stay at `location` that follows `n`: it begins the tick after `n` ends and lasts
    /// as many ticks as entering `location` costs; its cost is its last tick plus the
    /// estimate at `location`. There is none where that cost is infinite.
    pub open spec fn spec_move(&self, n: ScoredCell, location: Rect) -> Option<ScoredCell> {
        match finite_sum(n.duration.1 as int, self.move_cost(location)) {
            Some(until) => match finite_sum(
                until as int,
                self.heuristic.at(location.origin) as int,
            ) {
                Some(cost) => Some(
                    ScoredCell {
                        location,
                        duration: Pair((n.duration.1 + 1) as usize, until),
                        cost,
                        prev: Some(Rc::new(n)),
                    },
                ),
                None => None,
            },
            None => None,
        }
    }

    /// What entering the footprint costs an agent; infinite for a footprint of another
    /// extent than the agents have.
    pub open spec fn move_cost(&self, location: Rect) -> int {
        if location.extent == self.unit_extent {
            self.grid.spec_cost(location)
        } else {
            usize::MAX as int
        }
    }

    /// `found` with the candidate appended if there is one and it breaks no constraint.
    pub open spec fn spec_admit(
        found: Seq<ScoredCell>,
        candidate: Option<ScoredCell>,
        constraints: Seq<Constraint>,
    ) -> Seq<ScoredCell> {
        match candidate {
            Some(c) => if spec_satisfies(c, constraints) {
                found.push(c)
            } else {
                found
            },
            None => found,
        }
    }

    /// The successors of `n` that break no constraint: the wait, then the moves to the
    /// first `k` of the footprints `around`.
    pub open spec fn spec_moves(
        &self,
        n: ScoredCell,
        constraints: Seq<Constraint>,
        around: Seq<Rect>,
        k: int,
    ) -> Seq<ScoredCell>
        decreases k,
    {
        if k <= 0 {
            Self::spec_admit(Seq::empty(), Self::spec_wait(n), constraints)
        } else {
            Self::spec_admit(
                self.spec_moves(n, constraints, around, k - 1),
                self.spec_move(n, around[k - 1]),
                constraints,
            )
        }
    }

    /// The successors of `n` that break no constraint: the wait, then the moves to its
    /// neighbours in their order.
    pub open spec fn spec_successors(
        &self,
        n: ScoredCell,
        constraints: Seq<Constraint>,
    ) -> Seq<ScoredCell> {
        let around = self.grid.spec_neighbors(n.location);
        self.spec_moves(n, constraints, around, around.len() as int)
    }

    /// The agent may end its plan with the stay: it is at a destination and may stay for ever.
    pub open spec fn is_goal(&self, s: ScoredCell, constraints: Seq<Constraint>) -> bool {
        self.destinations@.contains(s.location.origin) && spec_may_stop(s, constraints)
    }

    /// What taking in the first `k` successors gives: the first goal among them, if there is
    /// one, and the open list with those before it that it allowed.
    pub open spec fn spec_absorb(
        &self,
        constraints: Seq<Constraint>,
        open: Seq<ScoredCell>,
        successors: Seq<ScoredCell>,
        k: int,
    ) -> (Option<ScoredCell>, Seq<ScoredCell>)
        decreases k,
    {
        if k <= 0 {
            (None, open)
        } else {
            let (goal, held) = self.spec_absorb(constraints, open, successors, k - 1);
            let s = successors[k - 1];
            if goal is Some {
                (goal, held)
            } else if self.is_goal(s, constraints) {
                (Some(s), held)
            } else if spec_open_allows(s, held) {
                (None, held.push(s))
            } else {
                (None, held)
            }
        }
    }

    /// The search from an open list with at most `fuel` expansions.
    pub open spec fn spec_run(
        &self,
        constraints: Seq<Constraint>,
        open: Seq<ScoredCell>,
        fuel: nat,
    ) -> Search<Seq<ScoredCell>>
        decreases fuel,
    {
        if open.len() == 0 {
            Search::Unreachable
        } else if fuel == 0 {
            Search::LimitReached
        } else {
            let best = spec_best(open);
            let successors = self.spec_successors(open[best], constraints);
            match self.spec_absorb(
                constraints,
                open.remove(best),
                successors,
                successors.len() as int,
            ) {
                (Some(goal), _) => Search::Found(spec_trail(goal)),
                (None, next) => self.spec_run(constraints, next, (fuel - 1) as nat),
            }
        }
    }

    /// The search for a plan of the agent that starts at `start`, with at most `limit`
    /// expansions. There is no plan where the footprint at `start` does not lie inside the
    /// grid or the estimate there is infinite.
    pub open spec fn spec_search(
        &self,
        start: Pair,
        constraints: Seq<Constraint>,
        limit: nat,
    ) -> Search<Seq<ScoredCell>> {
        if !self.grid.contains_rect(self.footprint(start)) || self.heuristic.at(start)
            == usize::MAX {
            Search::Unreachable
        } else {
            self.spec_run(spec_filter(start, constraints), seq![self.spec_initial(start)], limit)
        }
    }

    /// The plan that the search with `usize::MAX` expansions finds, if it finds one.
    pub open spec fn spec_astar(&self, start: Pair, constraints: Seq<Constraint>) -> Option<
        Seq<ScoredCell>,
    > {
        match self.spec_search(start, constraints, usize::MAX as nat) {
            Search::Found(path) => Some(path),
            _ => None,
        }
    }

    /// Whether the cell is a destination.
    pub fn is_destination(&self, cell: Pair) -> (out: bool)
        ensures
            out == self.destinations@.contains(cell),
    {
        let mut i: usize = 0;
        while i < self.destinations.len()
            invariant
                0 <= i <= self.destinations.len(),
                forall|j: int| 0 <= j < i ==> self.destinations@[j] != cell,
            decreases self.destinations.len() - i,
        {
            if self.destinations[i] == cell {
                return true;
            }
            i += 1;
        }
        false
    }

    /// The stays that may follow `scored_cell` and break no constraint: the same stay one
    /// tick longer, then the moves to the neighbours of its footprint.
    pub fn successors(&self, scored_cell: ScoredCell, constraints: &[Constraint]) -> (out: Vec<
        ScoredCell,
    >)
        requires
            self.wf(),
        ensures
            out@ == self.spec_successors(scored_cell, constraints@),
    {
        let neighbors = self.grid.neighbors(scored_cell.location);
        let agent = scored_cell.location.extent == self.unit_extent;
        let mut succ: Vec<ScoredCell> = Vec::new();
        match (add_finite(scored_cell.cost, 1), add_finite(scored_cell.duration.1, 1)) {
            (Some(cost), Some(until)) => {
                let wait = ScoredCell {
                    cost,
                    duration: Pair(scored_cell.duration.0, until),
                    location: scored_cell.location,
                    prev: share(&scored_cell.prev),
                };
                if satisfies_constraints(&wait, constraints) {
                    succ.push(wait);
                }
            },
            _ => {},
        }
        let ghost n = scored_cell;
        let sc = Rc::new(scored_cell);
        let mut k: usize = 0;
        while k < neighbors.len()
            invariant
                self.wf(),
                *sc == n,
                agent == (n.location.extent == self.unit_extent),
                neighbors@ == self.grid.spec_neighbors(n.location),
                0 <= k <= neighbors.len(),
                succ@ == self.spec_moves(n, constraints@, neighbors@, k as int),
            decreases neighbors.len() - k,
        {
            let location = neighbors[k];
            proof {
                self.grid.lemma_neighbors(n.location);
                assert(self.grid.admits(neighbors@[k as int]));
                self.grid.lemma_sum_costs_nonneg(location.spec_cells());
            }
            if agent {
                match add_finite(sc.duration.1, self.grid.cost(location)) {
                    Some(time) => {
                        match add_finite(time, *self.heuristic.get(location.origin)) {
                            Some(cost) => {
                                let candidate = ScoredCell {
                                    cost,
                                    duration: Pair(sc.duration.1 + 1, time),
                                    location,
                                    prev: Some(Rc::clone(&sc)),
                                };
                                if satisfies_constraints(&candidate, constraints) {
                                    succ.push(candidate);
                                }
                            },
                            None => {},
                        }
                    },
                    None => {},
                }
            }
            k += 1;
        }
        succ
    }

    /// Takes the successors into the open list, one after the other, as far as the open list
    /// allows them, up to the first that is a goal, which is returned.
    pub fn absorb(
        &self,
        constraints: &[Constraint],
        open: &mut Vec<ScoredCell>,
        successors: &Vec<ScoredCell>,
    ) -> (out: Option<ScoredCell>)
        ensures
            (out, final(open)@) == self.spec_absorb(
                constraints@,
                old(open)@,
                successors@,
                successors@.len() as int,
            ),
    {
        let mut k: usize = 0;
        while k < successors.len()
            invariant
                0 <= k <= successors.len(),
                self.spec_absorb(constraints@, old(open)@, successors@, k as int) == (
                    None::<ScoredCell>,
                    open@,
                ),
            decreases successors.len() - k,
        {
            let candidate = successors[k].clone();
            if self.is_destination(candidate.location.origin) && may_stop(&candidate, constraints) {
                proof {
                    assert(self.spec_absorb(constraints@, old(open)@, successors@, k + 1) == (
                        Some(candidate),
                        open@,
                    ));
                    self.lemma_absorb_found(
                        constraints@,
                        old(open)@,
                        successors@,
                        k + 1,
                        successors@.len() as int,
                    );
                }
                return Some(candidate);
            }
            if open_allows_candidate(&candidate, open) {
                open.push(candidate);
            }
            k += 1;
        }
        None
    }

    /// Searches for a plan of the agent that starts at `start` with at most `limit`
    /// expansions. Only the constraints that name `start` count.
    #[verifier::rlimit(40)]
    pub fn search(&self, start: Pair, constraints: &[Constraint], limit: usize) -> (out: Search<
        Path,
    >)
        requires
            self.wf(),
        ensures
            out@ == self.spec_search(start, constraints@, limit as nat),
            out matches Search::Found(path) ==> self.plan_ok(start, constraints@, path@),
    {
        proof {
            self.lemma_search_sound(start, constraints@, limit as nat);
        }
        let my_constraints = filter_constraints(start, constraints);
        let origin = start.extend(self.unit_extent);
        if !self.grid.in_bounds(origin) {
            return Search::Unreachable;
        }
        let estimate = *self.heuristic.get(start);
        if estimate == usize::MAX {
            return Search::Unreachable;
        }
        let mut open: Vec<ScoredCell> = Vec::new();
        open.push(ScoredCell { cost: estimate, duration: Pair(0, 0), location: origin, prev: None });
        let mut fuel: usize = limit;
        let ghost answer = self.spec_search(start, constraints@, limit as nat);
        proof {
            assert(open@ =~= seq![self.spec_initial(start)]);
        }
        loop
            invariant
                self.wf(),
                self.spec_run(my_constraints@, open@, fuel as nat) == answer,
                answer == self.spec_search(start, constraints@, limit as nat),
                answer matches Search::Found(path) ==> self.plan_ok(start, constraints@, path),
            decreases fuel,
        {
            if open.len() == 0 {
                return Search::Unreachable;
            }
            if fuel == 0 {
                return Search::LimitReached;
            }
            fuel = fuel - 1;
            let best = best_index(&open);
            let current = open.remove(best);
            let succ = self.successors(current, &my_constraints);
            match self.absorb(&my_constraints, &mut open, &succ) {
                Some(goal) => {
                    return Search::Found(reconstruct_path(goal));
                },
                None => {},
            }
        }
    }

    /// A plan of the agent that starts at `start` under the constraints that name it, if the
    /// search finds one.
    pub fn astar(&self, start: Pair, constraints: &[Constraint]) -> (out: Option<Path>)
        requires
            self.wf(),
        ensures
            match out {
                Some(path) => self.spec_astar(start, constraints@) == Some(path@) && self.plan_ok(
                    start,
                    constraints@,
                    path@,
                ),
                None => self.spec_astar(start, constraints@) is None,
            },
    {
        match self.search(start, constraints, usize::MAX) {
            Search::Found(path) => Some(path),
            _ => None,
        }
    }

    /// Once a goal is found among the successors, those after it change nothing.
    pub proof fn lemma_absorb_found(
        &self,
        constraints: Seq<Constraint>,
        open: Seq<ScoredCell>,
        successors: Seq<ScoredCell>,
        k: int,
        m: int,
    )
        requires
            0 <= k <= m,
            self.spec_absorb(constraints, open, successors, k).0 is Some,
        ensures
            self.spec_absorb(constraints, open, successors, m) == self.spec_absorb(
                constraints,
                open,
                successors,
                k,
            ),
        decreases m - k,
    {
        if k < m {
            self.lemma_absorb_found(constraints, open, successors, k, m - 1);
        }
    }
}

} // verus!
