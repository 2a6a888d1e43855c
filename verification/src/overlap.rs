//! Plans between which no collision is found never overlap.
use crate::astar::{apart, instance_error, AStar};
use crate::cbs::{spec_solve, stocked};
use crate::conflicts::{
    collide, conflicts_upto, cursor, finish, lemma_cursor_in_range, moved, row_conflicts,
    spec_conflicts, spec_makespan, spec_to_conflict, tick_conflicts, unit_at,
};
use crate::geometry::{Pair, Rect};
use crate::model::{
    end_tick, lemma_unfold_at, lemma_unfold_len, spec_unfold, timed, Conflict, ScoredCell,
};
use vstd::prelude::*;

verus! {

/// Looking at more agents loses no collision.
pub proof fn lemma_row_len(
    found: Seq<Conflict>,
    paths: Seq<Seq<ScoredCell>>,
    t: nat,
    i: int,
    upto: int,
)
    ensures
        row_conflicts(found, paths, t, i, upto).len() >= found.len(),
    decreases upto - i,
{
    if upto > i + 1 {
        lemma_row_len(found, paths, t, i, upto - 1);
    }
}

/// A collision of agent `i` with an agent after it is found.
pub proof fn lemma_row_hit(
    found: Seq<Conflict>,
    paths: Seq<Seq<ScoredCell>>,
    t: nat,
    i: int,
    upto: int,
    j: int,
)
    requires
        i < j < upto,
        collide(paths[i], paths[j], t),
    ensures
        row_conflicts(found, paths, t, i, upto).len() > found.len(),
    decreases upto - i,
{
    if j == upto - 1 {
        lemma_row_len(found, paths, t, i, upto - 1);
    } else {
        lemma_row_hit(found, paths, t, i, upto - 1, j);
    }
}

/// Looking at more agents loses no collision.
pub proof fn lemma_tick_len(found: Seq<Conflict>, paths: Seq<Seq<ScoredCell>>, t: nat, upto: int)
    ensures
        tick_conflicts(found, paths, t, upto).len() >= found.len(),
    decreases upto,
{
    if upto > 0 {
        lemma_tick_len(found, paths, t, upto - 1);
        lemma_row_len(
            tick_conflicts(found, paths, t, upto - 1),
            paths,
            t,
            upto - 1,
            paths.len() as int,
        );
    }
}

/// A collision between two agents at a tick is found at that tick.
pub proof fn lemma_tick_hit(
    found: Seq<Conflict>,
    paths: Seq<Seq<ScoredCell>>,
    t: nat,
    upto: int,
    i: int,
    j: int,
)
    requires
        0 <= i < upto,
        i < j < paths.len(),
        collide(paths[i], paths[j], t),
    ensures
        tick_conflicts(found, paths, t, upto).len() > found.len(),
    decreases upto,
{
    let before = tick_conflicts(found, paths, t, upto - 1);
    if i == upto - 1 {
        lemma_tick_len(found, paths, t, upto - 1);
        lemma_row_hit(before, paths, t, i, paths.len() as int, j);
    } else {
        lemma_tick_hit(found, paths, t, upto - 1, i, j);
        lemma_row_len(before, paths, t, upto - 1, paths.len() as int);
    }
}

/// Looking at more ticks loses no collision.
pub proof fn lemma_upto_len(found: Seq<Conflict>, paths: Seq<Seq<ScoredCell>>, end: nat)
    ensures
        conflicts_upto(found, paths, end).len() >= found.len(),
    decreases end,
{
    if end > 0 {
        lemma_upto_len(found, paths, (end - 1) as nat);
        lemma_tick_len(
            conflicts_upto(found, paths, (end - 1) as nat),
            paths,
            end,
            paths.len() as int,
        );
    }
}

/// The conflict is a collision of two of the agents at tick `t`.
pub open spec fn collision_at(paths: Seq<Seq<ScoredCell>>, t: nat, c: Conflict) -> bool {
    exists|i: int, j: int|
        0 <= i < j < paths.len() && collide(paths[i], paths[j], t) && c == #[trigger] spec_to_conflict(
            unit_at(paths[i], t),
            unit_at(paths[j], t),
        )
}

/// The conflict is a collision of two of the agents at a tick from 1 to `end`.
pub open spec fn collision_upto(paths: Seq<Seq<ScoredCell>>, end: nat, c: Conflict) -> bool {
    exists|t: nat| 1 <= t <= end && #[trigger] collision_at(paths, t, c)
}

/// What is found for agent `i` at a tick beyond what was found before are collisions of
/// `i` at that tick.
pub proof fn lemma_row_sound(
    found: Seq<Conflict>,
    paths: Seq<Seq<ScoredCell>>,
    t: nat,
    i: int,
    upto: int,
    at: int,
)
    requires
        0 <= i,
        upto <= paths.len(),
        found.len() <= at < row_conflicts(found, paths, t, i, upto).len(),
    ensures
        collision_at(paths, t, row_conflicts(found, paths, t, i, upto)[at]),
    decreases upto - i,
{
    lemma_row_len(found, paths, t, i, upto - 1);
    let before = row_conflicts(found, paths, t, i, upto - 1);
    if at < before.len() {
        lemma_row_sound(found, paths, t, i, upto - 1, at);
    } else {
        let j = upto - 1;
        assert(0 <= i < j < paths.len() && collide(paths[i], paths[j], t) && row_conflicts(
            found,
            paths,
            t,
            i,
            upto,
        )[at] == spec_to_conflict(unit_at(paths[i], t), unit_at(paths[j], t)));
    }
}

/// What was found before stays in its place.
pub proof fn lemma_row_keeps(
    found: Seq<Conflict>,
    paths: Seq<Seq<ScoredCell>>,
    t: nat,
    i: int,
    upto: int,
    at: int,
)
    requires
        0 <= at < found.len(),
    ensures
        row_conflicts(found, paths, t, i, upto).len() >= found.len(),
        row_conflicts(found, paths, t, i, upto)[at] == found[at],
    decreases upto - i,
{
    if upto > i + 1 {
        lemma_row_keeps(found, paths, t, i, upto - 1, at);
    }
}

/// What is found at a tick beyond what was found before are collisions at that tick.
pub proof fn lemma_tick_sound(
    found: Seq<Conflict>,
    paths: Seq<Seq<ScoredCell>>,
    t: nat,
    upto: int,
    at: int,
)
    requires
        upto <= paths.len(),
        found.len() <= at < tick_conflicts(found, paths, t, upto).len(),
    ensures
        collision_at(paths, t, tick_conflicts(found, paths, t, upto)[at]),
    decreases upto,
{
    let before = tick_conflicts(found, paths, t, upto - 1);
    lemma_tick_len(found, paths, t, upto - 1);
    if at < before.len() {
        lemma_tick_sound(found, paths, t, upto - 1, at);
        lemma_row_keeps(before, paths, t, upto - 1, paths.len() as int, at);
    } else {
        lemma_row_sound(before, paths, t, upto - 1, paths.len() as int, at);
    }
}

/// What was found before stays in its place.
pub proof fn lemma_tick_keeps(
    found: Seq<Conflict>,
    paths: Seq<Seq<ScoredCell>>,
    t: nat,
    upto: int,
    at: int,
)
    requires
        0 <= at < found.len(),
    ensures
        tick_conflicts(found, paths, t, upto).len() >= found.len(),
        tick_conflicts(found, paths, t, upto)[at] == found[at],
    decreases upto,
{
    if upto > 0 {
        lemma_tick_keeps(found, paths, t, upto - 1, at);
        lemma_row_keeps(
            tick_conflicts(found, paths, t, upto - 1),
            paths,
            t,
            upto - 1,
            paths.len() as int,
            at,
        );
    }
}

/// Every conflict that is found is a collision of two agents at a tick from 1 to `end`:
/// their footprints overlap at that tick, and one of them has just moved there.
pub proof fn lemma_conflicts_sound(paths: Seq<Seq<ScoredCell>>, end: nat, at: int)
    requires
        0 <= at < spec_conflicts(paths, end).len(),
    ensures
        collision_upto(paths, end, spec_conflicts(paths, end)[at]),
    decreases end,
{
    let before = conflicts_upto(Seq::empty(), paths, (end - 1) as nat);
    if at < before.len() {
        lemma_conflicts_sound(paths, (end - 1) as nat, at);
        lemma_tick_keeps(before, paths, end, paths.len() as int, at);
        let c = before[at];
        let t = choose|t: nat| 1 <= t <= end - 1 && #[trigger] collision_at(paths, t, c);
        assert(1 <= t <= end && collision_at(paths, t, c));
    } else {
        lemma_tick_sound(before, paths, end, paths.len() as int, at);
        assert(1 <= end <= end && collision_at(paths, end, spec_conflicts(paths, end)[at]));
    }
}

/// A collision between two agents at a tick from 1 to `end` is found.
pub proof fn lemma_upto_hit(
    found: Seq<Conflict>,
    paths: Seq<Seq<ScoredCell>>,
    end: nat,
    t: nat,
    i: int,
    j: int,
)
    requires
        1 <= t <= end,
        0 <= i < j < paths.len(),
        collide(paths[i], paths[j], t),
    ensures
        conflicts_upto(found, paths, end).len() > found.len(),
    decreases end,
{
    let before = conflicts_upto(found, paths, (end - 1) as nat);
    if t == end {
        lemma_upto_len(found, paths, (end - 1) as nat);
        lemma_tick_hit(before, paths, t, paths.len() as int, i, j);
    } else {
        lemma_upto_hit(found, paths, (end - 1) as nat, t, i, j);
        lemma_tick_len(before, paths, end, paths.len() as int);
    }
}

/// In a plan whose stays follow each other from tick 0, an agent that moves on to its next
/// stay when it has outstayed the one it is in is, at every tick of the plan, in the stay
/// that holds the tick.
pub proof fn lemma_cursor_holds(path: Seq<ScoredCell>, t: nat)
    requires
        timed(path),
        t <= end_tick(path),
    ensures
        0 <= cursor(path, t) < path.len(),
        path[cursor(path, t)].duration.0 <= t <= path[cursor(path, t)].duration.1,
    decreases t,
{
    lemma_cursor_in_range(path, t);
    if t > 0 {
        lemma_cursor_holds(path, (t - 1) as nat);
        let before = cursor(path, (t - 1) as nat);
        if t > path[before].duration.1 {
            if before < path.len() - 1 {
                assert(path[before + 1].duration.0 == path[before].duration.1 + 1);
            }
        }
    }
}

/// The footprint at a tick in the unfolding of a plan whose stays follow each other from
/// tick 0 is where the agent is at that tick.
pub proof fn lemma_place(path: Seq<ScoredCell>, t: nat)
    requires
        timed(path),
        t <= end_tick(path),
    ensures
        t < spec_unfold(path).len(),
        spec_unfold(path)[t as int] == unit_at(path, t).location,
{
    lemma_cursor_holds(path, t);
    lemma_unfold_at(path, cursor(path, t), t as int);
}

impl AStar {
    /// Entering a footprint of an agent costs at least one tick wherever the grid admits it.
    pub open spec fn costly(&self) -> bool {
        forall|rect: Rect| #[trigger]
            self.grid.admits(rect) && rect.extent == self.unit_extent ==> self.grid.spec_cost(rect)
                >= 1
    }

    /// Every stay of a plan of an agent is at a footprint of the extent of the agents.
    pub proof fn lemma_plan_extent(&self, uid: Pair, path: Seq<ScoredCell>, i: int)
        requires
            self.plan_of(uid, path),
            0 <= i < path.len(),
        ensures
            path[i].location.extent == self.unit_extent,
            i > 0 ==> self.grid.admits(path[i].location),
        decreases i,
    {
        if i > 0 {
            self.lemma_plan_extent(uid, path, i - 1);
            assert(self.step_ok(path[i - 1], path[i]));
            let around = self.grid.spec_neighbors(path[i - 1].location);
            self.grid.lemma_neighbors(path[i - 1].location);
            let at = choose|at: int| 0 <= at < around.len() && around[at] == path[i].location;
            assert(self.grid.admits(around[at]));
        }
    }

    /// Where entering a footprint costs at least one tick, the stays of a plan of an agent
    /// follow each other without a gap from tick 0, and none is empty.
    pub proof fn lemma_plan_timed(&self, uid: Pair, path: Seq<ScoredCell>)
        requires
            self.costly(),
            self.plan_of(uid, path),
        ensures
            timed(path),
    {
        assert forall|i: int| 0 <= i < path.len() - 1 implies path[i + 1].duration.0 == (
        #[trigger] path[i]).duration.1 + 1 by {
            assert(self.step_ok(path[i], path[i + 1]));
        }
        assert forall|i: int| 0 <= i < path.len() implies (#[trigger] path[i]).duration.0
            <= path[i].duration.1 by {
            if i > 0 {
                assert(self.step_ok(path[i - 1], path[i]));
                self.lemma_plan_extent(uid, path, i);
                assert(self.grid.admits(path[i].location));
            }
        }
    }

    /// Two agents whose plans are without collision up to the tick at which all plans end
    /// are never at overlapping footprints.
    pub proof fn lemma_apart_at(&self, paths: Seq<Seq<ScoredCell>>, t: nat, i: int, j: int)
        requires
            self.wf(),
            self.plans_ok(paths),
            spec_conflicts(paths, spec_makespan(paths) as nat).len() == 0,
            0 <= i < j < paths.len(),
            t <= spec_makespan(paths),
        ensures
            !unit_at(paths[i], t).location.spec_intersects(unit_at(paths[j], t).location),
        decreases t,
    {
        assert(self.plan_of(self.origins@[i], paths[i]));
        assert(self.plan_of(self.origins@[j], paths[j]));
        if t == 0 {
            assert(instance_error(self.grid, self.origins@, self.destinations@, self.unit_extent)
                is None);
            assert(apart(self.origins@, self.unit_extent));
        } else {
            self.lemma_apart_at(paths, (t - 1) as nat, i, j);
            if collide(paths[i], paths[j], t) {
                lemma_upto_hit(Seq::empty(), paths, spec_makespan(paths) as nat, t, i, j);
            }
        }
    }

    /// At no tick up to the last do the plans of two agents that the search returns have
    /// overlapping footprints, where entering a footprint costs at least one tick.
    pub proof fn lemma_no_overlap(&self, batch: usize, limit: nat, i: int, j: int, t: int)
        requires
            self.wf(),
            self.costly(),
        ensures
            spec_solve(self, batch, limit) matches Ok(paths) ==> (0 <= i < j < paths.len() && 0 <= t
                <= spec_makespan(paths) ==> {
                &&& t < spec_unfold(paths[i]).len()
                &&& t < spec_unfold(paths[j]).len()
                &&& !spec_unfold(paths[i])[t].spec_intersects(spec_unfold(paths[j])[t])
            }),
    {
        self.lemma_solve_ok(batch, limit);
        match spec_solve(self, batch, limit) {
            Ok(paths) => {
                if 0 <= i < j < paths.len() && 0 <= t <= spec_makespan(paths) {
                    let end = spec_makespan(paths);
                    assert(self.plan_of(self.origins@[i], paths[i]));
                    assert(self.plan_of(self.origins@[j], paths[j]));
                    self.lemma_plan_timed(self.origins@[i], paths[i]);
                    self.lemma_plan_timed(self.origins@[j], paths[j]);
                    assert(finish(paths[i]) == end);
                    assert(finish(paths[j]) == end);
                    assert(stocked(paths));
                    self.lemma_apart_at(paths, t as nat, i, j);
                    lemma_place(paths[i], t as nat);
                    lemma_place(paths[j], t as nat);
                }
            },
            Err(_) => {},
        }
    }

    /// Every plan that the search returns unfolds into one footprint for each tick from 0
    /// to the last tick of the plans, where entering a footprint costs at least one tick.
    pub proof fn lemma_unfold_all(&self, batch: usize, limit: nat, i: int)
        requires
            self.costly(),
        ensures
            spec_solve(self, batch, limit) matches Ok(paths) ==> (0 <= i < paths.len()
                ==> spec_unfold(paths[i]).len() == spec_makespan(paths) + 1),
    {
        self.lemma_solve_ok(batch, limit);
        match spec_solve(self, batch, limit) {
            Ok(paths) => {
                if 0 <= i < paths.len() {
                    assert(self.plan_of(self.origins@[i], paths[i]));
                    self.lemma_plan_timed(self.origins@[i], paths[i]);
                    assert(finish(paths[i]) == spec_makespan(paths));
                    lemma_unfold_len(paths[i]);
                }
            },
            Err(_) => {},
        }
    }
}

} // verus!
