//! Plans of several agents side by side: their common last tick, and where they collide.
use crate::geometry::{Pair, Rect};
use crate::model::{Conflict, ConflictInfo, Path, ScoredCell};
use vstd::prelude::*;

verus! {

/// Where one agent is at a tick: which of its stays it is in, and that stay.
#[derive(Clone, Copy, Debug, PartialEq, Eq, Structural)]
pub struct UnitState {
    pub uid: Pair,
    pub path_idx: usize,
    pub location: Rect,
    pub duration: Pair,
}

/// The plans as sequences of stays.
pub open spec fn views(paths: Seq<Path>) -> Seq<Seq<ScoredCell>> {
    Seq::new(paths.len(), |i: int| paths[i]@)
}

/// The last tick of the plan, 0 for a plan without stays.
pub open spec fn finish(path: Seq<ScoredCell>) -> usize {
    if path.len() == 0 {
        0
    } else {
        path.last().duration.1
    }
}

/// The latest of the last ticks of the plans.
pub open spec fn spec_makespan(paths: Seq<Seq<ScoredCell>>) -> usize
    decreases paths.len(),
{
    if paths.len() == 0 {
        0
    } else {
        let before = spec_makespan(paths.drop_last());
        if finish(paths.last()) > before {
            finish(paths.last())
        } else {
            before
        }
    }
}

/// The stay made to last until `end`.
pub open spec fn held_until(cell: ScoredCell, end: usize) -> ScoredCell {
    ScoredCell {
        location: cell.location,
        duration: Pair(cell.duration.0, end),
        cost: cell.cost,
        prev: cell.prev,
    }
}

/// The plan with its last stay made to last until `end`.
pub open spec fn spec_extend_path(path: Seq<ScoredCell>, end: usize) -> Seq<ScoredCell> {
    if path.len() == 0 {
        path
    } else {
        path.update(path.len() - 1, held_until(path.last(), end))
    }
}

/// The plans with their last stays made to last until `end`.
pub open spec fn spec_extend(paths: Seq<Seq<ScoredCell>>, end: usize) -> Seq<Seq<ScoredCell>> {
    Seq::new(paths.len(), |i: int| spec_extend_path(paths[i], end))
}

/// The index of the stay in which the agent is at tick `t`, if it moves on to its next stay
/// at the first tick after the last of the stay it is in, one stay in a tick.
pub open spec fn cursor(path: Seq<ScoredCell>, t: nat) -> int
    decreases t,
{
    if t == 0 {
        0
    } else {
        let before = cursor(path, (t - 1) as nat);
        if t > path[before].duration.1 && before < path.len() - 1 {
            before + 1
        } else {
            before
        }
    }
}

/// The agent moves on to its next stay at tick `t`.
pub open spec fn moved(path: Seq<ScoredCell>, t: nat) -> bool {
    t > 0 && cursor(path, t) != cursor(path, (t - 1) as nat)
}

/// Where the agent is at tick `t`. The agent is named by the origin of its first footprint.
pub open spec fn unit_at(path: Seq<ScoredCell>, t: nat) -> UnitState {
    UnitState {
        uid: path[0].location.origin,
        path_idx: cursor(path, t) as usize,
        location: path[cursor(path, t)].location,
        duration: path[cursor(path, t)].duration,
    }
}

/// The two sides of a collision.
pub open spec fn spec_to_conflict(a: UnitState, b: UnitState) -> Conflict {
    Conflict(
        ConflictInfo { uid: a.uid, location: a.location, duration: a.duration },
        ConflictInfo { uid: b.uid, location: b.location, duration: b.duration },
    )
}

/// The two agents collide at tick `t`: their footprints overlap, and one of them has just
/// moved there.
pub open spec fn collide(a: Seq<ScoredCell>, b: Seq<ScoredCell>, t: nat) -> bool {
    unit_at(a, t).location.spec_intersects(unit_at(b, t).location) && (moved(a, t) || moved(b, t))
}

/// `found`, then the collisions at tick `t` of agent `i` with the agents after it and
/// before `upto`.
pub open spec fn row_conflicts(
    found: Seq<Conflict>,
    paths: Seq<Seq<ScoredCell>>,
    t: nat,
    i: int,
    upto: int,
) -> Seq<Conflict>
    decreases upto - i,
{
    if upto <= i + 1 {
        found
    } else {
        let before = row_conflicts(found, paths, t, i, upto - 1);
        if collide(paths[i], paths[upto - 1], t) {
            before.push(spec_to_conflict(unit_at(paths[i], t), unit_at(paths[upto - 1], t)))
        } else {
            before
        }
    }
}

/// `found`, then the collisions at tick `t` of the agents before `upto` with the agents
/// after them.
pub open spec fn tick_conflicts(
    found: Seq<Conflict>,
    paths: Seq<Seq<ScoredCell>>,
    t: nat,
    upto: int,
) -> Seq<Conflict>
    decreases upto,
{
    if upto <= 0 {
        found
    } else {
        row_conflicts(
            tick_conflicts(found, paths, t, upto - 1),
            paths,
            t,
            upto - 1,
            paths.len() as int,
        )
    }
}

/// `found`, then the collisions at the ticks from 1 to `end`, tick after tick.
pub open spec fn conflicts_upto(
    found: Seq<Conflict>,
    paths: Seq<Seq<ScoredCell>>,
    end: nat,
) -> Seq<Conflict>
    decreases end,
{
    if end == 0 {
        found
    } else {
        tick_conflicts(
            conflicts_upto(found, paths, (end - 1) as nat),
            paths,
            end,
            paths.len() as int,
        )
    }
}

/// The collisions of the plans at the ticks from 1 to `end`.
pub open spec fn spec_conflicts(paths: Seq<Seq<ScoredCell>>, end: nat) -> Seq<Conflict> {
    conflicts_upto(Seq::empty(), paths, end)
}

/// The agent is in one of its stays at every tick.
pub proof fn lemma_cursor_in_range(path: Seq<ScoredCell>, t: nat)
    requires
        path.len() >= 1,
    ensures
        0 <= cursor(path, t) < path.len(),
    decreases t,
{
    if t > 0 {
        lemma_cursor_in_range(path, (t - 1) as nat);
    }
}

/// A copy of the plan.
pub fn clone_path(path: &Path) -> (out: Path)
    ensures
        out@ == path@,
{
    let mut out: Vec<ScoredCell> = Vec::new();
    let mut i: usize = 0;
    while i < path.len()
        invariant
            0 <= i <= path.len(),
            out@ == path@.take(i as int),
        decreases path.len() - i,
    {
        out.push(path[i].clone());
        proof {
            assert(out@ =~= path@.take(i + 1));
        }
        i += 1;
    }
    proof {
        assert(path@.take(path@.len() as int) =~= path@);
    }
    out
}

/// A copy of the plans.
pub fn clone_paths(paths: &Vec<Path>) -> (out: Vec<Path>)
    ensures
        views(out@) == views(paths@),
{
    let mut out: Vec<Path> = Vec::new();
    let mut i: usize = 0;
    while i < paths.len()
        invariant
            0 <= i <= paths.len(),
            out@.len() == i,
            forall|j: int| 0 <= j < i ==> (#[trigger] out@[j])@ == paths@[j]@,
        decreases paths.len() - i,
    {
        out.push(clone_path(&paths[i]));
        i += 1;
    }
    proof {
        assert(views(out@) =~= views(paths@));
    }
    out
}

/// The latest of the last ticks of the plans.
pub fn makespan(paths: &Vec<Path>) -> (out: usize)
    ensures
        out == spec_makespan(views(paths@)),
{
    let mut end_time: usize = 0;
    let mut i: usize = 0;
    while i < paths.len()
        invariant
            0 <= i <= paths.len(),
            end_time == spec_makespan(views(paths@).take(i as int)),
        decreases paths.len() - i,
    {
        proof {
            assert(views(paths@).take(i + 1).drop_last() =~= views(paths@).take(i as int));
            assert(views(paths@).take(i + 1).last() == paths@[i as int]@);
        }
        let path = &paths[i];
        if path.len() > 0 && path[path.len() - 1].duration.1 > end_time {
            end_time = path[path.len() - 1].duration.1;
        }
        i += 1;
    }
    proof {
        assert(views(paths@).take(paths@.len() as int) =~= views(paths@));
    }
    end_time
}

/// The plan with its last stay made to last until `end`.
pub fn extend_path(path: &Path, end: usize) -> (out: Path)
    ensures
        out@ == spec_extend_path(path@, end),
{
    let mut out = clone_path(path);
    if out.len() > 0 {
        let idx = out.len() - 1;
        let last = out[idx].clone();
        out.set(
            idx,
            ScoredCell {
                location: last.location,
                duration: Pair(last.duration.0, end),
                cost: last.cost,
                prev: last.prev,
            },
        );
    }
    out
}

/// The plans with their last stays made to last until `end`.
pub fn extend_all(paths: &Vec<Path>, end: usize) -> (out: Vec<Path>)
    ensures
        views(out@) == spec_extend(views(paths@), end),
{
    let mut out: Vec<Path> = Vec::new();
    let mut i: usize = 0;
    while i < paths.len()
        invariant
            0 <= i <= paths.len(),
            out@.len() == i,
            forall|j: int| 0 <= j < i ==> (#[trigger] out@[j])@ == spec_extend_path(paths@[j]@, end),
        decreases paths.len() - i,
    {
        out.push(extend_path(&paths[i], end));
        i += 1;
    }
    proof {
        assert(views(out@) =~= spec_extend(views(paths@), end));
    }
    out
}

/// The two sides of a collision.
pub fn to_conflict(state_i: &UnitState, state_j: &UnitState) -> (out: Conflict)
    ensures
        out == spec_to_conflict(*state_i, *state_j),
{
    let cii = ConflictInfo {
        uid: state_i.uid,
        location: state_i.location,
        duration: state_i.duration,
    };
    let cij = ConflictInfo {
        uid: state_j.uid,
        location: state_j.location,
        duration: state_j.duration,
    };
    Conflict(cii, cij)
}

/// The agents move on by one tick, to tick `time`: each that has outstayed its stay and has
/// a next one moves on to it. Returns which of them did.
pub fn advance(paths: &Vec<Path>, state: &mut Vec<UnitState>, time: usize) -> (out: Vec<bool>)
    requires
        time >= 1,
        old(state)@.len() == paths@.len(),
        forall|i: int| 0 <= i < paths@.len() ==> (#[trigger] paths@[i])@.len() >= 1,
        forall|i: int|
            0 <= i < paths@.len() ==> #[trigger] old(state)@[i] == unit_at(
                paths@[i]@,
                (time - 1) as nat,
            ),
    ensures
        final(state)@.len() == paths@.len(),
        out@.len() == paths@.len(),
        forall|i: int|
            0 <= i < paths@.len() ==> #[trigger] final(state)@[i] == unit_at(
                paths@[i]@,
                time as nat,
            ),
        forall|i: int| 0 <= i < paths@.len() ==> #[trigger] out@[i] == moved(paths@[i]@, time as nat),
{
    let mut out: Vec<bool> = Vec::new();
    let mut i: usize = 0;
    while i < paths.len()
        invariant
            time >= 1,
            0 <= i <= paths.len(),
            state@.len() == paths@.len(),
            out@.len() == i,
            forall|k: int| 0 <= k < paths@.len() ==> (#[trigger] paths@[k])@.len() >= 1,
            forall|k: int|
                0 <= k < i ==> #[trigger] state@[k] == unit_at(paths@[k]@, time as nat),
            forall|k: int|
                i <= k < paths@.len() ==> #[trigger] state@[k] == unit_at(
                    paths@[k]@,
                    (time - 1) as nat,
                ),
            forall|k: int| 0 <= k < i ==> #[trigger] out@[k] == moved(paths@[k]@, time as nat),
        decreases paths.len() - i,
    {
        let path = &paths[i];
        let unit = state[i];
        let idx = unit.path_idx;
        let stays = path.len();
        proof {
            assert(paths@[i as int]@.len() >= 1);
            lemma_cursor_in_range(path@, (time - 1) as nat);
            assert(cursor(path@, (time - 1) as nat) < stays);
            assert(state@[i as int] == unit_at(paths@[i as int]@, (time - 1) as nat));
        }
        if time > path[idx].duration.1 && idx < path.len() - 1 {
            state.set(
                i,
                UnitState {
                    uid: unit.uid,
                    path_idx: idx + 1,
                    location: path[idx + 1].location,
                    duration: path[idx + 1].duration,
                },
            );
            out.push(true);
        } else {
            out.push(false);
        }
        proof {
            let p = paths@[i as int]@;
            let before = cursor(p, (time - 1) as nat);
            assert(before == idx);
            assert(cursor(p, time as nat) == if time > p[before].duration.1 && before < p.len()
                - 1 {
                before + 1
            } else {
                before
            });
            assert(state@[i as int] == unit_at(p, time as nat));
            assert(out@[i as int] == moved(p, time as nat));
        }
        i += 1;
    }
    out
}

/// Where the agents are at tick 0.
pub fn starting_state(paths: &Vec<Path>) -> (out: Vec<UnitState>)
    requires
        forall|i: int| 0 <= i < paths@.len() ==> (#[trigger] paths@[i])@.len() >= 1,
    ensures
        out@.len() == paths@.len(),
        forall|i: int| 0 <= i < paths@.len() ==> #[trigger] out@[i] == unit_at(paths@[i]@, 0),
{
    let mut state: Vec<UnitState> = Vec::new();
    let mut i: usize = 0;
    while i < paths.len()
        invariant
            0 <= i <= paths.len(),
            state@.len() == i,
            forall|k: int| 0 <= k < paths@.len() ==> (#[trigger] paths@[k])@.len() >= 1,
            forall|k: int| 0 <= k < i ==> #[trigger] state@[k] == unit_at(paths@[k]@, 0),
        decreases paths.len() - i,
    {
        let path = &paths[i];
        assert(paths@[i as int]@.len() >= 1);
        state.push(
            UnitState {
                uid: path[0].location.origin,
                path_idx: 0,
                location: path[0].location,
                duration: path[0].duration,
            },
        );
        i += 1;
    }
    state
}

/// Appends the collisions at one tick, given where the agents are and which of them have
/// just moved.
pub fn collisions_at(
    paths: &Vec<Path>,
    state: &Vec<UnitState>,
    has_moved: &Vec<bool>,
    time: usize,
    found: &mut Vec<Conflict>,
)
    requires
        state@.len() == paths@.len(),
        has_moved@.len() == paths@.len(),
        forall|i: int|
            0 <= i < paths@.len() ==> #[trigger] state@[i] == unit_at(paths@[i]@, time as nat),
        forall|i: int|
            0 <= i < paths@.len() ==> #[trigger] has_moved@[i] == moved(paths@[i]@, time as nat),
    ensures
        final(found)@ == tick_conflicts(
            old(found)@,
            views(paths@),
            time as nat,
            paths@.len() as int,
        ),
{
    let count = paths.len();
    let ghost all = views(paths@);
    let mut i: usize = 0;
    while i < count
        invariant
            count == paths@.len(),
            all == views(paths@),
            state@.len() == count,
            has_moved@.len() == count,
            0 <= i <= count,
            forall|k: int|
                0 <= k < count ==> #[trigger] state@[k] == unit_at(paths@[k]@, time as nat),
            forall|k: int|
                0 <= k < count ==> #[trigger] has_moved@[k] == moved(paths@[k]@, time as nat),
            found@ == tick_conflicts(old(found)@, all, time as nat, i as int),
        decreases count - i,
    {
        let ghost base = found@;
        let mut j: usize = i + 1;
        while j < count
            invariant
                count == paths@.len(),
                all == views(paths@),
                state@.len() == count,
                has_moved@.len() == count,
                0 <= i < count,
                i + 1 <= j <= count,
                forall|k: int|
                    0 <= k < count ==> #[trigger] state@[k] == unit_at(paths@[k]@, time as nat),
                forall|k: int|
                    0 <= k < count ==> #[trigger] has_moved@[k] == moved(
                        paths@[k]@,
                        time as nat,
                    ),
                found@ == row_conflicts(base, all, time as nat, i as int, j as int),
            decreases count - j,
        {
            proof {
                assert(all[i as int] == paths@[i as int]@);
                assert(all[j as int] == paths@[j as int]@);
                assert(state@[i as int] == unit_at(paths@[i as int]@, time as nat));
                assert(state@[j as int] == unit_at(paths@[j as int]@, time as nat));
                assert(has_moved@[i as int] == moved(paths@[i as int]@, time as nat));
                assert(has_moved@[j as int] == moved(paths@[j as int]@, time as nat));
            }
            let intersects = state[i].location.intersects(state[j].location);
            let includes_moved = has_moved[i] || has_moved[j];
            if intersects && includes_moved {
                found.push(to_conflict(&state[i], &state[j]));
            }
            j += 1;
        }
        i += 1;
    }
}

/// The collisions of the plans at the ticks from 1 to `end_time`, tick after tick, at each
/// tick by the first agent and then by the second.
pub fn detect_conflicts(paths: &Vec<Path>, end_time: usize) -> (out: Vec<Conflict>)
    requires
        forall|i: int| 0 <= i < paths@.len() ==> (#[trigger] paths@[i])@.len() >= 1,
    ensures
        out@ == spec_conflicts(views(paths@), end_time as nat),
{
    let mut state = starting_state(paths);
    let mut found: Vec<Conflict> = Vec::new();
    let mut time: usize = 0;
    while time < end_time
        invariant
            0 <= time <= end_time,
            state@.len() == paths@.len(),
            forall|i: int| 0 <= i < paths@.len() ==> (#[trigger] paths@[i])@.len() >= 1,
            forall|i: int|
                0 <= i < paths@.len() ==> #[trigger] state@[i] == unit_at(paths@[i]@, time as nat),
            found@ == conflicts_upto(Seq::empty(), views(paths@), time as nat),
        decreases end_time - time,
    {
        time += 1;
        let has_moved = advance(paths, &mut state, time);
        collisions_at(paths, &state, &has_moved, time, &mut found);
    }
    found
}

} // verus!
