//! Cheapest routes between footprints of one extent, and the search that finds their cost.
use crate::geometry::{Pair, Rect};
use crate::grid::Grid;
use crate::map_ext::HashMapExt;
use crate::model::{saturating_sum, CellInfo};
use std::collections::HashMap;
use vstd::prelude::*;

verus! {

broadcast use vstd::std_specs::hash::group_hash_axioms;

/// The footprint of the given extent whose lower corner is `p`.
pub open spec fn rect_at(p: Pair, extent: Pair) -> Rect {
    Rect { origin: p, extent }
}

/// The cost recorded for each origin at which the footprint lies inside the grid.
pub struct Costs {
    pub extent: Pair,
    pub value: spec_fn(Pair) -> usize,
}

impl Costs {
    /// `p` is an origin of the table.
    pub open spec fn has(self, p: Pair) -> bool {
        p.0 <= self.extent.0 && p.1 <= self.extent.1
    }

    /// The cost recorded for `p`.
    pub open spec fn at(self, p: Pair) -> usize {
        (self.value)(p)
    }
}

/// Which origins are settled.
pub struct Flags {
    pub extent: Pair,
    pub value: spec_fn(Pair) -> bool,
}

impl Flags {
    /// `p` is an origin of the table.
    pub open spec fn has(self, p: Pair) -> bool {
        p.0 <= self.extent.0 && p.1 <= self.extent.1
    }

    /// Whether `p` is settled.
    pub open spec fn at(self, p: Pair) -> bool {
        (self.value)(p)
    }
}

/// The settled origins: those with a final cost.
pub open spec fn flags_of(closed: Grid<usize>) -> Flags {
    Flags { extent: closed.spec_extent(), value: |p: Pair| closed.has(p) && closed.at(p) != usize::MAX }
}

/// The cost recorded for an origin: its final cost if it is settled, else its cost in the
/// frontier, else infinite.
pub open spec fn costs_of(open: Map<usize, usize>, closed: Grid<usize>) -> Costs {
    Costs {
        extent: closed.spec_extent(),
        value: |p: Pair|
            if !closed.has(p) {
                usize::MAX
            } else if closed.at(p) != usize::MAX {
                closed.at(p)
            } else if open.contains_key(closed.index_of(p) as usize) {
                open[closed.index_of(p) as usize]
            } else {
                usize::MAX
            },
    }
}

/// The frontier holds finite costs for origins that are not settled.
pub open spec fn frontier_ok(open: Map<usize, usize>, closed: Grid<usize>) -> bool {
    forall|k: usize| #[trigger]
        open.contains_key(k) ==> k < closed.cells().len() && closed.cells()[k as int] == usize::MAX
            && open[k] < usize::MAX
}

/// How many entries are infinite.
pub open spec fn count_pending(closed: Seq<usize>) -> nat
    decreases closed.len(),
{
    if closed.len() == 0 {
        0
    } else {
        count_pending(closed.drop_last()) + if closed.last() == usize::MAX {
            1nat
        } else {
            0nat
        }
    }
}

/// Settling one pending entry leaves one pending entry fewer.
pub proof fn lemma_count_settle(closed: Seq<usize>, i: int, value: usize)
    requires
        0 <= i < closed.len(),
        closed[i] == usize::MAX,
        value < usize::MAX,
    ensures
        count_pending(closed.update(i, value)) + 1 == count_pending(closed),
    decreases closed.len(),
{
    let after = closed.update(i, value);
    if i == closed.len() - 1 {
        assert(after.drop_last() =~= closed.drop_last());
    } else {
        assert(after.drop_last() =~= closed.drop_last().update(i, value));
        lemma_count_settle(closed.drop_last(), i, value);
    }
}

impl Grid<CellInfo> {
    /// A route: a sequence of footprints in which each but the first is a neighbour of the
    /// one before it.
    pub open spec fn is_route(&self, r: Seq<Rect>) -> bool {
        &&& r.len() >= 1
        &&& forall|i: int|
            0 <= i < r.len() - 1 ==> self.spec_neighbors(#[trigger] r[i]).contains(r[i + 1])
    }

    /// A route that starts at `to`.
    pub open spec fn route_from(&self, to: Rect, r: Seq<Rect>) -> bool {
        self.is_route(r) && r[0] == to
    }

    /// What an agent pays that travels the route from its last footprint to its first:
    /// the cost of every footprint it enters, which is each but the last.
    pub open spec fn toll(&self, r: Seq<Rect>) -> int
        decreases r.len(),
    {
        if r.len() <= 1 {
            0
        } else {
            self.toll(r.drop_last()) + self.spec_cost(r[r.len() - 2])
        }
    }

    /// Costs are never negative.
    pub proof fn lemma_sum_costs_nonneg(&self, cells: Seq<Pair>)
        ensures
            self.sum_costs(cells) >= 0,
        decreases cells.len(),
    {
        if cells.len() > 0 {
            self.lemma_sum_costs_nonneg(cells.drop_last());
        }
    }

    /// A route without its last footprint is a route with the same start.
    pub proof fn lemma_route_prefix(&self, to: Rect, r: Seq<Rect>)
        requires
            self.route_from(to, r),
            r.len() >= 2,
        ensures
            self.route_from(to, r.drop_last()),
            self.spec_neighbors(r.drop_last().last()).contains(r.last()),
            self.toll(r) == self.toll(r.drop_last()) + self.spec_cost(r.drop_last().last()),
            self.toll(r.drop_last()) <= self.toll(r),
    {
        let p = r.drop_last();
        assert forall|i: int| 0 <= i < p.len() - 1 implies self.spec_neighbors(
            #[trigger] p[i],
        ).contains(p[i + 1]) by {
            assert(p[i] == r[i]);
            assert(p[i + 1] == r[i + 1]);
        }
        assert(r[r.len() - 2] == p.last());
        self.lemma_sum_costs_nonneg(p.last().spec_cells());
    }

    /// A route extended by a neighbour of its last footprint is a route with the same start,
    /// and costs the entry into what was its last footprint more.
    pub proof fn lemma_route_push(&self, to: Rect, r: Seq<Rect>, next: Rect)
        requires
            self.route_from(to, r),
            self.spec_neighbors(r.last()).contains(next),
        ensures
            self.route_from(to, r.push(next)),
            self.toll(r.push(next)) == self.toll(r) + self.spec_cost(r.last()),
    {
        let e = r.push(next);
        assert forall|i: int| 0 <= i < e.len() - 1 implies self.spec_neighbors(
            #[trigger] e[i],
        ).contains(e[i + 1]) by {
            if i < r.len() - 1 {
                assert(e[i] == r[i]);
                assert(e[i + 1] == r[i + 1]);
            }
        }
        assert(e.drop_last() =~= r);
    }

    /// Every footprint of a route that starts inside the grid lies inside the grid and has
    /// the extent of the first.
    pub proof fn lemma_route_inside(&self, to: Rect, r: Seq<Rect>, i: int)
        requires
            self.contains_rect(to),
            self.route_from(to, r),
            0 <= i < r.len(),
        ensures
            self.contains_rect(r[i]),
            r[i].extent == to.extent,
            i > 0 ==> self.admits(r[i]),
        decreases i,
    {
        if i > 0 {
            self.lemma_route_inside(to, r, i - 1);
            let before = r[i - 1];
            let around = self.spec_neighbors(before);
            self.lemma_neighbors(before);
            assert(around.contains(r[i]));
            let k = choose|k: int| 0 <= k < around.len() && around[k] == r[i];
            assert(self.admits(around[k]));
        }
    }

    /// The two tables of the search cover the origins at which the footprint lies inside
    /// the grid.
    pub open spec fn tables(&self, to: Rect, dist: Costs, done: Flags) -> bool {
        &&& self.wf()
        &&& self.contains_rect(to)
        &&& dist.extent == self.spec_effective_extent(to.extent)
        &&& done.extent == self.spec_effective_extent(to.extent)
    }

    /// The origin of the last footprint of a route from `to` is a cell of the tables.
    pub proof fn lemma_route_end(&self, to: Rect, dist: Costs, done: Flags, r: Seq<Rect>)
        requires
            self.tables(to, dist, done),
            self.route_from(to, r),
        ensures
            dist.has(r.last().origin),
            done.has(r.last().origin),
            r.last() == rect_at(r.last().origin, to.extent),
    {
        self.lemma_route_inside(to, r, r.len() - 1);
    }

    /// The origin of a neighbour of a footprint of the tables is a cell of the tables.
    pub proof fn lemma_neighbor_end(
        &self,
        to: Rect,
        dist: Costs,
        done: Flags,
        u: Rect,
        i: int,
    )
        requires
            self.tables(to, dist, done),
            u.extent == to.extent,
            0 <= i < self.spec_neighbors(u).len(),
        ensures
            dist.has(self.spec_neighbors(u)[i].origin),
            done.has(self.spec_neighbors(u)[i].origin),
            self.spec_neighbors(u)[i] == rect_at(self.spec_neighbors(u)[i].origin, to.extent),
            self.spec_neighbors(u).contains(self.spec_neighbors(u)[i]),
    {
        self.lemma_neighbors(u);
        let v = self.spec_neighbors(u)[i];
        assert(self.admits(v) && v.extent == u.extent);
    }
}

/// No route to a settled footprint is cheaper than its recorded cost.
#[verifier::opaque]
pub open spec fn settled_bound(
    grid: Grid<CellInfo>,
    to: Rect,
    dist: Costs,
    done: Flags,
) -> bool {
    forall|r: Seq<Rect>| #[trigger]
        grid.route_from(to, r) && done.at(r.last().origin) ==> dist.at(r.last().origin)
            <= grid.toll(r)
}

/// The first `upto` neighbours of `u` that are pending are recorded at no more than `bound`.
#[verifier::opaque]
pub open spec fn relaxed_from(
    grid: Grid<CellInfo>,
    u: Rect,
    bound: int,
    dist: Costs,
    done: Flags,
    upto: int,
) -> bool {
    forall|i: int|
        0 <= i < upto && i < grid.spec_neighbors(u).len() ==> {
            let v = #[trigger] grid.spec_neighbors(u)[i];
            !done.at(v.origin) ==> dist.at(v.origin) <= bound
        }
}

/// Every pending neighbour of a settled footprint other than `except` is recorded at no more
/// than the way through that footprint costs.
#[verifier::opaque]
pub open spec fn relaxed(
    grid: Grid<CellInfo>,
    extent: Pair,
    dist: Costs,
    done: Flags,
    except: Option<Pair>,
) -> bool {
    forall|u: Pair|
        dist.has(u) && #[trigger] done.at(u) && Some(u) != except ==> relaxed_from(
            grid,
            rect_at(u, extent),
            dist.at(u) + grid.spec_cost(rect_at(u, extent)),
            dist,
            done,
            4,
        )
}

/// Every finite recorded cost is the toll of a route from `to`.
#[verifier::opaque]
pub open spec fn witnessed(grid: Grid<CellInfo>, to: Rect, dist: Costs) -> bool {
    forall|p: Pair|
        dist.has(p) && #[trigger] dist.at(p) < usize::MAX ==> exists|r: Seq<Rect>|
            grid.route_from(to, r) && r.last() == rect_at(p, to.extent) && grid.toll(r) == dist.at(
                p,
            )
}

/// No recorded cost has grown, and those of settled footprints are unchanged.
#[verifier::opaque]
pub open spec fn lowered(before: Costs, after: Costs, done: Flags) -> bool {
    forall|p: Pair|
        before.has(p) ==> (#[trigger] after.at(p)) <= before.at(p) && (done.at(p) ==> after.at(p)
            == before.at(p))
}

/// While the last footprint of a route is pending, some pending footprint is recorded at no
/// more than the route's toll.
pub proof fn lemma_pending_bound(
    grid: Grid<CellInfo>,
    to: Rect,
    dist: Costs,
    done: Flags,
    r: Seq<Rect>,
)
    requires
        grid.tables(to, dist, done),
        !done.at(to.origin) ==> dist.at(to.origin) == 0,
        settled_bound(grid, to, dist, done),
        relaxed(grid, to.extent, dist, done, None),
        grid.route_from(to, r),
        !done.at(r.last().origin),
    ensures
        exists|w: Pair| dist.has(w) && !done.at(w) && dist.at(w) <= grid.toll(r),
    decreases r.len(),
{
    grid.lemma_route_end(to, dist, done, r);
    if r.len() == 1 {
        assert(dist.has(to.origin) && !done.at(to.origin) && dist.at(to.origin) <= grid.toll(r));
    } else {
        let p = r.drop_last();
        let u = p.last();
        let v = r.last();
        grid.lemma_route_prefix(to, r);
        grid.lemma_route_end(to, dist, done, p);
        if done.at(u.origin) {
            reveal(settled_bound);
            reveal(relaxed);
            reveal(relaxed_from);
            assert(grid.route_from(to, p));
            assert(dist.at(u.origin) <= grid.toll(p));
            let around = grid.spec_neighbors(u);
            let k = choose|k: int| 0 <= k < around.len() && around[k] == v;
            grid.lemma_neighbors(u);
            assert(relaxed_from(
                grid,
                rect_at(u.origin, to.extent),
                dist.at(u.origin) + grid.spec_cost(rect_at(u.origin, to.extent)),
                dist,
                done,
                4,
            ));
            assert(around[k] == v);
            assert(dist.at(v.origin) <= dist.at(u.origin) + grid.spec_cost(u));
            assert(dist.has(v.origin) && !done.at(v.origin) && dist.at(v.origin) <= grid.toll(r));
        } else {
            lemma_pending_bound(grid, to, dist, done, p);
            let w = choose|w: Pair| dist.has(w) && !done.at(w) && dist.at(w) <= grid.toll(p);
            assert(dist.has(w) && !done.at(w) && dist.at(w) <= grid.toll(r));
        }
    }
}

/// Before anything is settled, with only `to` recorded, at cost 0, the bounds hold.
proof fn lemma_start(grid: Grid<CellInfo>, to: Rect, dist: Costs, done: Flags)
    requires
        grid.tables(to, dist, done),
        dist.has(to.origin),
        dist.at(to.origin) == 0,
        forall|q: Pair| dist.has(q) && q != to.origin ==> #[trigger] dist.at(q) == usize::MAX,
        forall|q: Pair| done.has(q) ==> !#[trigger] done.at(q),
    ensures
        settled_bound(grid, to, dist, done),
        relaxed(grid, to.extent, dist, done, None),
        witnessed(grid, to, dist),
{
    reveal(settled_bound);
    reveal(relaxed);
    reveal(witnessed);
    assert forall|r: Seq<Rect>| #[trigger]
        grid.route_from(to, r) && done.at(r.last().origin) implies dist.at(r.last().origin)
        <= grid.toll(r) by {
        grid.lemma_route_end(to, dist, done, r);
    }
    let start = seq![to];
    assert(grid.route_from(to, start));
    assert(grid.toll(start) == 0);
    assert(start.last() == rect_at(to.origin, to.extent));
    assert forall|p: Pair| dist.has(p) && #[trigger] dist.at(p) < usize::MAX implies exists|
        r: Seq<Rect>,
    |
        grid.route_from(to, r) && r.last() == rect_at(p, to.extent) && grid.toll(r) == dist.at(
            p,
        ) by {
        assert(p == to.origin);
        assert(grid.route_from(to, start) && start.last() == rect_at(p, to.extent) && grid.toll(
            start,
        ) == dist.at(p));
    }
}

/// Settling the pending footprint with the least recorded cost keeps the bound on settled
/// footprints.
#[verifier::rlimit(40)]
proof fn lemma_settle(
    grid: Grid<CellInfo>,
    to: Rect,
    dist: Costs,
    done0: Flags,
    done: Flags,
    m: Pair,
)
    requires
        grid.tables(to, dist, done0),
        done.extent == done0.extent,
        !done0.at(to.origin) ==> dist.at(to.origin) == 0,
        settled_bound(grid, to, dist, done0),
        relaxed(grid, to.extent, dist, done0, None),
        dist.has(m),
        !done0.at(m),
        forall|q: Pair| dist.has(q) && !done0.at(q) ==> dist.at(m) <= #[trigger] dist.at(q),
        done.at(m),
        forall|q: Pair| done0.has(q) && q != m ==> #[trigger] done.at(q) == done0.at(q),
    ensures
        settled_bound(grid, to, dist, done),
        relaxed(grid, to.extent, dist, done, Some(m)),
        !done.at(to.origin) ==> dist.at(to.origin) == 0,
{
    assert forall|r: Seq<Rect>| #[trigger]
        grid.route_from(to, r) && done.at(r.last().origin) implies dist.at(r.last().origin)
        <= grid.toll(r) by {
        grid.lemma_route_end(to, dist, done0, r);
        if r.last().origin == m {
            lemma_pending_bound(grid, to, dist, done0, r);
            let w = choose|w: Pair| dist.has(w) && !done0.at(w) && dist.at(w) <= grid.toll(r);
            assert(dist.at(m) <= dist.at(w));
        } else {
            reveal(settled_bound);
            assert(done0.at(r.last().origin));
        }
    }
    assert forall|u: Pair|
        dist.has(u) && #[trigger] done.at(u) && Some(u) != Some(m) implies relaxed_from(
        grid,
        rect_at(u, to.extent),
        dist.at(u) + grid.spec_cost(rect_at(u, to.extent)),
        dist,
        done,
        4,
    ) by {
        reveal(relaxed);
        reveal(relaxed_from);
        assert(done0.at(u));
        let ur = rect_at(u, to.extent);
        assert(relaxed_from(grid, ur, dist.at(u) + grid.spec_cost(ur), dist, done0, 4));
        assert forall|i: int| 0 <= i < 4 && i < grid.spec_neighbors(ur).len() implies {
            let v = #[trigger] grid.spec_neighbors(ur)[i];
            !done.at(v.origin) ==> dist.at(v.origin) <= dist.at(u) + grid.spec_cost(ur)
        } by {
            let v = grid.spec_neighbors(ur)[i];
            grid.lemma_neighbor_end(to, dist, done0, ur, i);
            if v.origin != m {
                assert(done.at(v.origin) == done0.at(v.origin));
            }
        }
    }
    assert(settled_bound(grid, to, dist, done)) by {
        reveal(settled_bound);
    }
    assert(relaxed(grid, to.extent, dist, done, Some(m))) by {
        reveal(relaxed);
    }
    if to.origin != m {
        grid.lemma_route_end(to, dist, done0, seq![to]);
    }
}

/// Looking at one neighbour of the footprint settled last, and recording the way through
/// that footprint where it is cheaper, keeps what holds of the recorded costs.
#[verifier::rlimit(40)]
proof fn lemma_visit(
    grid: Grid<CellInfo>,
    to: Rect,
    dist0: Costs,
    dist1: Costs,
    dist: Costs,
    done: Flags,
    m: Pair,
    bound: int,
    j: int,
    step: usize,
)
    requires
        grid.tables(to, dist0, done),
        grid.tables(to, dist1, done),
        grid.tables(to, dist, done),
        dist0.has(m),
        done.at(m),
        bound == dist0.at(m) + grid.spec_cost(rect_at(m, to.extent)),
        step <= bound,
        step < usize::MAX ==> step == bound,
        0 <= j < grid.spec_neighbors(rect_at(m, to.extent)).len(),
        lowered(dist0, dist1, done),
        relaxed_from(grid, rect_at(m, to.extent), bound, dist1, done, j),
        witnessed(grid, to, dist1),
        witnessed(grid, to, dist0),
        ({
            let next = grid.spec_neighbors(rect_at(m, to.extent))[j];
            if !done.at(next.origin) && step < dist1.at(next.origin) {
                &&& dist.at(next.origin) == step
                &&& forall|q: Pair|
                    dist1.has(q) && q != next.origin ==> #[trigger] dist.at(q) == dist1.at(q)
            } else {
                dist == dist1
            }
        }),
    ensures
        lowered(dist0, dist, done),
        relaxed_from(grid, rect_at(m, to.extent), bound, dist, done, j + 1),
        witnessed(grid, to, dist),
{
    let here = rect_at(m, to.extent);
    let around = grid.spec_neighbors(here);
    let next = around[j];
    grid.lemma_neighbor_end(to, dist1, done, here, j);
    reveal(lowered);
    reveal(relaxed_from);
    if !done.at(next.origin) && step < dist1.at(next.origin) {
        assert forall|p: Pair| dist0.has(p) implies (#[trigger] dist.at(p)) <= dist0.at(p) && (
        done.at(p) ==> dist.at(p) == dist0.at(p)) by {
            if p != next.origin {
                assert(dist.at(p) == dist1.at(p));
            }
            assert(dist1.at(p) <= dist0.at(p));
        }
        assert forall|i: int| 0 <= i < j + 1 && i < around.len() implies {
            let v = #[trigger] around[i];
            !done.at(v.origin) ==> dist.at(v.origin) <= bound
        } by {
            let v = around[i];
            grid.lemma_neighbor_end(to, dist1, done, here, i);
            if v.origin != next.origin {
                assert(dist.at(v.origin) == dist1.at(v.origin));
            }
        }
        assert(witnessed(grid, to, dist)) by {
            reveal(witnessed);
            assert forall|p: Pair| dist.has(p) && #[trigger] dist.at(p) < usize::MAX implies exists|
                r: Seq<Rect>,
            |
                grid.route_from(to, r) && r.last() == rect_at(p, to.extent) && grid.toll(r)
                    == dist.at(p) by {
                if p == next.origin {
                    grid.lemma_sum_costs_nonneg(here.spec_cells());
                    assert(dist0.at(m) < usize::MAX);
                    let r = choose|r: Seq<Rect>|
                        grid.route_from(to, r) && r.last() == rect_at(m, to.extent) && grid.toll(r)
                            == dist0.at(m);
                    grid.lemma_route_push(to, r, next);
                    let e = r.push(next);
                    assert(e.last() == rect_at(p, to.extent));
                    assert(grid.route_from(to, e) && e.last() == rect_at(p, to.extent)
                        && grid.toll(e) == dist.at(p));
                } else {
                    assert(dist.at(p) == dist1.at(p));
                    let r = choose|r: Seq<Rect>|
                        grid.route_from(to, r) && r.last() == rect_at(p, to.extent) && grid.toll(r)
                            == dist1.at(p);
                    assert(grid.route_from(to, r) && r.last() == rect_at(p, to.extent)
                        && grid.toll(r) == dist.at(p));
                }
            }
        }
    } else {
        assert forall|i: int| 0 <= i < j + 1 && i < around.len() implies {
            let v = #[trigger] around[i];
            !done.at(v.origin) ==> dist.at(v.origin) <= bound
        } by {}
    }
}

/// After the neighbours of the footprint settled last have been looked at, the bounds hold of
/// all settled footprints again.
#[verifier::rlimit(40)]
proof fn lemma_round(
    grid: Grid<CellInfo>,
    to: Rect,
    dist0: Costs,
    dist: Costs,
    done: Flags,
    m: Pair,
    bound: int,
)
    requires
        grid.tables(to, dist, done),
        grid.tables(to, dist0, done),
        settled_bound(grid, to, dist0, done),
        relaxed(grid, to.extent, dist0, done, Some(m)),
        !done.at(to.origin) ==> dist0.at(to.origin) == 0,
        dist0.has(m),
        done.at(m),
        bound == dist0.at(m) + grid.spec_cost(rect_at(m, to.extent)),
        lowered(dist0, dist, done),
        relaxed_from(
            grid,
            rect_at(m, to.extent),
            bound,
            dist,
            done,
            grid.spec_neighbors(rect_at(m, to.extent)).len() as int,
        ),
    ensures
        settled_bound(grid, to, dist, done),
        relaxed(grid, to.extent, dist, done, None),
        !done.at(to.origin) ==> dist.at(to.origin) == 0,
{
    reveal(lowered);
    assert(settled_bound(grid, to, dist, done)) by {
        reveal(settled_bound);
        assert forall|r: Seq<Rect>| #[trigger]
            grid.route_from(to, r) && done.at(r.last().origin) implies dist.at(r.last().origin)
            <= grid.toll(r) by {
            grid.lemma_route_end(to, dist, done, r);
            assert(dist.at(r.last().origin) == dist0.at(r.last().origin));
        }
    }
    assert(relaxed(grid, to.extent, dist, done, None)) by {
        reveal(relaxed);
        reveal(relaxed_from);
        assert forall|u: Pair| dist.has(u) && #[trigger] done.at(u) implies relaxed_from(
            grid,
            rect_at(u, to.extent),
            dist.at(u) + grid.spec_cost(rect_at(u, to.extent)),
            dist,
            done,
            4,
        ) by {
            let ur = rect_at(u, to.extent);
            grid.lemma_neighbors(ur);
            assert(dist.at(u) == dist0.at(u));
            if u != m {
                assert(relaxed_from(grid, ur, dist0.at(u) + grid.spec_cost(ur), dist0, done, 4));
                assert forall|i: int| 0 <= i < 4 && i < grid.spec_neighbors(ur).len() implies {
                    let v = #[trigger] grid.spec_neighbors(ur)[i];
                    !done.at(v.origin) ==> dist.at(v.origin) <= dist.at(u) + grid.spec_cost(ur)
                } by {
                    let v = grid.spec_neighbors(ur)[i];
                    grid.lemma_neighbor_end(to, dist, done, ur, i);
                    assert(dist.at(v.origin) <= dist0.at(v.origin));
                }
            }
        }
    }
    grid.lemma_route_end(to, dist, done, seq![to]);
    assert(dist.at(to.origin) <= dist0.at(to.origin));
}

/// When every pending footprint is recorded as unreachable, the recorded costs are the least
/// tolls.
proof fn lemma_finish(grid: Grid<CellInfo>, to: Rect, dist: Costs, done: Flags)
    requires
        grid.tables(to, dist, done),
        !done.at(to.origin) ==> dist.at(to.origin) == 0,
        settled_bound(grid, to, dist, done),
        relaxed(grid, to.extent, dist, done, None),
        witnessed(grid, to, dist),
        forall|q: Pair| dist.has(q) && !done.at(q) ==> #[trigger] dist.at(q) == usize::MAX,
    ensures
        forall|r: Seq<Rect>| #[trigger]
            grid.route_from(to, r) ==> dist.has(r.last().origin) && dist.at(r.last().origin)
                <= grid.toll(r),
        forall|p: Pair|
            dist.has(p) && #[trigger] dist.at(p) < usize::MAX ==> exists|r: Seq<Rect>|
                grid.route_from(to, r) && r.last() == rect_at(p, to.extent) && grid.toll(r)
                    == dist.at(p),
{
    reveal(witnessed);
    assert forall|r: Seq<Rect>| #[trigger] grid.route_from(to, r) implies dist.has(
        r.last().origin,
    ) && dist.at(r.last().origin) <= grid.toll(r) by {
        grid.lemma_route_end(to, dist, done, r);
        if !done.at(r.last().origin) {
            lemma_pending_bound(grid, to, dist, done, r);
        } else {
            reveal(settled_bound);
        }
    }
}

impl Grid<CellInfo> {
    /// For every origin at which a footprint of the extent of `to` lies inside the grid, the
    /// least toll of a route from `to` to the footprint at that origin; `usize::MAX` where
    /// there is no route, or none with a smaller toll.
    #[verifier::rlimit(40)]
    pub fn djikstra(&self, to: Rect) -> (out: Grid<usize>)
        requires
            self.wf(),
            self.contains_rect(to),
        ensures
            out.wf(),
            out.spec_extent() == self.spec_effective_extent(to.extent),
            forall|r: Seq<Rect>| #[trigger]
                self.route_from(to, r) ==> out.has(r.last().origin) && out.at(r.last().origin)
                    <= self.toll(r),
            forall|p: Pair|
                out.has(p) && #[trigger] out.at(p) < usize::MAX ==> exists|r: Seq<Rect>|
                    self.route_from(to, r) && r.last() == rect_at(p, to.extent) && self.toll(r)
                        == out.at(p),
    {
        let reach = self.effective_extent(to.extent);
        proof {
            self.lemma_len_fits();
            let a = reach.0 + 1;
            let b = reach.1 + 1;
            let w = self.width();
            let h = self.height();
            assert(a * b <= w * h) by (nonlinear_arith)
                requires
                    1 <= a <= w,
                    1 <= b <= h,
            ;
        }
        let mut open: HashMap<usize, usize> = HashMap::new();
        let mut closed: Grid<usize> = Grid::init(reach, usize::MAX);
        let first = closed.pair_to_usize(to.origin);
        open.insert(first, 0);
        proof {
            closed.lemma_len_fits();
            closed.lemma_index(to.origin);
            let dist = costs_of(open@, closed);
            assert forall|q: Pair| dist.has(q) && q != to.origin implies #[trigger] dist.at(q)
                == usize::MAX by {
                closed.lemma_index(q);
            }
            assert(dist.at(to.origin) == 0);
            lemma_start(*self, to, dist, flags_of(closed));
        }
        loop
            invariant
                self.wf(),
                self.contains_rect(to),
                closed.wf(),
                closed.spec_extent() == self.spec_effective_extent(to.extent),
                frontier_ok(open@, closed),
                !flags_of(closed).at(to.origin) ==> costs_of(open@, closed).at(to.origin) == 0,
                settled_bound(*self, to, costs_of(open@, closed), flags_of(closed)),
                relaxed(*self, to.extent, costs_of(open@, closed), flags_of(closed), None),
                witnessed(*self, to, costs_of(open@, closed)),
            ensures
                self.wf(),
                self.contains_rect(to),
                closed.wf(),
                closed.spec_extent() == self.spec_effective_extent(to.extent),
                !flags_of(closed).at(to.origin) ==> costs_of(open@, closed).at(to.origin) == 0,
                settled_bound(*self, to, costs_of(open@, closed), flags_of(closed)),
                relaxed(*self, to.extent, costs_of(open@, closed), flags_of(closed), None),
                witnessed(*self, to, costs_of(open@, closed)),
                forall|q: Pair|
                    closed.has(q) && !flags_of(closed).at(q) ==> #[trigger] costs_of(
                        open@,
                        closed,
                    ).at(q) == usize::MAX,
            decreases count_pending(closed.cells()),
        {
            let (at, current_cost) = match open.min_value() {
                None => {
                    proof {
                        closed.lemma_len_fits();
                        assert forall|q: Pair|
                            closed.has(q) && !flags_of(closed).at(q) implies #[trigger] costs_of(
                            open@,
                            closed,
                        ).at(q) == usize::MAX by {
                            closed.lemma_index(q);
                            let k = closed.index_of(q) as usize;
                            if open@.contains_key(k) {
                                assert(open.entries().contains_key(k));
                                assert(open.entries()[k] == usize::MAX);
                            }
                        }
                    }
                    break ;
                },
                Some(found) => found,
            };
            let ghost dist0 = costs_of(open@, closed);
            let ghost done0 = flags_of(closed);
            let ghost open0 = open@;
            let ghost closed0 = closed;
            proof {
                closed.lemma_len_fits();
                assert(open.entries().contains_key(at));
                assert(open@.contains_key(at));
                closed.lemma_pair(at as int);
            }
            let m = closed.usize_to_pair(at);
            let min_cell = Rect { origin: m, extent: to.extent };
            proof {
                lemma_count_settle(closed.cells(), at as int, current_cost);
                assert(closed.index_of(m) == at);
                assert(dist0.at(m) == current_cost);
                assert forall|q: Pair| dist0.has(q) && !done0.at(q) implies dist0.at(m)
                    <= #[trigger] dist0.at(q) by {
                    closed.lemma_index(q);
                    let k = closed.index_of(q) as usize;
                    if open@.contains_key(k) {
                        assert(open.entries().contains_key(k));
                        assert(current_cost <= open.entries()[k]);
                    }
                }
            }
            closed.set(m, current_cost);
            open.remove(&at);
            let step = saturating_sum(current_cost, self.cost(min_cell));
            let ghost bound = current_cost + self.spec_cost(min_cell);
            proof {
                let dist = costs_of(open@, closed);
                assert forall|q: Pair| #[trigger] (dist.value)(q) == (dist0.value)(q) by {
                    if closed.has(q) {
                        closed0.lemma_index(q);
                        if q != m {
                            assert(closed.at(q) == closed0.at(q));
                            assert(closed0.index_of(q) != at);
                        }
                    }
                }
                assert(dist.value =~= dist0.value);
                assert(dist == dist0);
                assert forall|k: usize| #[trigger] open@.contains_key(k) implies k
                    < closed.cells().len() && closed.cells()[k as int] == usize::MAX && open@[k]
                    < usize::MAX by {
                    assert(open0.contains_key(k));
                }
                self.lemma_sum_costs_nonneg(min_cell.spec_cells());
                lemma_settle(*self, to, dist0, done0, flags_of(closed), m);
                assert(relaxed_from(*self, min_cell, bound, dist0, flags_of(closed), 0)) by {
                    reveal(relaxed_from);
                }
                assert(lowered(dist0, dist0, flags_of(closed))) by {
                    reveal(lowered);
                }
            }
            let around = self.neighbors(min_cell);
            let ghost done = flags_of(closed);
            let mut j: usize = 0;
            while j < around.len()
                invariant
                    self.wf(),
                    self.contains_rect(to),
                    closed.wf(),
                    closed.spec_extent() == self.spec_effective_extent(to.extent),
                    frontier_ok(open@, closed),
                    done == flags_of(closed),
                    dist0.extent == closed.spec_extent(),
                    around@ == self.spec_neighbors(min_cell),
                    min_cell == rect_at(m, to.extent),
                    dist0.has(m),
                    done.at(m),
                    step <= bound,
                    bound == dist0.at(m) + self.spec_cost(min_cell),
                    step < usize::MAX ==> step == bound,
                    0 <= j <= around.len(),
                    lowered(dist0, costs_of(open@, closed), done),
                    relaxed_from(*self, min_cell, bound, costs_of(open@, closed), done, j as int),
                    witnessed(*self, to, costs_of(open@, closed)),
                    witnessed(*self, to, dist0),
                decreases around.len() - j,
            {
                let neighbor = around[j];
                let ghost dist1 = costs_of(open@, closed);
                proof {
                    closed.lemma_len_fits();
                    self.lemma_neighbor_end(to, dist1, done, min_cell, j as int);
                    closed.lemma_index(neighbor.origin);
                }
                if *closed.get(neighbor.origin) == usize::MAX {
                    let key = closed.pair_to_usize(neighbor.origin);
                    let cheaper = match open.get(&key) {
                        Some(value) => step < *value,
                        None => step < usize::MAX,
                    };
                    if cheaper {
                        open.insert(key, step);
                        proof {
                            closed.lemma_len_fits();
                            assert forall|q: Pair|
                                dist1.has(q) && q != neighbor.origin implies #[trigger] costs_of(
                                open@,
                                closed,
                            ).at(q) == dist1.at(q) by {
                                closed.lemma_index(q);
                                closed.lemma_index(neighbor.origin);
                                assert(closed.index_of(q) != key);
                            }
                        }
                    }
                }
                proof {
                    lemma_visit(
                        *self,
                        to,
                        dist0,
                        dist1,
                        costs_of(open@, closed),
                        done,
                        m,
                        bound,
                        j as int,
                        step,
                    );
                }
                j += 1;
            }
            proof {
                lemma_round(*self, to, dist0, costs_of(open@, closed), done, m, bound);
            }
        }
        proof {
            let dist = costs_of(open@, closed);
            let done = flags_of(closed);
            lemma_finish(*self, to, dist, done);
            assert forall|p: Pair| closed.has(p) implies closed.at(p) == #[trigger] dist.at(p) by {}
            assert forall|r: Seq<Rect>| #[trigger] self.route_from(to, r) implies closed.has(
                r.last().origin,
            ) && closed.at(r.last().origin) <= self.toll(r) by {
                assert(dist.has(r.last().origin));
                assert(closed.at(r.last().origin) == dist.at(r.last().origin));
            }
            assert forall|p: Pair| closed.has(p) && #[trigger] closed.at(p) < usize::MAX implies exists|
                r: Seq<Rect>,
            |
                self.route_from(to, r) && r.last() == rect_at(p, to.extent) && self.toll(r)
                    == closed.at(p) by {
                assert(dist.at(p) == closed.at(p));
                let r = choose|r: Seq<Rect>|
                    self.route_from(to, r) && r.last() == rect_at(p, to.extent) && self.toll(r)
                        == dist.at(p);
                assert(self.route_from(to, r) && r.last() == rect_at(p, to.extent) && self.toll(r)
                    == closed.at(p));
            }
        }
        closed
    }

    /// A walk: footprints through which an agent can move in this order. The grid admits
    /// the first, and each other is a neighbour of the one before it.
    pub open spec fn is_walk(&self, w: Seq<Rect>) -> bool {
        &&& w.len() >= 1
        &&& self.admits(w[0])
        &&& forall|i: int|
            0 <= i < w.len() - 1 ==> self.spec_neighbors(#[trigger] w[i]).contains(w[i + 1])
    }

    /// What the walk costs: the cost of every footprint that is entered, which is each but
    /// the first.
    pub open spec fn fare(&self, w: Seq<Rect>) -> int
        decreases w.len(),
    {
        if w.len() <= 1 {
            0
        } else {
            self.spec_cost(w[1]) + self.fare(w.skip(1))
        }
    }

    /// From a neighbour of a footprint that the grid admits, that footprint is a neighbour.
    pub proof fn lemma_neighbors_symmetric(&self, a: Rect, b: Rect)
        requires
            self.admits(a),
            self.spec_neighbors(a).contains(b),
        ensures
            self.spec_neighbors(b).contains(a),
            self.admits(b),
            b.extent == a.extent,
    {
        self.lemma_neighbors(a);
        self.lemma_neighbors(b);
        let around = self.spec_neighbors(a);
        let at = choose|at: int| 0 <= at < around.len() && around[at] == b;
        assert(self.admits(around[at]));
        let k = choose|k: int| 0 <= k < 4 && around[at] == Self::candidate(a, k);
        if k == 0 {
            assert(Self::candidate(b, 2) == a);
        } else if k == 1 {
            assert(Self::candidate(b, 3) == a);
        } else if k == 2 {
            assert(Self::candidate(b, 0) == a);
        } else {
            assert(Self::candidate(b, 1) == a);
        }
    }

    /// A walk without its first footprint is a walk.
    pub proof fn lemma_walk_rest(&self, w: Seq<Rect>)
        requires
            self.is_walk(w),
            w.len() >= 2,
        ensures
            self.is_walk(w.skip(1)),
            w.skip(1).last() == w.last(),
    {
        let rest = w.skip(1);
        self.lemma_neighbors_symmetric(w[0], w[1]);
        assert forall|i: int| 0 <= i < rest.len() - 1 implies self.spec_neighbors(
            #[trigger] rest[i],
        ).contains(rest[i + 1]) by {
            assert(rest[i] == w[i + 1]);
            assert(rest[i + 1] == w[i + 1 + 1]);
        }
    }

    /// A walk taken backwards is a route from its last footprint to its first, and the
    /// toll of that route is the fare of the walk.
    pub proof fn lemma_walk_route(&self, w: Seq<Rect>)
        requires
            self.is_walk(w),
        ensures
            exists|r: Seq<Rect>|
                self.route_from(w.last(), r) && r.last() == w[0] && self.toll(r) == self.fare(w),
        decreases w.len(),
    {
        if w.len() == 1 {
            let r = seq![w[0]];
            assert(self.route_from(w.last(), r) && r.last() == w[0] && self.toll(r) == self.fare(
                w,
            ));
        } else {
            let rest = w.skip(1);
            self.lemma_walk_rest(w);
            self.lemma_walk_route(rest);
            let back = choose|r: Seq<Rect>|
                self.route_from(rest.last(), r) && r.last() == rest[0] && self.toll(r) == self.fare(
                    rest,
                );
            self.lemma_neighbors_symmetric(w[0], w[1]);
            self.lemma_route_push(w.last(), back, w[0]);
            let r = back.push(w[0]);
            assert(self.route_from(w.last(), r) && r.last() == w[0] && self.toll(r) == self.fare(
                w,
            ));
        }
    }
}

} // verus!
