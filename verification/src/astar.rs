//! The planner of one agent: a search over footprints and ticks that respects constraints.
use crate::dijkstra::rect_at;
use crate::geometry::{Pair, Rect};
use crate::grid::Grid;
use crate::model::CellInfo;
use vstd::prelude::*;

verus! {

/// Why a problem was refused.
#[derive(Clone, Copy, Debug, PartialEq, Eq, Structural)]
pub enum BuildError {
    /// There are more origins than destinations.
    TooFewDestinations,
    /// The footprint is larger than the grid, or at some origin or destination it does not
    /// lie inside the grid.
    OutOfBounds,
    /// The footprint at some origin or destination covers a blocked cell.
    Blocked,
    /// The footprints at two origins overlap.
    Overlap,
}

/// A footprint of this extent lies inside the grid somewhere.
pub open spec fn footprint_fits(grid: Grid<CellInfo>, extent: Pair) -> bool {
    extent.0 <= grid.spec_extent().0 && extent.1 <= grid.spec_extent().1
}

/// At each of the cells the footprint lies inside the grid.
pub open spec fn all_inside(grid: Grid<CellInfo>, cells: Seq<Pair>, extent: Pair) -> bool {
    forall|i: int| 0 <= i < cells.len() ==> grid.contains_rect(rect_at(#[trigger] cells[i], extent))
}

/// At each of the cells the footprint covers no blocked cell.
pub open spec fn all_clear(grid: Grid<CellInfo>, cells: Seq<Pair>, extent: Pair) -> bool {
    forall|i: int| 0 <= i < cells.len() ==> grid.clear(rect_at(#[trigger] cells[i], extent))
}

/// No two of the footprints at the cells overlap.
pub open spec fn apart(cells: Seq<Pair>, extent: Pair) -> bool {
    forall|i: int, j: int|
        0 <= i < j < cells.len() ==> !rect_at(#[trigger] cells[i], extent).spec_intersects(
            rect_at(#[trigger] cells[j], extent),
        )
}

/// The first reason, in the order of `BuildError`, for which the problem is refused.
pub open spec fn instance_error(
    grid: Grid<CellInfo>,
    origins: Seq<Pair>,
    destinations: Seq<Pair>,
    extent: Pair,
) -> Option<BuildError> {
    if origins.len() > destinations.len() {
        Some(BuildError::TooFewDestinations)
    } else if !footprint_fits(grid, extent) || !all_inside(grid, origins, extent) || !all_inside(
        grid,
        destinations,
        extent,
    ) {
        Some(BuildError::OutOfBounds)
    } else if !all_clear(grid, origins, extent) || !all_clear(grid, destinations, extent) {
        Some(BuildError::Blocked)
    } else if !apart(origins, extent) {
        Some(BuildError::Overlap)
    } else {
        None
    }
}

/// Whether the footprint lies inside the grid at each of the cells.
pub fn check_inside(grid: &Grid<CellInfo>, cells: &Vec<Pair>, extent: Pair) -> (out: bool)
    ensures
        out == all_inside(*grid, cells@, extent),
{
    let mut i: usize = 0;
    while i < cells.len()
        invariant
            0 <= i <= cells.len(),
            forall|j: int| 0 <= j < i ==> grid.contains_rect(rect_at(#[trigger] cells@[j], extent)),
        decreases cells.len() - i,
    {
        if !grid.in_bounds(cells[i].extend(extent)) {
            return false;
        }
        i += 1;
    }
    true
}

/// Whether the footprint, which lies inside the grid at each of the cells, is clear at each.
pub fn check_clear(grid: &Grid<CellInfo>, cells: &Vec<Pair>, extent: Pair) -> (out: bool)
    requires
        grid.wf(),
        all_inside(*grid, cells@, extent),
    ensures
        out == all_clear(*grid, cells@, extent),
{
    let mut i: usize = 0;
    while i < cells.len()
        invariant
            grid.wf(),
            all_inside(*grid, cells@, extent),
            0 <= i <= cells.len(),
            forall|j: int| 0 <= j < i ==> grid.clear(rect_at(#[trigger] cells@[j], extent)),
        decreases cells.len() - i,
    {
        if !grid.is_clear(cells[i].extend(extent)) {
            return false;
        }
        i += 1;
    }
    true
}

/// Whether no two of the footprints at the cells overlap.
pub fn check_apart(cells: &Vec<Pair>, extent: Pair) -> (out: bool)
    ensures
        out == apart(cells@, extent),
{
    let mut j: usize = 0;
    while j < cells.len()
        invariant
            0 <= j <= cells.len(),
            forall|a: int, b: int|
                0 <= a < b < j ==> !rect_at(#[trigger] cells@[a], extent).spec_intersects(
                    rect_at(#[trigger] cells@[b], extent),
                ),
        decreases cells.len() - j,
    {
        let mut i: usize = 0;
        while i < j
            invariant
                0 <= i <= j < cells.len(),
                forall|a: int, b: int|
                    0 <= a < b < j ==> !rect_at(#[trigger] cells@[a], extent).spec_intersects(
                        rect_at(#[trigger] cells@[b], extent),
                    ),
                forall|a: int|
                    0 <= a < i ==> !rect_at(#[trigger] cells@[a], extent).spec_intersects(
                        rect_at(cells@[j as int], extent),
                    ),
            decreases j - i,
        {
            if cells[i].extend(extent).intersects(cells[j].extend(extent)) {
                return false;
            }
            i += 1;
        }
        j += 1;
    }
    true
}

/// The first reason for which the problem is refused, if there is one.
pub fn check_instance(
    grid: &Grid<CellInfo>,
    origins: &Vec<Pair>,
    destinations: &Vec<Pair>,
    extent: Pair,
) -> (out: Option<BuildError>)
    requires
        grid.wf(),
    ensures
        out == instance_error(*grid, origins@, destinations@, extent),
{
    if origins.len() > destinations.len() {
        return Some(BuildError::TooFewDestinations);
    }
    let reach = grid.extent();
    if extent.0 > reach.0 || extent.1 > reach.1 || !check_inside(grid, origins, extent)
        || !check_inside(grid, destinations, extent) {
        return Some(BuildError::OutOfBounds);
    }
    if !check_clear(grid, origins, extent) || !check_clear(grid, destinations, extent) {
        return Some(BuildError::Blocked);
    }
    if !check_apart(origins, extent) {
        return Some(BuildError::Overlap);
    }
    None
}

/// No route from a destination to a footprint is cheaper than the estimate at that footprint.
#[verifier::opaque]
pub open spec fn estimate_bounds(
    grid: Grid<CellInfo>,
    destinations: Seq<Pair>,
    extent: Pair,
    estimate: Grid<usize>,
) -> bool {
    forall|d: int, r: Seq<Rect>|
        0 <= d < destinations.len() && #[trigger] grid.route_from(
            rect_at(destinations[d], extent),
            r,
        ) ==> estimate.has(r.last().origin) && estimate.at(r.last().origin) <= grid.toll(r)
}

/// Every finite estimate is the toll of a route from some destination.
#[verifier::opaque]
pub open spec fn estimate_met(
    grid: Grid<CellInfo>,
    destinations: Seq<Pair>,
    extent: Pair,
    estimate: Grid<usize>,
) -> bool {
    forall|p: Pair|
        estimate.has(p) && #[trigger] estimate.at(p) < usize::MAX ==> exists|
            d: int,
            r: Seq<Rect>,
        |
            0 <= d < destinations.len() && grid.route_from(rect_at(destinations[d], extent), r)
                && r.last() == rect_at(p, extent) && grid.toll(r) == estimate.at(p)
}

/// Lowering the estimates to the least tolls from one more destination keeps them the least
/// tolls from the destinations seen.
proof fn lemma_merge(
    grid: Grid<CellInfo>,
    destinations: Seq<Pair>,
    extent: Pair,
    k: int,
    before: Grid<usize>,
    tolls: Grid<usize>,
    after: Grid<usize>,
)
    requires
        0 <= k < destinations.len(),
        estimate_bounds(grid, destinations.take(k), extent, before),
        estimate_met(grid, destinations.take(k), extent, before),
        before.spec_extent() == tolls.spec_extent(),
        after.spec_extent() == tolls.spec_extent(),
        forall|r: Seq<Rect>| #[trigger]
            grid.route_from(rect_at(destinations[k], extent), r) ==> tolls.has(r.last().origin)
                && tolls.at(r.last().origin) <= grid.toll(r),
        forall|p: Pair|
            tolls.has(p) && #[trigger] tolls.at(p) < usize::MAX ==> exists|r: Seq<Rect>|
                grid.route_from(rect_at(destinations[k], extent), r) && r.last() == rect_at(
                    p,
                    extent,
                ) && grid.toll(r) == tolls.at(p),
        forall|p: Pair|
            before.has(p) ==> #[trigger] after.at(p) == if tolls.at(p) < before.at(p) {
                tolls.at(p)
            } else {
                before.at(p)
            },
    ensures
        estimate_bounds(grid, destinations.take(k + 1), extent, after),
        estimate_met(grid, destinations.take(k + 1), extent, after),
{
    reveal(estimate_bounds);
    reveal(estimate_met);
    let seen = destinations.take(k);
    let more = destinations.take(k + 1);
    assert forall|d: int, r: Seq<Rect>|
        0 <= d < more.len() && #[trigger] grid.route_from(rect_at(more[d], extent), r) implies {
        after.has(r.last().origin) && after.at(r.last().origin) <= grid.toll(r)
    } by {
        if d < k {
            assert(more[d] == seen[d]);
            assert(grid.route_from(rect_at(seen[d], extent), r));
        } else {
            assert(more[d] == destinations[k]);
        }
    }
    assert forall|p: Pair| after.has(p) && #[trigger] after.at(p) < usize::MAX implies exists|
        d: int,
        r: Seq<Rect>,
    |
        0 <= d < more.len() && grid.route_from(rect_at(more[d], extent), r) && r.last() == rect_at(
            p,
            extent,
        ) && grid.toll(r) == after.at(p) by {
        if tolls.at(p) < before.at(p) {
            let r = choose|r: Seq<Rect>|
                grid.route_from(rect_at(destinations[k], extent), r) && r.last() == rect_at(
                    p,
                    extent,
                ) && grid.toll(r) == tolls.at(p);
            assert(more[k] == destinations[k]);
            assert(0 <= k < more.len() && grid.route_from(rect_at(more[k], extent), r) && r.last()
                == rect_at(p, extent) && grid.toll(r) == after.at(p));
        } else {
            assert(before.at(p) < usize::MAX);
            let (d, r) = choose|d: int, r: Seq<Rect>|
                0 <= d < seen.len() && grid.route_from(rect_at(seen[d], extent), r) && r.last()
                    == rect_at(p, extent) && grid.toll(r) == before.at(p);
            assert(more[d] == seen[d]);
            assert(0 <= d < more.len() && grid.route_from(rect_at(more[d], extent), r) && r.last()
                == rect_at(p, extent) && grid.toll(r) == after.at(p));
        }
    }
}

/// A problem and what the planner needs to know of it: the map, where the agents start,
/// where they may end, their footprint, and for each origin of a footprint an estimate of
/// what the way to a destination costs.
pub struct AStar {
    pub grid: Grid<CellInfo>,
    pub origins: Vec<Pair>,
    pub destinations: Vec<Pair>,
    pub unit_extent: Pair,
    pub heuristic: Grid<usize>,
}

impl AStar {
    /// The footprint of an agent whose lower corner is `p`.
    pub open spec fn footprint(&self, p: Pair) -> Rect {
        rect_at(p, self.unit_extent)
    }

    /// The problem is one that `new` accepts, and there is an estimate for every origin at
    /// which the footprint lies inside the grid.
    pub open spec fn wf(&self) -> bool {
        &&& self.grid.wf()
        &&& self.heuristic.wf()
        &&& instance_error(self.grid, self.origins@, self.destinations@, self.unit_extent) is None
        &&& self.heuristic.spec_extent() == self.grid.spec_effective_extent(self.unit_extent)
    }

    /// The estimate at a footprint is the least toll of a route to it from a destination,
    /// and infinite where there is none.
    pub open spec fn informed(&self) -> bool {
        &&& estimate_bounds(self.grid, self.destinations@, self.unit_extent, self.heuristic)
        &&& estimate_met(self.grid, self.destinations@, self.unit_extent, self.heuristic)
    }

    /// The estimates never exceed what a way to a destination costs: for every walk of an
    /// agent that ends at the footprint of a destination, the estimate at the first
    /// footprint of the walk is at most the fare of the walk.
    pub proof fn lemma_estimate_admissible(&self, w: Seq<Rect>, d: int)
        requires
            self.wf(),
            self.informed(),
            self.grid.is_walk(w),
            0 <= d < self.destinations@.len(),
            w.last() == self.footprint(self.destinations@[d]),
        ensures
            self.heuristic.has(w[0].origin),
            self.heuristic.at(w[0].origin) <= self.grid.fare(w),
    {
        reveal(estimate_bounds);
        self.grid.lemma_walk_route(w);
        let r = choose|r: Seq<Rect>|
            self.grid.route_from(w.last(), r) && r.last() == w[0] && self.grid.toll(r)
                == self.grid.fare(w);
        assert(self.grid.route_from(rect_at(self.destinations@[d], self.unit_extent), r));
    }

    /// Every finite estimate is what some walk of an agent from that footprint to the
    /// footprint of a destination costs.
    pub proof fn lemma_estimate_met(&self, p: Pair)
        requires
            self.informed(),
            self.heuristic.has(p),
            self.heuristic.at(p) < usize::MAX,
        ensures
            exists|d: int, r: Seq<Rect>|
                0 <= d < self.destinations@.len() && self.grid.route_from(
                    rect_at(self.destinations@[d], self.unit_extent),
                    r,
                ) && r.last() == rect_at(p, self.unit_extent) && self.grid.toll(r)
                    == self.heuristic.at(p),
    {
        reveal(estimate_met);
    }

    /// The same problem, whatever the estimates.
    pub open spec fn same_problem(&self, other: &AStar) -> bool {
        &&& self.grid == other.grid
        &&& self.origins == other.origins
        &&& self.destinations == other.destinations
        &&& self.unit_extent == other.unit_extent
    }

    /// Lowers the estimates to the least tolls from the destinations.
    pub fn generate_heuristic(&mut self)
        requires
            old(self).wf(),
            forall|p: Pair|
                old(self).heuristic.has(p) ==> #[trigger] old(self).heuristic.at(p) == usize::MAX,
        ensures
            final(self).wf(),
            final(self).same_problem(old(self)),
            final(self).informed(),
    {
        proof {
            assert(self.destinations@.take(0).len() == 0);
            assert(estimate_bounds(
                self.grid,
                self.destinations@.take(0),
                self.unit_extent,
                self.heuristic,
            )) by {
                reveal(estimate_bounds);
            }
            assert(estimate_met(
                self.grid,
                self.destinations@.take(0),
                self.unit_extent,
                self.heuristic,
            )) by {
                reveal(estimate_met);
            }
        }
        let mut k: usize = 0;
        while k < self.destinations.len()
            invariant
                self.wf(),
                self.same_problem(old(self)),
                0 <= k <= self.destinations.len(),
                estimate_bounds(
                    self.grid,
                    self.destinations@.take(k as int),
                    self.unit_extent,
                    self.heuristic,
                ),
                estimate_met(
                    self.grid,
                    self.destinations@.take(k as int),
                    self.unit_extent,
                    self.heuristic,
                ),
            decreases self.destinations.len() - k,
        {
            let destination = self.destinations[k];
            assert(self.grid.contains_rect(rect_at(self.destinations@[k as int], self.unit_extent)));
            let distances = self.grid.djikstra(destination.extend(self.unit_extent));
            let ghost before = self.heuristic;
            self.heuristic.lower_to(&distances);
            proof {
                lemma_merge(
                    self.grid,
                    self.destinations@,
                    self.unit_extent,
                    k as int,
                    before,
                    distances,
                    self.heuristic,
                );
            }
            k += 1;
        }
        proof {
            assert(self.destinations@.take(self.destinations@.len() as int) =~= self.destinations@);
        }
    }

    /// The problem with every estimate infinite, or the reason for which it is refused.
    pub fn new(
        origins: Vec<Pair>,
        destinations: Vec<Pair>,
        unit_extent: Pair,
        grid: Grid<CellInfo>,
    ) -> (out: Result<AStar, BuildError>)
        requires
            grid.wf(),
        ensures
            match out {
                Ok(solver) => {
                    &&& instance_error(grid, origins@, destinations@, unit_extent) is None
                    &&& solver.wf()
                    &&& solver.grid == grid
                    &&& solver.origins == origins
                    &&& solver.destinations == destinations
                    &&& solver.unit_extent == unit_extent
                    &&& forall|p: Pair|
                        solver.heuristic.has(p) ==> #[trigger] solver.heuristic.at(p) == usize::MAX
                },
                Err(reason) => instance_error(grid, origins@, destinations@, unit_extent) == Some(
                    reason,
                ),
            },
    {
        match check_instance(&grid, &origins, &destinations, unit_extent) {
            Some(reason) => Err(reason),
            None => {
                let reach = grid.effective_extent(unit_extent);
                proof {
                    grid.lemma_len_fits();
                    let a = reach.0 + 1;
                    let b = reach.1 + 1;
                    let w = grid.width();
                    let h = grid.height();
                    assert(a * b <= w * h) by (nonlinear_arith)
                        requires
                            1 <= a <= w,
                            1 <= b <= h,
                    ;
                }
                Ok(
                    AStar {
                        heuristic: Grid::init(reach, usize::MAX),
                        unit_extent,
                        grid,
                        origins,
                        destinations,
                    },
                )
            },
        }
    }

    /// The problem with its estimates, or the reason for which it is refused.
    pub fn init(
        origins: Vec<Pair>,
        destinations: Vec<Pair>,
        unit_extent: Pair,
        grid: Grid<CellInfo>,
    ) -> (out: Result<AStar, BuildError>)
        requires
            grid.wf(),
        ensures
            match out {
                Ok(solver) => {
                    &&& instance_error(grid, origins@, destinations@, unit_extent) is None
                    &&& solver.wf()
                    &&& solver.informed()
                    &&& solver.grid == grid
                    &&& solver.origins == origins
                    &&& solver.destinations == destinations
                    &&& solver.unit_extent == unit_extent
                },
                Err(reason) => instance_error(grid, origins@, destinations@, unit_extent) == Some(
                    reason,
                ),
            },
    {
        match AStar::new(origins, destinations, unit_extent, grid) {
            Err(reason) => Err(reason),
            Ok(solver) => {
                let mut out = solver;
                out.generate_heuristic();
                Ok(out)
            },
        }
    }
}

} // verus!
