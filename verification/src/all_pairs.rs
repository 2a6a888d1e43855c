//! The cost of the way between every two cells of a map, through ever more cells between.
use crate::dijkstra::rect_at;
use crate::geometry::{Pair, Rect};
use crate::grid::Grid;
use crate::model::{saturate, saturating_sum, CellInfo};
use vstd::prelude::*;

verus! {

impl Grid<CellInfo> {
    /// The footprint whose lower corner is the cell at position `a` of the row-by-row walk.
    pub open spec fn footprint_at(&self, extent: Pair, a: int) -> Rect {
        rect_at(self.pair_of(a), extent)
    }

    /// What one step from the footprint at `a` to the footprint at `b` costs: the cost of
    /// entering the second where it is a neighbour of the first, else infinite.
    pub open spec fn spec_direct(&self, extent: Pair, a: int, b: int) -> usize {
        if self.spec_neighbors(self.footprint_at(extent, a)).contains(self.footprint_at(extent, b)) {
            saturate(self.spec_cost(self.footprint_at(extent, b)))
        } else {
            usize::MAX
        }
    }

    /// The cost of the cheapest way from the footprint at `a` to the footprint at `b` on
    /// which every footprint between the two is at a position below `j`: nothing if the two
    /// are the same; with no footprint between, one step; with the footprint at `j - 1`
    /// allowed between, the cheaper of the way without it and the way through it.
    pub open spec fn spec_via(&self, extent: Pair, j: nat, a: int, b: int) -> usize
        decreases j,
    {
        if j == 0 {
            if a == b {
                0
            } else {
                self.spec_direct(extent, a, b)
            }
        } else {
            let without = self.spec_via(extent, (j - 1) as nat, a, b);
            let through = saturate(
                self.spec_via(extent, (j - 1) as nat, a, j - 1) + self.spec_via(
                    extent,
                    (j - 1) as nat,
                    j - 1,
                    b,
                ),
            );
            if through < without {
                through
            } else {
                without
            }
        }
    }

    /// One of the first `t` footprints has its lower corner at position `y`.
    pub open spec fn linked_by(&self, around: Seq<Rect>, t: int, y: int) -> bool {
        exists|s: int| 0 <= s < t && self.index_of((#[trigger] around[s]).origin) == y
    }

    /// From a footprint to itself the way costs nothing, whatever lies between.
    pub proof fn lemma_via_self(&self, extent: Pair, j: nat, a: int)
        ensures
            self.spec_via(extent, j, a, a) == 0,
        decreases j,
    {
        if j > 0 {
            self.lemma_via_self(extent, (j - 1) as nat, a);
        }
    }

    /// Allowing the footprint at `j` between changes no way that begins or ends at it.
    pub proof fn lemma_via_through(&self, extent: Pair, j: nat, a: int)
        ensures
            self.spec_via(extent, j + 1, a, j as int) == self.spec_via(extent, j, a, j as int),
            self.spec_via(extent, j + 1, j as int, a) == self.spec_via(extent, j, j as int, a),
    {
        self.lemma_via_self(extent, j, j as int);
    }

    /// The neighbours of the footprint at `a` are the footprints at the positions of their
    /// lower corners, and no other footprint of the extent is a neighbour.
    pub proof fn lemma_direct_row(&self, extent: Pair, a: int, y: int)
        requires
            self.wf(),
            0 <= y < self.cells().len(),
        ensures
            self.linked_by(
                self.spec_neighbors(self.footprint_at(extent, a)),
                self.spec_neighbors(self.footprint_at(extent, a)).len() as int,
                y,
            ) == self.spec_neighbors(self.footprint_at(extent, a)).contains(
                self.footprint_at(extent, y),
            ),
    {
        let here = self.footprint_at(extent, a);
        let around = self.spec_neighbors(here);
        let there = self.footprint_at(extent, y);
        self.lemma_neighbors(here);
        self.lemma_pair(y);
        if around.contains(there) {
            let s = choose|s: int| 0 <= s < around.len() && around[s] == there;
            assert(self.index_of(around[s].origin) == y);
        }
        if self.linked_by(around, around.len() as int, y) {
            let s = choose|s: int|
                0 <= s < around.len() && self.index_of((#[trigger] around[s]).origin) == y;
            assert(self.admits(around[s]) && around[s].extent == extent);
            self.lemma_index(around[s].origin);
            assert(around[s] == there);
        }
    }

    /// What a trip costs: the sum of what its steps cost, from each position to the next.
    pub open spec fn trip_cost(&self, extent: Pair, trip: Seq<int>) -> int
        decreases trip.len(),
    {
        if trip.len() <= 1 {
            0
        } else {
            self.trip_cost(extent, trip.drop_last()) + self.spec_via(
                extent,
                0,
                trip[trip.len() - 2],
                trip.last(),
            )
        }
    }

    /// A trip from `a` to `b` on which every position between the two is below `j`.
    pub open spec fn trip_below(trip: Seq<int>, j: nat, a: int, b: int) -> bool {
        &&& trip.len() >= 1
        &&& trip[0] == a
        &&& trip.last() == b
        &&& forall|i: int| 0 < i < trip.len() - 1 ==> 0 <= #[trigger] trip[i] < j
    }

    /// A trip costs what its part up to a position and its part from that position cost.
    pub proof fn lemma_trip_split(&self, extent: Pair, trip: Seq<int>, m: int)
        requires
            0 <= m < trip.len(),
        ensures
            self.trip_cost(extent, trip) == self.trip_cost(extent, trip.take(m + 1))
                + self.trip_cost(extent, trip.skip(m)),
            self.trip_cost(extent, trip) >= 0,
        decreases trip.len(),
    {
        if m == trip.len() - 1 {
            assert(trip.take(m + 1) =~= trip);
            self.lemma_trip_nonneg(extent, trip);
        } else {
            let shorter = trip.drop_last();
            self.lemma_trip_split(extent, shorter, m);
            assert(shorter.take(m + 1) =~= trip.take(m + 1));
            assert(shorter.skip(m) =~= trip.skip(m).drop_last());
            let rest = trip.skip(m);
            assert(rest[rest.len() - 2] == trip[trip.len() - 2]);
            assert(rest.last() == trip.last());
        }
    }

    /// No trip costs less than nothing.
    pub proof fn lemma_trip_nonneg(&self, extent: Pair, trip: Seq<int>)
        ensures
            self.trip_cost(extent, trip) >= 0,
        decreases trip.len(),
    {
        if trip.len() > 1 {
            self.lemma_trip_nonneg(extent, trip.drop_last());
        }
    }

    /// Allowing more positions between makes no way dearer.
    pub proof fn lemma_via_falls(&self, extent: Pair, j: nat, a: int, b: int)
        ensures
            self.spec_via(extent, j + 1, a, b) <= self.spec_via(extent, j, a, b),
            self.spec_via(extent, j + 1, a, b) <= self.spec_via(extent, j + 1, a, j as int)
                + self.spec_via(extent, j + 1, j as int, b),
    {
        self.lemma_via_through(extent, j, a);
        self.lemma_via_through(extent, j, b);
    }

    /// No trip from `a` to `b` through positions below `j` is cheaper than the cost of the
    /// cheapest way through such positions.
    pub proof fn lemma_via_least(&self, extent: Pair, j: nat, a: int, b: int, trip: Seq<int>)
        requires
            Self::trip_below(trip, j, a, b),
        ensures
            self.spec_via(extent, j, a, b) <= self.trip_cost(extent, trip),
        decreases j, trip.len(),
    {
        self.lemma_trip_nonneg(extent, trip);
        if trip.len() == 1 {
            self.lemma_via_self(extent, j, a);
        } else if j == 0 {
            assert(trip.len() == 2) by {
                if trip.len() > 2 {
                    assert(0 <= trip[1] < 0);
                }
            }
            assert(trip.drop_last().len() == 1);
            assert(self.trip_cost(extent, trip.drop_last()) == 0);
        } else {
            let last = (j - 1) as nat;
            if exists|m: int| 0 < m < trip.len() - 1 && #[trigger] trip[m] == last {
                let m = choose|m: int| 0 < m < trip.len() - 1 && #[trigger] trip[m] == last;
                let head = trip.take(m + 1);
                let tail = trip.skip(m);
                assert(Self::trip_below(head, j, a, last as int)) by {
                    assert forall|i: int| 0 < i < head.len() - 1 implies 0 <= #[trigger] head[i]
                        < j by {
                        assert(head[i] == trip[i]);
                    }
                }
                assert(Self::trip_below(tail, j, last as int, b)) by {
                    assert forall|i: int| 0 < i < tail.len() - 1 implies 0 <= #[trigger] tail[i]
                        < j by {
                        assert(tail[i] == trip[i + m]);
                    }
                }
                self.lemma_via_least(extent, j, a, last as int, head);
                self.lemma_via_least(extent, j, last as int, b, tail);
                self.lemma_trip_split(extent, trip, m);
                self.lemma_via_falls(extent, last, a, b);
            } else {
                assert(Self::trip_below(trip, last, a, b)) by {
                    assert forall|i: int| 0 < i < trip.len() - 1 implies 0 <= #[trigger] trip[i]
                        < last by {
                        assert(0 <= trip[i] < j);
                    }
                }
                self.lemma_via_least(extent, last, a, b, trip);
                self.lemma_via_falls(extent, last, a, b);
            }
        }
    }

    /// Every finite cost of a cheapest way through positions below `j` is the cost of a
    /// trip through such positions.
    pub proof fn lemma_via_met(&self, extent: Pair, j: nat, a: int, b: int)
        requires
            self.spec_via(extent, j, a, b) < usize::MAX,
        ensures
            exists|trip: Seq<int>| #[trigger]
                Self::trip_below(trip, j, a, b) && self.trip_cost(extent, trip) == self.spec_via(
                    extent,
                    j,
                    a,
                    b,
                ),
        decreases j,
    {
        if j == 0 {
            if a == b {
                let trip = seq![a];
                assert(Self::trip_below(trip, j, a, b) && self.trip_cost(extent, trip)
                    == self.spec_via(extent, j, a, b));
            } else {
                let trip = seq![a, b];
                assert(trip.drop_last() =~= seq![a]);
                assert(self.trip_cost(extent, trip.drop_last()) == 0);
                assert(Self::trip_below(trip, j, a, b) && self.trip_cost(extent, trip)
                    == self.spec_via(extent, j, a, b));
            }
        } else {
            let last = (j - 1) as nat;
            let without = self.spec_via(extent, last, a, b);
            let left = self.spec_via(extent, last, a, last as int);
            let right = self.spec_via(extent, last, last as int, b);
            if saturate(left + right) < without {
                self.lemma_via_met(extent, last, a, last as int);
                self.lemma_via_met(extent, last, last as int, b);
                let head = choose|trip: Seq<int>| #[trigger]
                    Self::trip_below(trip, last, a, last as int) && self.trip_cost(extent, trip)
                        == left;
                let tail = choose|trip: Seq<int>| #[trigger]
                    Self::trip_below(trip, last, last as int, b) && self.trip_cost(extent, trip)
                        == right;
                let trip = head + tail.skip(1);
                let m = head.len() - 1;
                assert(trip.take(m + 1) =~= head);
                assert(trip.skip(m) =~= tail);
                self.lemma_trip_split(extent, trip, m);
                assert(Self::trip_below(trip, j, a, b)) by {
                    assert forall|i: int| 0 < i < trip.len() - 1 implies 0 <= #[trigger] trip[i]
                        < j by {
                        if i < m {
                            assert(trip[i] == head[i]);
                        } else if i > m {
                            assert(trip[i] == tail[i - m]);
                        }
                    }
                }
                assert(Self::trip_below(trip, j, a, b) && self.trip_cost(extent, trip)
                    == self.spec_via(extent, j, a, b));
            } else {
                self.lemma_via_met(extent, last, a, b);
                let trip = choose|trip: Seq<int>| #[trigger]
                    Self::trip_below(trip, last, a, b) && self.trip_cost(extent, trip) == without;
                assert(Self::trip_below(trip, j, a, b) && self.trip_cost(extent, trip)
                    == self.spec_via(extent, j, a, b));
            }
        }
    }

    /// The table of one-step costs: for every two positions, what one step from the
    /// footprint at the first to the footprint at the second costs.
    fn direct_costs(&self, extent: Pair) -> (out: Grid<usize>)
        requires
            self.wf(),
            self.cells().len() * self.cells().len() <= usize::MAX,
        ensures
            out.wf(),
            out.spec_extent() == Pair(
                (self.cells().len() - 1) as usize,
                (self.cells().len() - 1) as usize,
            ),
            forall|p: Pair|
                out.has(p) ==> #[trigger] out.at(p) == self.spec_direct(
                    extent,
                    p.0 as int,
                    p.1 as int,
                ),
    {
        let count = self.len();
        proof {
            let w = self.width();
            let h = self.height();
            assert(w * h >= 1) by (nonlinear_arith)
                requires
                    w >= 1,
                    h >= 1,
            ;
        }
        let max_idx = count - 1;
        let mut distances: Grid<usize> = Grid::init(Pair(max_idx, max_idx), usize::MAX);
        let mut a: usize = 0;
        while a < count
            invariant
                self.wf(),
                count == self.cells().len(),
                count >= 1,
                max_idx == count - 1,
                0 <= a <= count,
                distances.wf(),
                distances.spec_extent() == Pair(max_idx, max_idx),
                forall|p: Pair|
                    distances.has(p) && p.0 < a ==> #[trigger] distances.at(p) == self.spec_direct(
                        extent,
                        p.0 as int,
                        p.1 as int,
                    ),
                forall|p: Pair|
                    distances.has(p) && p.0 >= a ==> #[trigger] distances.at(p) == usize::MAX,
            decreases count - a,
        {
            let origin = self.usize_to_pair(a);
            let here = Rect { origin, extent };
            let around = self.neighbors(here);
            proof {
                self.lemma_neighbors(here);
                assert(here == self.footprint_at(extent, a as int));
            }
            let mut t: usize = 0;
            while t < around.len()
                invariant
                    self.wf(),
                    count == self.cells().len(),
                    max_idx == count - 1,
                    0 <= a < count,
                    here == self.footprint_at(extent, a as int),
                    around@ == self.spec_neighbors(here),
                    0 <= t <= around.len(),
                    distances.wf(),
                    distances.spec_extent() == Pair(max_idx, max_idx),
                    forall|p: Pair|
                        distances.has(p) && p.0 < a ==> #[trigger] distances.at(p)
                            == self.spec_direct(extent, p.0 as int, p.1 as int),
                    forall|p: Pair|
                        distances.has(p) && p.0 > a ==> #[trigger] distances.at(p) == usize::MAX,
                    forall|p: Pair|
                        distances.has(p) && p.0 == a ==> #[trigger] distances.at(p) == if self.linked_by(
                            around@,
                            t as int,
                            p.1 as int,
                        ) {
                            self.spec_direct(extent, a as int, p.1 as int)
                        } else {
                            usize::MAX
                        },
                decreases around.len() - t,
            {
                let neighbor = around[t];
                proof {
                    self.lemma_neighbors(here);
                    assert(self.spec_neighbors(here)[t as int] == neighbor);
                    assert(self.admits(neighbor) && neighbor.extent == extent);
                    self.lemma_index(neighbor.origin);
                }
                let b = self.pair_to_usize(neighbor.origin);
                let step = self.cost(neighbor);
                let ghost before = distances;
                distances.set(Pair(a, b), step);
                proof {
                    assert(neighbor == self.footprint_at(extent, b as int));
                    assert(self.spec_neighbors(here).contains(neighbor));
                    assert(step == self.spec_direct(extent, a as int, b as int));
                    assert forall|p: Pair| distances.has(p) && p.0 == a implies #[trigger] distances.at(
                        p,
                    ) == if self.linked_by(around@, t + 1, p.1 as int) {
                        self.spec_direct(extent, a as int, p.1 as int)
                    } else {
                        usize::MAX
                    } by {
                        if p.1 == b {
                            assert(self.index_of(around@[t as int].origin) == p.1);
                        } else {
                            assert(distances.at(p) == before.at(p));
                            if self.linked_by(around@, t as int, p.1 as int) {
                                let s = choose|s: int|
                                    0 <= s < t && self.index_of((#[trigger] around@[s]).origin)
                                        == p.1;
                                assert(0 <= s < t + 1 && self.index_of(around@[s].origin) == p.1);
                            }
                            if self.linked_by(around@, t + 1, p.1 as int) {
                                let s = choose|s: int|
                                    0 <= s < t + 1 && self.index_of((#[trigger] around@[s]).origin)
                                        == p.1;
                                assert(s < t);
                            }
                        }
                    }
                }
                t += 1;
            }
            proof {
                assert forall|p: Pair| distances.has(p) && p.0 < a + 1 implies #[trigger] distances.at(
                    p,
                ) == self.spec_direct(extent, p.0 as int, p.1 as int) by {
                    if p.0 == a {
                        self.lemma_direct_row(extent, a as int, p.1 as int);
                    }
                }
            }
            a += 1;
        }
        distances
    }

    /// For every two cells, by their positions in the row-by-row walk, the cost of the
    /// cheapest way of a footprint of the given extent from the first to the second, found
    /// by allowing one cell after the other between; `usize::MAX` where there is no way.
    #[verifier::rlimit(40)]
    pub fn floyd_warshall(&self, extent: Pair) -> (out: Grid<usize>)
        requires
            self.wf(),
            self.cells().len() * self.cells().len() <= usize::MAX,
        ensures
            out.wf(),
            out.spec_extent() == Pair(
                (self.cells().len() - 1) as usize,
                (self.cells().len() - 1) as usize,
            ),
            forall|p: Pair|
                out.has(p) ==> #[trigger] out.at(p) == self.spec_via(
                    extent,
                    self.cells().len(),
                    p.0 as int,
                    p.1 as int,
                ),
            forall|p: Pair, trip: Seq<int>|
                out.has(p) && #[trigger] Self::trip_below(
                    trip,
                    self.cells().len(),
                    p.0 as int,
                    p.1 as int,
                ) ==> #[trigger] out.at(p) <= self.trip_cost(extent, trip),
            forall|p: Pair|
                out.has(p) && #[trigger] out.at(p) < usize::MAX ==> exists|trip: Seq<int>| #[trigger]
                    Self::trip_below(trip, self.cells().len(), p.0 as int, p.1 as int)
                        && self.trip_cost(extent, trip) == out.at(p),
    {
        proof {
            let n = self.cells().len();
            assert forall|p: Pair, trip: Seq<int>| #[trigger]
                Self::trip_below(trip, n, p.0 as int, p.1 as int) implies self.spec_via(
                extent,
                n,
                p.0 as int,
                p.1 as int,
            ) <= #[trigger] self.trip_cost(extent, trip) by {
                self.lemma_via_least(extent, n, p.0 as int, p.1 as int, trip);
            }
            assert forall|p: Pair| #[trigger]
                self.spec_via(extent, n, p.0 as int, p.1 as int) < usize::MAX implies exists|
                trip: Seq<int>,
            | #[trigger]
                Self::trip_below(trip, n, p.0 as int, p.1 as int) && self.trip_cost(extent, trip)
                    == self.spec_via(extent, n, p.0 as int, p.1 as int) by {
                self.lemma_via_met(extent, n, p.0 as int, p.1 as int);
            }
        }
        let count = self.len();
        proof {
            let w = self.width();
            let h = self.height();
            assert(w * h >= 1) by (nonlinear_arith)
                requires
                    w >= 1,
                    h >= 1,
            ;
        }
        let mut distances = self.direct_costs(extent);
        let max_idx = count - 1;
        let mut idx: usize = 0;
        while idx < count
            invariant
                count == self.cells().len(),
                count >= 1,
                max_idx == count - 1,
                0 <= idx <= count,
                distances.wf(),
                distances.spec_extent() == Pair(max_idx, max_idx),
                forall|p: Pair|
                    distances.has(p) ==> #[trigger] distances.at(p) == if p.0 == p.1 && p.0 < idx {
                        0
                    } else {
                        self.spec_direct(extent, p.0 as int, p.1 as int)
                    },
            decreases count - idx,
        {
            distances.set(Pair(idx, idx), 0);
            idx += 1;
        }
        let mut j: usize = 0;
        while j < count
            invariant
                count == self.cells().len(),
                count >= 1,
                max_idx == count - 1,
                0 <= j <= count,
                distances.wf(),
                distances.spec_extent() == Pair(max_idx, max_idx),
                forall|p: Pair|
                    distances.has(p) ==> #[trigger] distances.at(p) == self.spec_via(
                        extent,
                        j as nat,
                        p.0 as int,
                        p.1 as int,
                    ),
            decreases count - j,
        {
            let mut i: usize = 0;
            while i < count
                invariant
                    count == self.cells().len(),
                    max_idx == count - 1,
                    0 <= j < count,
                    0 <= i <= count,
                    distances.wf(),
                    distances.spec_extent() == Pair(max_idx, max_idx),
                    forall|p: Pair|
                        distances.has(p) ==> #[trigger] distances.at(p) == self.spec_via(
                            extent,
                            if p.0 < i {
                                (j + 1) as nat
                            } else {
                                j as nat
                            },
                            p.0 as int,
                            p.1 as int,
                        ),
                decreases count - i,
            {
                let mut k: usize = 0;
                while k < count
                    invariant
                        count == self.cells().len(),
                        max_idx == count - 1,
                        0 <= j < count,
                        0 <= i < count,
                        0 <= k <= count,
                        distances.wf(),
                        distances.spec_extent() == Pair(max_idx, max_idx),
                        forall|p: Pair|
                            distances.has(p) ==> #[trigger] distances.at(p) == self.spec_via(
                                extent,
                                if p.0 < i || (p.0 == i && p.1 < k) {
                                    (j + 1) as nat
                                } else {
                                    j as nat
                                },
                                p.0 as int,
                                p.1 as int,
                            ),
                    decreases count - k,
                {
                    proof {
                        self.lemma_via_through(extent, j as nat, i as int);
                        self.lemma_via_through(extent, j as nat, k as int);
                        assert(distances.at(Pair(i, j)) == self.spec_via(
                            extent,
                            j as nat,
                            i as int,
                            j as int,
                        ));
                        assert(distances.at(Pair(j, k)) == self.spec_via(
                            extent,
                            j as nat,
                            j as int,
                            k as int,
                        ));
                        assert(distances.at(Pair(i, k)) == self.spec_via(
                            extent,
                            j as nat,
                            i as int,
                            k as int,
                        ));
                    }
                    let through = saturating_sum(
                        *distances.get(Pair(i, j)),
                        *distances.get(Pair(j, k)),
                    );
                    if *distances.get(Pair(i, k)) > through {
                        distances.set(Pair(i, k), through);
                    }
                    k += 1;
                }
                i += 1;
            }
            j += 1;
        }
        distances
    }
}

} // verus!
