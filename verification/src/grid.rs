//! A dense two-dimensional array indexed by cell, and the footprint queries on a map.
use crate::geometry::{lemma_cells_cover, Pair, Rect};
use crate::model::{saturate, saturating_sum, CellInfo};
use vstd::prelude::*;

verus! {

/// A dense array of `T` over the cells `(0, 0) ..= extent`, stored row by row.
pub struct Grid<T> {
    data: Vec<T>,
    extent: Pair,
}

impl<T> Grid<T> {
    /// The largest cell of the grid.
    pub closed spec fn spec_extent(&self) -> Pair {
        self.extent
    }

    /// The contents, row by row.
    pub closed spec fn cells(&self) -> Seq<T> {
        self.data@
    }

    /// The number of cells in a row.
    pub open spec fn width(&self) -> int {
        self.spec_extent().0 + 1
    }

    /// The number of rows.
    pub open spec fn height(&self) -> int {
        self.spec_extent().1 + 1
    }

    /// The grid holds one value for each of its cells.
    pub open spec fn wf(&self) -> bool {
        &&& self.spec_extent().0 < usize::MAX
        &&& self.spec_extent().1 < usize::MAX
        &&& self.cells().len() == self.width() * self.height()
    }

    /// `p` is a cell of the grid.
    pub open spec fn has(&self, p: Pair) -> bool {
        p.0 <= self.spec_extent().0 && p.1 <= self.spec_extent().1
    }

    /// Where the value of cell `p` stands in `cells()`.
    pub open spec fn index_of(&self, p: Pair) -> int {
        p.0 + p.1 * self.width()
    }

    /// The cell whose value stands at index `i` of `cells()`.
    pub open spec fn pair_of(&self, i: int) -> Pair {
        Pair((i % self.width()) as usize, (i / self.width()) as usize)
    }

    /// The value at cell `p`.
    pub open spec fn at(&self, p: Pair) -> T {
        self.cells()[self.index_of(p)]
    }

    /// The number of cells is a machine integer.
    pub proof fn lemma_len_fits(&self)
        ensures
            self.cells().len() <= usize::MAX,
    {
        assert(self.data.len() == self.data@.len());
    }

    /// A cell of the grid has an index, from which the cell is found again.
    pub proof fn lemma_index(&self, p: Pair)
        requires
            self.wf(),
            self.has(p),
        ensures
            0 <= self.index_of(p) < self.cells().len(),
            self.pair_of(self.index_of(p)) == p,
    {
        let w = self.width();
        let h = self.height();
        let x = p.0 as int;
        let y = p.1 as int;
        assert(0 <= x + y * w < w * h) by (nonlinear_arith)
            requires
                0 <= x < w,
                0 <= y < h,
        ;
        assert(y * w == w * y) by (nonlinear_arith);
        vstd::arithmetic::div_mod::lemma_fundamental_div_mod_converse(x + y * w, w, y, x);
    }

    /// An index of `cells()` belongs to a cell of the grid, from which the index is found again.
    pub proof fn lemma_pair(&self, i: int)
        requires
            self.wf(),
            0 <= i < self.cells().len(),
        ensures
            self.has(self.pair_of(i)),
            self.index_of(self.pair_of(i)) == i,
            0 <= i % self.width() <= self.spec_extent().0,
            0 <= i / self.width() <= self.spec_extent().1,
    {
        let w = self.width();
        let h = self.height();
        vstd::arithmetic::div_mod::lemma_fundamental_div_mod(i, w);
        vstd::arithmetic::div_mod::lemma_mod_bound(i, w);
        let q = i / w;
        let m = i % w;
        assert(w * q == q * w) by (nonlinear_arith);
        assert(0 <= q < h) by (nonlinear_arith)
            requires
                0 <= i < w * h,
                i == q * w + m,
                0 <= m < w,
                w >= 1,
        ;
    }

    /// The largest cell.
    pub fn extent(&self) -> (out: Pair)
        ensures
            out == self.spec_extent(),
    {
        self.extent
    }

    /// Width and height.
    pub fn size(&self) -> (out: Pair)
        ensures
            out == self.spec_extent().spec_add(Pair(1, 1)),
            self.wf() ==> out.0 == self.width() && out.1 == self.height(),
    {
        self.extent + Pair(1, 1)
    }

    /// The cell at position `index` of a row-by-row walk over a grid with this extent.
    pub fn usize_to_pair_(extent: Pair, index: usize) -> (out: Pair)
        requires
            extent.0 < usize::MAX,
        ensures
            out.0 == index % ((extent.0 + 1) as usize),
            out.1 == index / ((extent.0 + 1) as usize),
    {
        Pair(index % (extent.0 + 1), index / (extent.0 + 1))
    }

    /// The cell at position `index` of the row-by-row walk over this grid.
    pub fn usize_to_pair(&self, index: usize) -> (out: Pair)
        requires
            self.wf(),
        ensures
            out == self.pair_of(index as int),
            index < self.cells().len() ==> self.has(out),
    {
        proof {
            if index < self.cells().len() {
                self.lemma_pair(index as int);
            }
        }
        Grid::<T>::usize_to_pair_(self.extent, index)
    }

    /// The position of a cell of the grid in the row-by-row walk.
    pub fn pair_to_usize(&self, index: Pair) -> (out: usize)
        requires
            self.wf(),
            self.has(index),
        ensures
            out == self.index_of(index),
            out < self.cells().len(),
    {
        proof {
            self.lemma_index(index);
            self.lemma_len_fits();
            assert(index.1 * (self.extent.0 + 1) >= 0) by (nonlinear_arith);
        }
        index.0 + index.1 * (self.extent.0 + 1)
    }

    /// The number of cells.
    pub fn len(&self) -> (out: usize)
        ensures
            out == self.cells().len(),
    {
        self.data.len()
    }

    /// The value at a cell of the grid.
    pub fn get(&self, index: Pair) -> (out: &T)
        requires
            self.wf(),
            self.has(index),
        ensures
            *out == self.at(index),
    {
        let i = self.pair_to_usize(index);
        &self.data[i]
    }

    /// The value at position `i` of the row-by-row walk.
    pub fn get_at(&self, i: usize) -> (out: &T)
        requires
            i < self.cells().len(),
        ensures
            *out == self.cells()[i as int],
    {
        &self.data[i]
    }

    /// Replaces the value at a cell of the grid.
    pub fn set(&mut self, index: Pair, value: T)
        requires
            old(self).wf(),
            old(self).has(index),
        ensures
            final(self).wf(),
            final(self).spec_extent() == old(self).spec_extent(),
            final(self).cells() == old(self).cells().update(old(self).index_of(index), value),
            final(self).at(index) == value,
            forall|q: Pair|
                old(self).has(q) && q != index ==> #[trigger] final(self).at(q) == old(self).at(
                    q,
                ),
    {
        let i = self.pair_to_usize(index);
        self.data.set(i, value);
        proof {
            assert forall|q: Pair| old(self).has(q) && q != index implies #[trigger] self.at(q)
                == old(self).at(q) by {
                old(self).lemma_index(q);
                old(self).lemma_index(index);
            }
        }
    }
}

impl<T> vstd::std_specs::core::IndexSpecImpl<Pair> for Grid<T> {
    open spec fn index_req(&self, index: &Pair) -> bool {
        self.wf() && self.has(*index)
    }
}

impl<T> std::ops::Index<Pair> for Grid<T> {
    type Output = T;

    /// The value at a cell of the grid.
    fn index(&self, index: Pair) -> (out: &T)
        ensures
            *out == self.at(index),
    {
        self.get(index)
    }
}

impl<T: Copy> Grid<T> {
    /// A grid over `(0, 0) ..= extent` with `value` at every cell.
    pub fn init(extent: Pair, value: T) -> (out: Grid<T>)
        requires
            (extent.0 + 1) * (extent.1 + 1) <= usize::MAX,
        ensures
            out.wf(),
            out.spec_extent() == extent,
            forall|i: int| 0 <= i < out.cells().len() ==> out.cells()[i] == value,
            forall|p: Pair| out.has(p) ==> #[trigger] out.at(p) == value,
    {
        let ghost w = extent.0 + 1;
        let ghost h = extent.1 + 1;
        proof {
            assert(w * h >= w && w * h >= h) by (nonlinear_arith)
                requires
                    w >= 1,
                    h >= 1,
            ;
        }
        let count: usize = (extent.0 + 1) * (extent.1 + 1);
        let mut data: Vec<T> = Vec::new();
        let mut i: usize = 0;
        while i < count
            invariant
                0 <= i <= count,
                data@.len() == i,
                forall|j: int| 0 <= j < i ==> data@[j] == value,
            decreases count - i,
        {
            data.push(value);
            i += 1;
        }
        let out = Grid { data, extent };
        proof {
            assert forall|p: Pair| out.has(p) implies #[trigger] out.at(p) == value by {
                out.lemma_index(p);
            }
        }
        out
    }

    /// Every cell with its value, row by row.
    pub fn indexed_iter(&self) -> (out: Vec<(Pair, T)>)
        requires
            self.wf(),
        ensures
            out@.len() == self.cells().len(),
            forall|i: int|
                0 <= i < out@.len() ==> #[trigger] out@[i] == (self.pair_of(i), self.cells()[i]),
            forall|i: int|
                0 <= i < out@.len() ==> self.has(#[trigger] out@[i].0) && out@[i].1 == self.at(
                    out@[i].0,
                ),
    {
        let mut out: Vec<(Pair, T)> = Vec::new();
        let count = self.data.len();
        let mut i: usize = 0;
        while i < count
            invariant
                self.wf(),
                count == self.cells().len(),
                0 <= i <= count,
                out@.len() == i,
                forall|j: int|
                    0 <= j < i ==> #[trigger] out@[j] == (self.pair_of(j), self.cells()[j]),
                forall|j: int|
                    0 <= j < i ==> self.has(#[trigger] out@[j].0) && out@[j].1 == self.at(
                        out@[j].0,
                    ),
            decreases count - i,
        {
            let position = self.usize_to_pair(i);
            proof {
                self.lemma_pair(i as int);
            }
            out.push((position, self.data[i]));
            i += 1;
        }
        out
    }
}

impl Grid<CellInfo> {
    /// The footprint lies inside the grid.
    pub open spec fn contains_rect(&self, rect: Rect) -> bool {
        &&& rect.origin.0 + rect.extent.0 <= self.spec_extent().0
        &&& rect.origin.1 + rect.extent.1 <= self.spec_extent().1
    }

    /// No cell of the footprint is blocked.
    pub open spec fn clear(&self, rect: Rect) -> bool {
        forall|c: Pair| rect.covers(c) ==> !(#[trigger] self.at(c)).blocked
    }

    /// An agent may occupy the footprint: it lies inside the grid and is clear.
    pub open spec fn admits(&self, rect: Rect) -> bool {
        self.contains_rect(rect) && self.clear(rect)
    }

    /// The largest origin at which a footprint of the given extent lies inside the grid.
    pub open spec fn spec_effective_extent(&self, extent: Pair) -> Pair {
        Pair(
            (self.spec_extent().0 - extent.0) as usize,
            (self.spec_extent().1 - extent.1) as usize,
        )
    }

    /// Sum of the entry costs of the listed cells.
    pub open spec fn sum_costs(&self, cells: Seq<Pair>) -> int
        decreases cells.len(),
    {
        if cells.len() == 0 {
            0
        } else {
            self.sum_costs(cells.drop_last()) + self.at(cells.last()).cost
        }
    }

    /// What entering the footprint costs: the sum of the costs of its cells.
    pub open spec fn spec_cost(&self, rect: Rect) -> int {
        self.sum_costs(rect.spec_cells())
    }

    /// The footprint moved by one cell in direction `k`: right, up, left, down.
    pub open spec fn candidate(rect: Rect, k: int) -> Rect {
        if k == 0 {
            rect.spec_shift(Pair(1, 0))
        } else if k == 1 {
            rect.spec_shift(Pair(0, 1))
        } else if k == 2 {
            rect.spec_shift(Pair(usize::MAX, 0))
        } else {
            rect.spec_shift(Pair(0, usize::MAX))
        }
    }

    /// `found` with the candidate appended if the grid admits it.
    pub open spec fn keep(&self, found: Seq<Rect>, candidate: Rect) -> Seq<Rect> {
        if self.admits(candidate) {
            found.push(candidate)
        } else {
            found
        }
    }

    /// The footprints one step away that the grid admits, in the order right, up, left, down.
    pub open spec fn spec_neighbors(&self, rect: Rect) -> Seq<Rect> {
        self.keep(
            self.keep(
                self.keep(
                    self.keep(Seq::empty(), Self::candidate(rect, 0)),
                    Self::candidate(rect, 1),
                ),
                Self::candidate(rect, 2),
            ),
            Self::candidate(rect, 3),
        )
    }

    /// A footprint inside the grid does not wrap, and its cells are cells of the grid.
    pub proof fn lemma_inside(&self, rect: Rect)
        requires
            self.wf(),
            self.contains_rect(rect),
        ensures
            rect.fits(),
            rect.area() <= self.cells().len() <= usize::MAX,
            forall|c: Pair| rect.covers(c) ==> self.has(c),
            forall|i: int|
                0 <= i < rect.spec_cells().len() ==> self.has(#[trigger] rect.spec_cells()[i]),
    {
        let a = rect.width();
        let b = rect.height();
        let w = self.width();
        let h = self.height();
        self.lemma_len_fits();
        assert(a * b <= w * h) by (nonlinear_arith)
            requires
                1 <= a <= w,
                1 <= b <= h,
        ;
        lemma_cells_cover(rect);
    }

    /// The neighbours of a footprint are admitted, keep its extent, and are among the four
    /// candidates; an admitted candidate is a neighbour.
    pub proof fn lemma_neighbors(&self, rect: Rect)
        ensures
            self.spec_neighbors(rect).len() <= 4,
            forall|i: int|
                0 <= i < self.spec_neighbors(rect).len() ==> {
                    let n = #[trigger] self.spec_neighbors(rect)[i];
                    &&& self.admits(n)
                    &&& n.extent == rect.extent
                    &&& exists|k: int| 0 <= k < 4 && n == Self::candidate(rect, k)
                },
            forall|k: int|
                0 <= k < 4 && self.admits(#[trigger] Self::candidate(rect, k))
                    ==> self.spec_neighbors(rect).contains(Self::candidate(rect, k)),
    {
        let c0 = Self::candidate(rect, 0);
        let c1 = Self::candidate(rect, 1);
        let c2 = Self::candidate(rect, 2);
        let c3 = Self::candidate(rect, 3);
        let s0 = self.keep(Seq::empty(), c0);
        let s1 = self.keep(s0, c1);
        let s2 = self.keep(s1, c2);
        let s3 = self.keep(s2, c3);
        assert(s3 == self.spec_neighbors(rect));
        assert forall|i: int| 0 <= i < s3.len() implies {
            let n = #[trigger] s3[i];
            &&& self.admits(n)
            &&& n.extent == rect.extent
            &&& exists|k: int| 0 <= k < 4 && n == Self::candidate(rect, k)
        } by {
            let n = s3[i];
            assert(n == c0 || n == c1 || n == c2 || n == c3);
            if n == c0 {
                assert(n == Self::candidate(rect, 0));
            } else if n == c1 {
                assert(n == Self::candidate(rect, 1));
            } else if n == c2 {
                assert(n == Self::candidate(rect, 2));
            } else {
                assert(n == Self::candidate(rect, 3));
            }
        }
        assert forall|k: int|
            0 <= k < 4 && self.admits(#[trigger] Self::candidate(rect, k)) implies s3.contains(
            Self::candidate(rect, k),
        ) by {
            if k == 0 {
                assert(s0[s0.len() - 1] == c0);
                assert(s3[s0.len() - 1] == c0);
            } else if k == 1 {
                assert(s1[s1.len() - 1] == c1);
                assert(s3[s1.len() - 1] == c1);
            } else if k == 2 {
                assert(s2[s2.len() - 1] == c2);
                assert(s3[s2.len() - 1] == c2);
            } else {
                assert(s3[s3.len() - 1] == c3);
            }
        }
    }

    /// The largest origin at which a footprint of the given extent lies inside the grid.
    pub fn effective_extent(&self, extent: Pair) -> (out: Pair)
        requires
            extent.0 <= self.spec_extent().0,
            extent.1 <= self.spec_extent().1,
        ensures
            out == self.spec_effective_extent(extent),
    {
        Pair(self.extent.0 - extent.0, self.extent.1 - extent.1)
    }

    /// The number of origins along each axis at which such a footprint lies inside the grid.
    pub fn effective_size(&self, extent: Pair) -> (out: Pair)
        requires
            extent.0 <= self.spec_extent().0,
            extent.1 <= self.spec_extent().1,
        ensures
            out == self.spec_effective_extent(extent).spec_add(Pair(1, 1)),
            self.wf() ==> out.0 == self.spec_extent().0 - extent.0 + 1 && out.1
                == self.spec_extent().1 - extent.1 + 1,
    {
        self.effective_extent(extent) + Pair(1, 1)
    }

    /// Whether the footprint lies inside the grid.
    pub fn in_bounds(&self, rect: Rect) -> (out: bool)
        ensures
            out == self.contains_rect(rect),
    {
        rect.origin.0 <= self.extent.0 && rect.extent.0 <= self.extent.0 - rect.origin.0
            && rect.origin.1 <= self.extent.1 && rect.extent.1 <= self.extent.1 - rect.origin.1
    }

    /// Whether the cell is not blocked.
    pub fn cell_is_clear(&self, cell: Pair) -> (out: bool)
        requires
            self.wf(),
            self.has(cell),
        ensures
            out == !self.at(cell).blocked,
    {
        !self.get(cell).blocked
    }

    /// Whether no cell of a footprint inside the grid is blocked.
    pub fn is_clear(&self, rect: Rect) -> (out: bool)
        requires
            self.wf(),
            self.contains_rect(rect),
        ensures
            out == self.clear(rect),
    {
        proof {
            self.lemma_inside(rect);
        }
        let cells = rect.cells();
        let mut i: usize = 0;
        while i < cells.len()
            invariant
                self.wf(),
                self.contains_rect(rect),
                rect.fits(),
                cells@ == rect.spec_cells(),
                0 <= i <= cells.len(),
                forall|j: int| 0 <= j < cells@.len() ==> self.has(#[trigger] cells@[j]),
                forall|j: int| 0 <= j < i ==> !self.at(#[trigger] cells@[j]).blocked,
            decreases cells.len() - i,
        {
            if !self.cell_is_clear(cells[i]) {
                proof {
                    lemma_cells_cover(rect);
                    assert(rect.covers(cells@[i as int]));
                }
                return false;
            }
            i += 1;
        }
        proof {
            lemma_cells_cover(rect);
            assert forall|c: Pair| rect.covers(c) implies !(#[trigger] self.at(c)).blocked by {
                assert(rect.spec_cells().contains(c));
                let j = choose|j: int| 0 <= j < cells@.len() && cells@[j] == c;
                assert(!self.at(cells@[j]).blocked);
            }
        }
        true
    }

    /// Whether an agent may occupy the footprint.
    pub fn is_admitted(&self, rect: Rect) -> (out: bool)
        requires
            self.wf(),
        ensures
            out == self.admits(rect),
    {
        self.in_bounds(rect) && self.is_clear(rect)
    }

    /// The admitted footprints one step away from a footprint inside the grid.
    pub fn neighbors(&self, rect: Rect) -> (out: Vec<Rect>)
        requires
            self.wf(),
        ensures
            out@ == self.spec_neighbors(rect),
    {
        let candidates = [
            rect + Pair(1, 0),
            rect + Pair(0, 1),
            rect + Pair(usize::MAX, 0),
            rect + Pair(0, usize::MAX),
        ];
        let mut out: Vec<Rect> = Vec::new();
        if self.is_admitted(candidates[0]) {
            out.push(candidates[0]);
        }
        assert(out@ == self.keep(Seq::empty(), Self::candidate(rect, 0)));
        if self.is_admitted(candidates[1]) {
            out.push(candidates[1]);
        }
        if self.is_admitted(candidates[2]) {
            out.push(candidates[2]);
        }
        if self.is_admitted(candidates[3]) {
            out.push(candidates[3]);
        }
        out
    }

    /// Marks every cell of a footprint inside the grid as blocked or not, costs unchanged.
    pub fn set_blocked(&mut self, rect: Rect, blocked: bool)
        requires
            old(self).wf(),
            old(self).contains_rect(rect),
        ensures
            final(self).wf(),
            final(self).spec_extent() == old(self).spec_extent(),
            forall|q: Pair|
                old(self).has(q) ==> (#[trigger] final(self).at(q)).cost == old(self).at(q).cost,
            forall|q: Pair|
                old(self).has(q) ==> (#[trigger] final(self).at(q)).blocked == if rect.covers(q) {
                    blocked
                } else {
                    old(self).at(q).blocked
                },
    {
        proof {
            self.lemma_inside(rect);
        }
        let cells = rect.cells();
        let mut i: usize = 0;
        while i < cells.len()
            invariant
                self.wf(),
                old(self).wf(),
                self.spec_extent() == old(self).spec_extent(),
                rect.fits(),
                cells@ == rect.spec_cells(),
                0 <= i <= cells.len(),
                forall|j: int| 0 <= j < cells@.len() ==> self.has(#[trigger] cells@[j]),
                forall|q: Pair|
                    old(self).has(q) ==> (#[trigger] self.at(q)).cost == old(self).at(q).cost,
                forall|q: Pair|
                    old(self).has(q) ==> (#[trigger] self.at(q)).blocked == if cells@.take(
                        i as int,
                    ).contains(q) {
                        blocked
                    } else {
                        old(self).at(q).blocked
                    },
            decreases cells.len() - i,
        {
            let cell = cells[i];
            let cost = self.get(cell).cost;
            let ghost before = *self;
            self.set(cell, CellInfo { cost, blocked });
            proof {
                assert forall|q: Pair| old(self).has(q) implies (#[trigger] self.at(q)).blocked
                    == if cells@.take(i + 1).contains(q) {
                    blocked
                } else {
                    old(self).at(q).blocked
                } by {
                    let s0 = cells@.take(i as int);
                    let s1 = cells@.take(i + 1);
                    assert(s1 =~= s0.push(cell));
                    if q == cell {
                        assert(s1[i as int] == q);
                    } else {
                        assert(self.at(q) == before.at(q));
                        if s0.contains(q) {
                            let j = choose|j: int| 0 <= j < s0.len() && s0[j] == q;
                            assert(s1[j] == q);
                        }
                        if s1.contains(q) {
                            let j = choose|j: int| 0 <= j < s1.len() && s1[j] == q;
                            assert(s0[j] == q);
                        }
                    }
                }
            }
            i += 1;
        }
        proof {
            lemma_cells_cover(rect);
            assert(cells@.take(cells@.len() as int) =~= cells@);
            assert forall|q: Pair| old(self).has(q) implies (#[trigger] self.at(q)).blocked
                == if rect.covers(q) {
                blocked
            } else {
                old(self).at(q).blocked
            } by {
                if cells@.contains(q) {
                    let j = choose|j: int| 0 <= j < cells@.len() && cells@[j] == q;
                    assert(rect.covers(rect.spec_cells()[j]));
                }
            }
        }
    }

    /// What entering a footprint inside the grid costs, infinite if the sum does not fit.
    pub fn cost(&self, rect: Rect) -> (out: usize)
        requires
            self.wf(),
            self.contains_rect(rect),
        ensures
            out == saturate(self.spec_cost(rect)),
    {
        proof {
            self.lemma_inside(rect);
        }
        let cells = rect.cells();
        let mut total: usize = 0;
        let mut i: usize = 0;
        while i < cells.len()
            invariant
                self.wf(),
                cells@ == rect.spec_cells(),
                0 <= i <= cells.len(),
                forall|j: int| 0 <= j < cells@.len() ==> self.has(#[trigger] cells@[j]),
                self.sum_costs(cells@.take(i as int)) >= 0,
                total == saturate(self.sum_costs(cells@.take(i as int))),
            decreases cells.len() - i,
        {
            proof {
                assert(cells@.take(i + 1).drop_last() =~= cells@.take(i as int));
            }
            total = saturating_sum(total, self.get(cells[i]).cost);
            i += 1;
        }
        proof {
            assert(cells@.take(cells@.len() as int) =~= cells@);
        }
        total
    }
}

impl Grid<usize> {
    /// Lowers every value to that of `other` at the same cell where that is smaller.
    pub fn lower_to(&mut self, other: &Grid<usize>)
        requires
            old(self).wf(),
            other.wf(),
            old(self).spec_extent() == other.spec_extent(),
        ensures
            final(self).wf(),
            final(self).spec_extent() == old(self).spec_extent(),
            forall|p: Pair|
                old(self).has(p) ==> #[trigger] final(self).at(p) == if other.at(p) < old(self).at(
                    p,
                ) {
                    other.at(p)
                } else {
                    old(self).at(p)
                },
    {
        let count = self.data.len();
        let mut i: usize = 0;
        while i < count
            invariant
                self.extent == old(self).extent,
                self.data@.len() == count,
                old(self).data@.len() == count,
                other.data@.len() == count,
                0 <= i <= count,
                forall|j: int|
                    0 <= j < i ==> #[trigger] self.data@[j] == if other.data@[j] < old(
                        self,
                    ).data@[j] {
                        other.data@[j]
                    } else {
                        old(self).data@[j]
                    },
                forall|j: int| i <= j < count ==> #[trigger] self.data@[j] == old(self).data@[j],
            decreases count - i,
        {
            let theirs = other.data[i];
            if theirs < self.data[i] {
                self.data.set(i, theirs);
            }
            i += 1;
        }
        proof {
            assert forall|p: Pair| old(self).has(p) implies #[trigger] self.at(p) == if other.at(p)
                < old(self).at(p) {
                other.at(p)
            } else {
                old(self).at(p)
            } by {
                old(self).lemma_index(p);
            }
        }
    }
}

} // verus!
