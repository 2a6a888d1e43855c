//! Integer geometry of the grid: cells, displacements and axis-aligned rectangles.
use vstd::prelude::*;
use vstd::std_specs::convert::FromSpecImpl;
use vstd::std_specs::ops::AddSpecImpl;

verus! {

/// Result of a three-way comparison.
#[derive(Clone, Copy, Debug, PartialEq, Eq, Structural)]
pub enum Rank {
    Less,
    Equal,
    Greater,
}

impl Rank {
    /// Three-way comparison of two integers.
    pub open spec fn of(a: int, b: int) -> Rank {
        if a < b {
            Rank::Less
        } else if a == b {
            Rank::Equal
        } else {
            Rank::Greater
        }
    }

    /// Lexicographic refinement: `self` decides unless it is `Equal`.
    pub open spec fn spec_refine(self, next: Rank) -> Rank {
        if self == Rank::Equal {
            next
        } else {
            self
        }
    }

    /// The comparison with its arguments exchanged.
    pub open spec fn spec_flip(self) -> Rank {
        match self {
            Rank::Less => Rank::Greater,
            Rank::Equal => Rank::Equal,
            Rank::Greater => Rank::Less,
        }
    }

    /// Three-way comparison of two machine integers.
    pub fn of_usize(a: usize, b: usize) -> (out: Rank)
        ensures
            out == Rank::of(a as int, b as int),
    {
        if a < b {
            Rank::Less
        } else if a == b {
            Rank::Equal
        } else {
            Rank::Greater
        }
    }

    /// `self` unless it is `Equal`, then `next`.
    pub fn refine(self, next: Rank) -> (out: Rank)
        ensures
            out == self.spec_refine(next),
    {
        match self {
            Rank::Equal => next,
            Rank::Less => Rank::Less,
            Rank::Greater => Rank::Greater,
        }
    }

    /// The comparison with its arguments exchanged.
    pub fn flip(self) -> (out: Rank)
        ensures
            out == self.spec_flip(),
    {
        match self {
            Rank::Less => Rank::Greater,
            Rank::Equal => Rank::Equal,
            Rank::Greater => Rank::Less,
        }
    }
}

/// An ordered pair of non-negative integers: a cell `(x, y)`, a displacement,
/// an extent, or a pair of ticks.
#[derive(Clone, Copy, Debug, PartialEq, Eq, Structural, PartialOrd, Ord, Hash)]
pub struct Pair(pub usize, pub usize);

impl Pair {
    /// Coordinate-wise sum modulo `usize::MAX + 1`.
    pub open spec fn spec_add(self, rhs: Pair) -> Pair {
        Pair(
            vstd::wrapping::usize_specs::wrapping_add(self.0, rhs.0),
            vstd::wrapping::usize_specs::wrapping_add(self.1, rhs.1),
        )
    }

    /// Lexicographic order, first coordinate first.
    pub open spec fn spec_rank(self, other: Pair) -> Rank {
        Rank::of(self.0 as int, other.0 as int).spec_refine(Rank::of(self.1 as int, other.1 as int))
    }

    /// Where this cell stands against `other`, first coordinate first.
    pub fn rank(self, other: Pair) -> (out: Rank)
        ensures
            out == self.spec_rank(other),
    {
        Rank::of_usize(self.0, other.0).refine(Rank::of_usize(self.1, other.1))
    }

    /// The rectangle with this cell as its lower corner.
    pub fn extend(self, extent: Pair) -> (out: Rect)
        ensures
            out == (Rect { origin: self, extent }),
    {
        Rect { origin: self, extent }
    }
}

impl AddSpecImpl<Pair> for Pair {
    open spec fn obeys_add_spec() -> bool {
        true
    }

    open spec fn add_req(self, rhs: Pair) -> bool {
        true
    }

    open spec fn add_spec(self, rhs: Pair) -> Pair {
        self.spec_add(rhs)
    }
}

impl std::ops::Add<Pair> for Pair {
    type Output = Pair;

    fn add(self, rhs: Pair) -> (out: Pair) {
        Pair(self.0.wrapping_add(rhs.0), self.1.wrapping_add(rhs.1))
    }
}

impl FromSpecImpl<(usize, usize)> for Pair {
    open spec fn obeys_from_spec() -> bool {
        true
    }

    open spec fn from_spec(value: (usize, usize)) -> Pair {
        Pair(value.0, value.1)
    }
}

impl From<(usize, usize)> for Pair {
    fn from(value: (usize, usize)) -> (out: Pair) {
        Pair(value.0, value.1)
    }
}

impl FromSpecImpl<Pair> for (usize, usize) {
    open spec fn obeys_from_spec() -> bool {
        true
    }

    open spec fn from_spec(value: Pair) -> (usize, usize) {
        (value.0, value.1)
    }
}

impl From<Pair> for (usize, usize) {
    fn from(value: Pair) -> (out: (usize, usize)) {
        (value.0, value.1)
    }
}

/// The rectangle of cells `(a, b)` with `origin.0 <= a <= origin.0 + extent.0`
/// and `origin.1 <= b <= origin.1 + extent.1`. An extent of `(0, 0)` is one cell.
#[derive(Clone, Copy, Debug, PartialEq, Eq, Structural, PartialOrd, Ord, Hash)]
pub struct Rect {
    pub origin: Pair,
    pub extent: Pair,
}

impl AddSpecImpl<Pair> for Rect {
    open spec fn obeys_add_spec() -> bool {
        true
    }

    open spec fn add_req(self, rhs: Pair) -> bool {
        true
    }

    open spec fn add_spec(self, rhs: Pair) -> Rect {
        self.spec_shift(rhs)
    }
}

impl std::ops::Add<Pair> for Rect {
    type Output = Rect;

    fn add(self, rhs: Pair) -> (out: Rect) {
        Rect { origin: self.origin + rhs, extent: self.extent }
    }
}

impl Rect {
    /// The rectangle moved by `by`, coordinates wrapping.
    pub open spec fn spec_shift(self, by: Pair) -> Rect {
        Rect { origin: self.origin.spec_add(by), extent: self.extent }
    }

    /// The upper corner is representable: no coordinate of the rectangle wraps.
    pub open spec fn fits(self) -> bool {
        &&& self.origin.0 + self.extent.0 <= usize::MAX
        &&& self.origin.1 + self.extent.1 <= usize::MAX
    }

    /// Number of cells in a row of the rectangle.
    pub open spec fn width(self) -> int {
        self.extent.0 + 1
    }

    /// Number of cells in a column of the rectangle.
    pub open spec fn height(self) -> int {
        self.extent.1 + 1
    }

    /// Number of cells of the rectangle.
    pub open spec fn area(self) -> int {
        self.width() * self.height()
    }

    /// `cell` lies in the rectangle.
    pub open spec fn covers(self, cell: Pair) -> bool {
        &&& self.origin.0 <= cell.0 <= self.origin.0 + self.extent.0
        &&& self.origin.1 <= cell.1 <= self.origin.1 + self.extent.1
    }

    /// Width and height, wrapping for an extent of `usize::MAX`.
    pub open spec fn spec_size(self) -> Pair {
        self.extent.spec_add(Pair(1, 1))
    }

    /// The upper corner, wrapping where it is not representable.
    pub open spec fn spec_max_coord(self) -> Pair {
        self.origin.spec_add(self.extent)
    }

    /// The cells of the rectangle, column by column: cell `(origin.0 + dx, origin.1 + dy)`
    /// stands at index `dx * height + dy`.
    pub open spec fn spec_cells(self) -> Seq<Pair> {
        Seq::new(
            self.area() as nat,
            |i: int|
                Pair(
                    (self.origin.0 + i / self.height()) as usize,
                    (self.origin.1 + i % self.height()) as usize,
                ),
        )
    }

    /// The interval test on both axes, on the upper corners as `max_coord` gives them.
    pub open spec fn spec_intersects(self, other: Rect) -> bool {
        &&& self.origin.0 <= other.spec_max_coord().0
        &&& other.origin.0 <= self.spec_max_coord().0
        &&& self.origin.1 <= other.spec_max_coord().1
        &&& other.origin.1 <= self.spec_max_coord().1
    }

    /// Order by origin, then by extent.
    pub open spec fn spec_rank(self, other: Rect) -> Rank {
        self.origin.spec_rank(other.origin).spec_refine(self.extent.spec_rank(other.extent))
    }

    /// Where this rectangle stands against `other`, by origin and then by extent.
    pub fn rank(self, other: Rect) -> (out: Rank)
        ensures
            out == self.spec_rank(other),
    {
        self.origin.rank(other.origin).refine(self.extent.rank(other.extent))
    }

    /// Width and height, wrapping for an extent of `usize::MAX`.
    pub fn size(self) -> (out: Pair)
        ensures
            out == self.spec_size(),
            self.extent.0 < usize::MAX ==> out.0 == self.width(),
            self.extent.1 < usize::MAX ==> out.1 == self.height(),
    {
        self.extent + Pair(1, 1)
    }

    /// The inclusive upper corner.
    pub fn max_coord(self) -> (out: Pair)
        ensures
            out == self.spec_max_coord(),
            self.fits() ==> out.0 == self.origin.0 + self.extent.0 && out.1 == self.origin.1
                + self.extent.1,
    {
        self.origin + self.extent
    }

    /// Whether the cell lies in the rectangle.
    pub fn contains(self, cell: Pair) -> (out: bool)
        ensures
            out == self.covers(cell),
    {
        self.origin.0 <= cell.0 && cell.0 - self.origin.0 <= self.extent.0 && self.origin.1
            <= cell.1 && cell.1 - self.origin.1 <= self.extent.1
    }

    /// Whether the two rectangles share a cell.
    pub fn intersects(self, rect_1: Rect) -> (out: bool)
        ensures
            out == self.spec_intersects(rect_1),
            self.fits() && rect_1.fits() ==> out == exists|cell: Pair|
                self.covers(cell) && rect_1.covers(cell),
    {
        proof {
            if self.fits() && rect_1.fits() {
                lemma_intersects_shared_cell(self, rect_1);
            }
        }
        self.origin.0 <= rect_1.max_coord().0 && rect_1.origin.0 <= self.max_coord().0
            && self.origin.1 <= rect_1.max_coord().1 && rect_1.origin.1 <= self.max_coord().1
    }

    /// Every cell of the rectangle, column by column.
    pub fn cells(self) -> (out: Vec<Pair>)
        requires
            self.fits(),
            self.area() <= usize::MAX,
        ensures
            out@ == self.spec_cells(),
    {
        let ghost h = self.height();
        let ghost w = self.width();
        proof {
            lemma_area_bounds(self);
        }
        let width: usize = self.extent.0 + 1;
        let height: usize = self.extent.1 + 1;
        let mut out: Vec<Pair> = Vec::new();
        let mut dx: usize = 0;
        while dx < width
            invariant
                self.fits(),
                width == w == self.width(),
                height == h == self.height(),
                w * h <= usize::MAX,
                0 <= dx <= width,
                out@.len() == dx * h,
                forall|i: int| 0 <= i < out@.len() ==> out@[i] == self.spec_cells()[i],
            decreases width - dx,
        {
            let mut dy: usize = 0;
            while dy < height
                invariant
                    self.fits(),
                    width == w == self.width(),
                    height == h == self.height(),
                    w * h <= usize::MAX,
                    0 <= dx < width,
                    0 <= dy <= height,
                    out@.len() == dx * h + dy,
                    forall|i: int| 0 <= i < out@.len() ==> out@[i] == self.spec_cells()[i],
                decreases height - dy,
            {
                proof {
                    lemma_cell_index(self, dx as int, dy as int);
                }
                out.push(Pair(self.origin.0 + dx, self.origin.1 + dy));
                dy += 1;
            }
            proof {
                assert(dx * h + h == (dx + 1) * h) by (nonlinear_arith);
            }
            dx += 1;
        }
        proof {
            assert(out@.len() == self.spec_cells().len());
            assert(out@ =~= self.spec_cells());
        }
        out
    }
}

/// With a representable area, width and height are representable too.
pub proof fn lemma_area_bounds(r: Rect)
    requires
        r.area() <= usize::MAX,
    ensures
        r.width() <= usize::MAX,
        r.height() <= usize::MAX,
{
    let w = r.width();
    let h = r.height();
    assert(w >= 1 && h >= 1);
    assert(w * h >= w && w * h >= h) by (nonlinear_arith)
        requires
            w >= 1,
            h >= 1,
    ;
}

/// Index `dx * height + dy` lies in the cell sequence and holds the cell displaced by `(dx, dy)`.
pub proof fn lemma_cell_index(r: Rect, dx: int, dy: int)
    requires
        0 <= dx < r.width(),
        0 <= dy < r.height(),
    ensures
        0 <= dx * r.height() + dy < r.area(),
        (dx * r.height() + dy) / r.height() == dx,
        (dx * r.height() + dy) % r.height() == dy,
        r.fits() ==> r.spec_cells()[dx * r.height() + dy] == Pair(
            (r.origin.0 + dx) as usize,
            (r.origin.1 + dy) as usize,
        ),
{
    let h = r.height();
    let w = r.width();
    assert(0 <= dx * h + dy < w * h) by (nonlinear_arith)
        requires
            0 <= dx < w,
            0 <= dy < h,
    ;
    vstd::arithmetic::div_mod::lemma_fundamental_div_mod_converse(dx * h + dy, h, dx, dy);
}

/// Every index of the cell sequence decomposes into a displacement inside the rectangle.
pub proof fn lemma_index_cell(r: Rect, i: int)
    requires
        0 <= i < r.area(),
    ensures
        0 <= i / r.height() < r.width(),
        0 <= i % r.height() < r.height(),
        i == (i / r.height()) * r.height() + i % r.height(),
        r.fits() ==> r.covers(r.spec_cells()[i]),
{
    let h = r.height();
    let w = r.width();
    vstd::arithmetic::div_mod::lemma_fundamental_div_mod(i, h);
    vstd::arithmetic::div_mod::lemma_mod_bound(i, h);
    let q = i / h;
    let m = i % h;
    assert(i == h * q + m);
    assert(h * q == q * h) by (nonlinear_arith);
    assert(0 <= q < w) by (nonlinear_arith)
        requires
            0 <= i < w * h,
            i == q * h + m,
            0 <= m < h,
            h >= 1,
    ;
}

/// The cell sequence of a rectangle that does not wrap holds exactly the cells it covers.
pub proof fn lemma_cells_cover(r: Rect)
    requires
        r.fits(),
    ensures
        forall|i: int| 0 <= i < r.spec_cells().len() ==> r.covers(#[trigger] r.spec_cells()[i]),
        forall|c: Pair| #[trigger] r.covers(c) ==> r.spec_cells().contains(c),
{
    assert forall|i: int| 0 <= i < r.spec_cells().len() implies r.covers(
        #[trigger] r.spec_cells()[i],
    ) by {
        lemma_index_cell(r, i);
    }
    assert forall|c: Pair| #[trigger] r.covers(c) implies r.spec_cells().contains(c) by {
        let dx = c.0 - r.origin.0;
        let dy = c.1 - r.origin.1;
        lemma_cell_index(r, dx, dy);
        assert(r.spec_cells()[dx * r.height() + dy] == c);
    }
}

/// For rectangles that do not wrap, the interval test holds exactly when a cell lies in both.
pub proof fn lemma_intersects_shared_cell(a: Rect, b: Rect)
    requires
        a.fits(),
        b.fits(),
    ensures
        a.spec_intersects(b) <==> exists|cell: Pair| a.covers(cell) && b.covers(cell),
{
    if a.spec_intersects(b) {
        let x = if a.origin.0 >= b.origin.0 {
            a.origin.0
        } else {
            b.origin.0
        };
        let y = if a.origin.1 >= b.origin.1 {
            a.origin.1
        } else {
            b.origin.1
        };
        let cell = Pair(x, y);
        assert(a.covers(cell) && b.covers(cell));
    }
    if exists|cell: Pair| a.covers(cell) && b.covers(cell) {
        let cell = choose|cell: Pair| a.covers(cell) && b.covers(cell);
        assert(a.covers(cell) && b.covers(cell));
    }
}

/// The interval test is symmetric.
pub proof fn lemma_intersects_symmetric(a: Rect, b: Rect)
    ensures
        a.spec_intersects(b) == b.spec_intersects(a),
{
}

} // verus!
