//! Formations of cells, and how a problem and its plans are drawn cell by cell.
use crate::astar::AStar;
use crate::geometry::Pair;
use crate::model::Path;
use vstd::prelude::*;

verus! {

/// The cells of a formation of `size.0` columns and `size.1` rows, `spread` apart, the
/// first at `offset`; column by column.
pub open spec fn spec_formation(size: Pair, spread: usize, offset: Pair) -> Seq<Pair> {
    Seq::new(
        (size.0 * size.1) as nat,
        |i: int|
            Pair(
                ((i / (size.1 as int)) * spread + offset.0) as usize,
                ((i % (size.1 as int)) * spread + offset.1) as usize,
            ),
    )
}

/// The cells of a formation whose cells and whose number are representable.
pub fn formation(size: Pair, spread: usize, offset: Pair) -> (out: Vec<Pair>)
    requires
        size.0 * size.1 <= usize::MAX,
        size.0 > 0 && size.1 > 0 ==> (size.0 - 1) * spread + offset.0 <= usize::MAX,
        size.0 > 0 && size.1 > 0 ==> (size.1 - 1) * spread + offset.1 <= usize::MAX,
    ensures
        out@ == spec_formation(size, spread, offset),
{
    let mut out: Vec<Pair> = Vec::new();
    let ghost columns = size.0 as int;
    let ghost rows = size.1 as int;
    let ghost gap = spread as int;
    let mut x: usize = 0;
    while x < size.0
        invariant
            columns == size.0,
            rows == size.1,
            gap == spread,
            columns * rows <= usize::MAX,
            columns > 0 && rows > 0 ==> (columns - 1) * gap + offset.0 <= usize::MAX,
            columns > 0 && rows > 0 ==> (rows - 1) * gap + offset.1 <= usize::MAX,
            0 <= x <= size.0,
            out@.len() == x * rows,
            forall|i: int| 0 <= i < out@.len() ==> out@[i] == spec_formation(size, spread, offset)[i],
        decreases size.0 - x,
    {
        let mut y: usize = 0;
        while y < size.1
            invariant
                columns == size.0,
                rows == size.1,
                gap == spread,
                columns * rows <= usize::MAX,
                columns > 0 && rows > 0 ==> (columns - 1) * gap + offset.0 <= usize::MAX,
                columns > 0 && rows > 0 ==> (rows - 1) * gap + offset.1 <= usize::MAX,
                0 <= x < size.0,
                0 <= y <= size.1,
                out@.len() == x * rows + y,
                forall|i: int|
                    0 <= i < out@.len() ==> out@[i] == spec_formation(size, spread, offset)[i],
            decreases size.1 - y,
        {
            proof {
                let a = x as int;
                let b = y as int;
                assert(0 <= a * rows + b < columns * rows) by (nonlinear_arith)
                    requires
                        0 <= a < columns,
                        0 <= b < rows,
                ;
                vstd::arithmetic::div_mod::lemma_fundamental_div_mod_converse(
                    a * rows + b,
                    rows,
                    a,
                    b,
                );
                assert(0 <= a * gap <= (columns - 1) * gap) by (nonlinear_arith)
                    requires
                        0 <= a < columns,
                        0 <= gap,
                ;
                assert(0 <= b * gap <= (rows - 1) * gap) by (nonlinear_arith)
                    requires
                        0 <= b < rows,
                        0 <= gap,
                ;
            }
            let cell = Pair(x * spread + offset.0, y * spread + offset.1);
            out.push(cell);
            y += 1;
        }
        proof {
            assert(x * rows + rows == (x + 1) * rows) by (nonlinear_arith);
        }
        x += 1;
    }
    proof {
        assert(out@ =~= spec_formation(size, spread, offset));
    }
    out
}

/// The lower corners of the footprints of all stays of the first `k` plans, plan after plan.
pub open spec fn spec_path_cells(paths: Seq<Path>, k: int) -> Seq<Pair>
    decreases k,
{
    if k <= 0 {
        Seq::empty()
    } else {
        spec_path_cells(paths, k - 1) + Seq::new(
            paths[k - 1]@.len(),
            |i: int| paths[k - 1]@[i].location.origin,
        )
    }
}

/// The lower corners of the footprints of all stays of the plans, plan after plan.
pub fn path_cells(paths: &Vec<Path>) -> (out: Vec<Pair>)
    ensures
        out@ == spec_path_cells(paths@, paths@.len() as int),
{
    let mut out: Vec<Pair> = Vec::new();
    let mut k: usize = 0;
    while k < paths.len()
        invariant
            0 <= k <= paths.len(),
            out@ == spec_path_cells(paths@, k as int),
        decreases paths.len() - k,
    {
        let path = &paths[k];
        let ghost before = out@;
        let mut i: usize = 0;
        while i < path.len()
            invariant
                0 <= i <= path.len(),
                out@ == before + Seq::new(i as nat, |j: int| path@[j].location.origin),
            decreases path.len() - i,
        {
            out.push(path[i].location.origin);
            proof {
                assert(out@ =~= before + Seq::new((i + 1) as nat, |j: int| path@[j].location.origin));
            }
            i += 1;
        }
        proof {
            assert(Seq::new(path@.len(), |j: int| path@[j].location.origin) =~= Seq::new(
                paths@[k as int]@.len(),
                |j: int| paths@[k as int]@[j].location.origin,
            ));
        }
        k += 1;
    }
    out
}

/// How a cell is drawn: `x` if it is blocked, else `%` if it is an origin, else `$` if it is
/// a destination, else `*` if a plan begins a stay there, else a blank.
pub open spec fn spec_mark(solver: &AStar, visited: Seq<Pair>, coord: Pair) -> char {
    if solver.grid.at(coord).blocked {
        'x'
    } else if solver.origins@.contains(coord) {
        '%'
    } else if solver.destinations@.contains(coord) {
        '$'
    } else if visited.contains(coord) {
        '*'
    } else {
        ' '
    }
}

/// Whether the cell is in the list.
pub fn is_listed(cells: &Vec<Pair>, coord: Pair) -> (out: bool)
    ensures
        out == cells@.contains(coord),
{
    let mut i: usize = 0;
    while i < cells.len()
        invariant
            0 <= i <= cells.len(),
            forall|j: int| 0 <= j < i ==> cells@[j] != coord,
        decreases cells.len() - i,
    {
        if cells[i] == coord {
            return true;
        }
        i += 1;
    }
    false
}

/// How a cell of the grid is drawn.
pub fn mark(solver: &AStar, visited: &Vec<Pair>, coord: Pair) -> (out: char)
    requires
        solver.grid.wf(),
        solver.grid.has(coord),
    ensures
        out == spec_mark(solver, visited@, coord),
{
    if solver.grid.get(coord).blocked {
        'x'
    } else if is_listed(&solver.origins, coord) {
        '%'
    } else if is_listed(&solver.destinations, coord) {
        '$'
    } else if is_listed(visited, coord) {
        '*'
    } else {
        ' '
    }
}

} // verus!
