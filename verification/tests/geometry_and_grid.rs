use cbs_lawt::geometry::{Pair, Rank, Rect};
use cbs_lawt::grid::Grid;
use cbs_lawt::layout::formation;
use cbs_lawt::model::{add_finite, saturating_sum, CellInfo};

fn rect(x: usize, y: usize, w: usize, h: usize) -> Rect {
    Rect { origin: Pair(x, y), extent: Pair(w, h) }
}

fn open_grid(width: usize, height: usize) -> Grid<CellInfo> {
    Grid::init(Pair(width - 1, height - 1), CellInfo { cost: 1, blocked: false })
}

#[test]
fn pair_addition_wraps() {
    assert_eq!(Pair(1, 2) + Pair(3, 4), Pair(4, 6));
    assert_eq!(Pair(0, 5) + Pair(usize::MAX, 0), Pair(usize::MAX, 5));
    assert_eq!(Pair(3, 0) + Pair(usize::MAX, usize::MAX), Pair(2, usize::MAX));
    assert_eq!(Pair(usize::MAX, 0) + Pair(1, 0), Pair(0, 0));
}

#[test]
fn pair_converts_to_and_from_tuples() {
    assert_eq!(Pair::from((3, 4)), Pair(3, 4));
    let back: (usize, usize) = Pair(5, 6).into();
    assert_eq!(back, (5, 6));
}

#[test]
fn pair_extends_to_a_rect() {
    assert_eq!(Pair(2, 3).extend(Pair(1, 4)), rect(2, 3, 1, 4));
}

#[test]
fn ranks_follow_the_derived_orders() {
    assert_eq!(Pair(1, 9).rank(Pair(2, 0)), Rank::Less);
    assert_eq!(Pair(2, 0).rank(Pair(2, 0)), Rank::Equal);
    assert_eq!(Pair(2, 1).rank(Pair(2, 0)), Rank::Greater);
    assert_eq!(Pair(1, 9) < Pair(2, 0), true);
    assert_eq!(rect(0, 0, 5, 5).rank(rect(0, 1, 0, 0)), Rank::Less);
    assert_eq!(rect(0, 1, 0, 1).rank(rect(0, 1, 0, 0)), Rank::Greater);
    assert!(rect(0, 1, 0, 1) > rect(0, 1, 0, 0));
    assert_eq!(Rank::Equal.refine(Rank::Less), Rank::Less);
    assert_eq!(Rank::Greater.refine(Rank::Less), Rank::Greater);
    assert_eq!(Rank::Less.flip(), Rank::Greater);
    assert_eq!(Rank::of_usize(3, 3), Rank::Equal);
}

#[test]
fn rect_size_and_corner() {
    let r = rect(2, 3, 1, 4);
    assert_eq!(r.size(), Pair(2, 5));
    assert_eq!(r.max_coord(), Pair(3, 7));
    assert_eq!(rect(4, 4, 0, 0).size(), Pair(1, 1));
    assert_eq!(rect(4, 4, 0, 0).max_coord(), Pair(4, 4));
    assert_eq!(r + Pair(1, 0), rect(3, 3, 1, 4));
}

#[test]
fn rect_cells_go_column_by_column() {
    assert_eq!(
        rect(2, 3, 1, 2).cells(),
        vec![Pair(2, 3), Pair(2, 4), Pair(2, 5), Pair(3, 3), Pair(3, 4), Pair(3, 5)]
    );
    assert_eq!(rect(7, 7, 0, 0).cells(), vec![Pair(7, 7)]);
}

#[test]
fn rect_contains_its_corners_only_inside() {
    let r = rect(2, 3, 1, 2);
    assert!(r.contains(Pair(2, 3)));
    assert!(r.contains(Pair(3, 5)));
    assert!(!r.contains(Pair(4, 5)));
    assert!(!r.contains(Pair(3, 6)));
    assert!(!r.contains(Pair(1, 3)));
    assert!(!r.contains(Pair(2, 2)));
    assert!(rect(usize::MAX - 1, 0, 1, 0).contains(Pair(usize::MAX, 0)));
}

#[test]
fn rects_intersect_when_they_share_a_cell() {
    assert!(rect(0, 0, 1, 1).intersects(rect(1, 1, 1, 1)));
    assert!(rect(1, 1, 1, 1).intersects(rect(0, 0, 1, 1)));
    assert!(!rect(0, 0, 1, 1).intersects(rect(2, 0, 1, 1)));
    assert!(!rect(0, 0, 1, 1).intersects(rect(0, 2, 1, 1)));
    assert!(rect(0, 0, 4, 4).intersects(rect(2, 2, 0, 0)));
    assert!(rect(3, 3, 0, 0).intersects(rect(3, 3, 0, 0)));
    assert!(!rect(3, 3, 0, 0).intersects(rect(3, 4, 0, 0)));
}

#[test]
fn sums_saturate_or_report_infinity() {
    assert_eq!(saturating_sum(2, 3), 5);
    assert_eq!(saturating_sum(usize::MAX, 1), usize::MAX);
    assert_eq!(saturating_sum(usize::MAX - 1, 5), usize::MAX);
    assert_eq!(add_finite(2, 3), Some(5));
    assert_eq!(add_finite(usize::MAX - 1, 0), Some(usize::MAX - 1));
    assert_eq!(add_finite(usize::MAX - 1, 1), None);
    assert_eq!(add_finite(usize::MAX, 0), None);
    assert_eq!(add_finite(0, usize::MAX), None);
}

#[test]
fn grid_holds_one_value_per_cell() {
    let mut grid: Grid<usize> = Grid::init(Pair(2, 1), 7);
    assert_eq!(grid.extent(), Pair(2, 1));
    assert_eq!(grid.size(), Pair(3, 2));
    assert_eq!(grid.len(), 6);
    assert_eq!(*grid.get(Pair(2, 1)), 7);
    grid.set(Pair(1, 1), 9);
    assert_eq!(*grid.get(Pair(1, 1)), 9);
    assert_eq!(*grid.get(Pair(1, 0)), 7);
    assert_eq!(*grid.get(Pair(0, 1)), 7);
    assert_eq!(grid.pair_to_usize(Pair(1, 1)), 4);
    assert_eq!(*grid.get_at(4), 9);
    assert_eq!(grid.usize_to_pair(4), Pair(1, 1));
    assert_eq!(Grid::<usize>::usize_to_pair_(Pair(2, 1), 5), Pair(2, 1));
}

#[test]
fn grid_lists_cells_row_by_row() {
    let mut grid: Grid<usize> = Grid::init(Pair(1, 1), 0);
    grid.set(Pair(1, 0), 10);
    grid.set(Pair(0, 1), 20);
    assert_eq!(
        grid.indexed_iter(),
        vec![(Pair(0, 0), 0), (Pair(1, 0), 10), (Pair(0, 1), 20), (Pair(1, 1), 0)]
    );
}

#[test]
fn grid_lowers_to_the_smaller_values() {
    let mut a: Grid<usize> = Grid::init(Pair(1, 0), 5);
    let mut b: Grid<usize> = Grid::init(Pair(1, 0), 3);
    b.set(Pair(1, 0), 8);
    a.lower_to(&b);
    assert_eq!(*a.get(Pair(0, 0)), 3);
    assert_eq!(*a.get(Pair(1, 0)), 5);
}

#[test]
fn effective_extent_is_the_last_origin_that_fits() {
    let grid = open_grid(6, 4);
    assert_eq!(grid.effective_extent(Pair(0, 0)), Pair(5, 3));
    assert_eq!(grid.effective_extent(Pair(1, 2)), Pair(4, 1));
    assert_eq!(grid.effective_size(Pair(1, 2)), Pair(5, 2));
    assert_eq!(grid.effective_extent(Pair(5, 3)), Pair(0, 0));
}

#[test]
fn in_bounds_counts_the_whole_footprint() {
    let grid = open_grid(6, 4);
    assert!(grid.in_bounds(rect(4, 2, 1, 1)));
    assert!(!grid.in_bounds(rect(5, 2, 1, 1)));
    assert!(!grid.in_bounds(rect(4, 3, 1, 1)));
    assert!(grid.in_bounds(rect(5, 3, 0, 0)));
    assert!(!grid.in_bounds(rect(usize::MAX, 0, 1, 0)));
    assert!(!grid.in_bounds(rect(usize::MAX, 0, 0, 0)));
}

#[test]
fn blocked_cells_make_a_footprint_unclear() {
    let mut grid = open_grid(4, 4);
    grid.set(Pair(2, 2), CellInfo { cost: 1, blocked: true });
    assert!(grid.cell_is_clear(Pair(1, 1)));
    assert!(!grid.cell_is_clear(Pair(2, 2)));
    assert!(grid.is_clear(rect(0, 0, 1, 1)));
    assert!(!grid.is_clear(rect(1, 1, 1, 1)));
    assert!(!grid.is_clear(rect(2, 2, 0, 0)));
    assert!(grid.is_admitted(rect(0, 2, 1, 1)));
    assert!(!grid.is_admitted(rect(2, 1, 1, 1)));
    assert!(!grid.is_admitted(rect(3, 3, 1, 1)));
}

#[test]
fn set_blocked_marks_the_footprint_and_keeps_costs() {
    let mut grid = open_grid(3, 3);
    grid.set(Pair(1, 1), CellInfo { cost: 4, blocked: false });
    grid.set_blocked(rect(1, 0, 1, 1), true);
    assert!(grid.get(Pair(1, 0)).blocked);
    assert!(grid.get(Pair(2, 1)).blocked);
    assert!(!grid.get(Pair(0, 0)).blocked);
    assert!(!grid.get(Pair(1, 2)).blocked);
    assert_eq!(grid.get(Pair(1, 1)).cost, 4);
    grid.set_blocked(rect(1, 1, 0, 0), false);
    assert!(!grid.get(Pair(1, 1)).blocked);
    assert!(grid.get(Pair(1, 0)).blocked);
}

#[test]
fn neighbors_come_right_up_left_down() {
    let grid = open_grid(3, 3);
    assert_eq!(
        grid.neighbors(rect(1, 1, 0, 0)),
        vec![rect(2, 1, 0, 0), rect(1, 2, 0, 0), rect(0, 1, 0, 0), rect(1, 0, 0, 0)]
    );
    assert_eq!(grid.neighbors(rect(0, 0, 0, 0)), vec![rect(1, 0, 0, 0), rect(0, 1, 0, 0)]);
    assert_eq!(grid.neighbors(rect(2, 2, 0, 0)), vec![rect(1, 2, 0, 0), rect(2, 1, 0, 0)]);
    assert_eq!(grid.neighbors(rect(0, 0, 1, 1)), vec![rect(1, 0, 1, 1), rect(0, 1, 1, 1)]);
    assert_eq!(grid.neighbors(rect(1, 1, 1, 1)), vec![rect(0, 1, 1, 1), rect(1, 0, 1, 1)]);
}

#[test]
fn neighbors_leave_out_blocked_footprints() {
    let mut grid = open_grid(3, 3);
    grid.set(Pair(2, 1), CellInfo { cost: 1, blocked: true });
    assert_eq!(
        grid.neighbors(rect(1, 1, 0, 0)),
        vec![rect(1, 2, 0, 0), rect(0, 1, 0, 0), rect(1, 0, 0, 0)]
    );
    assert_eq!(grid.neighbors(rect(0, 0, 1, 1)), vec![rect(0, 1, 1, 1)]);
}

#[test]
fn cost_is_the_sum_over_the_footprint() {
    let mut grid = open_grid(3, 3);
    grid.set(Pair(1, 1), CellInfo { cost: 5, blocked: false });
    grid.set(Pair(2, 1), CellInfo { cost: 0, blocked: true });
    assert_eq!(grid.cost(rect(0, 0, 0, 0)), 1);
    assert_eq!(grid.cost(rect(0, 0, 1, 1)), 8);
    assert_eq!(grid.cost(rect(1, 1, 1, 1)), 7);
    assert_eq!(grid.cost(rect(0, 0, 2, 2)), 12);
}

#[test]
fn cost_saturates() {
    let mut grid = open_grid(2, 1);
    grid.set(Pair(0, 0), CellInfo { cost: usize::MAX - 1, blocked: false });
    grid.set(Pair(1, 0), CellInfo { cost: 7, blocked: false });
    assert_eq!(grid.cost(rect(0, 0, 0, 0)), usize::MAX - 1);
    assert_eq!(grid.cost(rect(0, 0, 1, 0)), usize::MAX);
}

#[test]
fn formation_goes_column_by_column() {
    assert_eq!(
        formation(Pair(2, 3), 2, Pair(3, 1)),
        vec![Pair(3, 1), Pair(3, 3), Pair(3, 5), Pair(5, 1), Pair(5, 3), Pair(5, 5)]
    );
    assert_eq!(formation(Pair(1, 1), 7, Pair(usize::MAX, 4)), vec![Pair(usize::MAX, 4)]);
    assert_eq!(formation(Pair(0, 5), 2, Pair(3, 1)), vec![]);
    assert_eq!(formation(Pair(5, 0), usize::MAX, Pair(usize::MAX, usize::MAX)), vec![]);
}

#[test]
fn a_grid_is_read_by_cell() {
    let mut grid = open_grid(3, 2);
    grid.set(Pair(2, 1), CellInfo { cost: 6, blocked: true });
    assert_eq!(grid[Pair(2, 1)].cost, 6);
    assert!(grid[Pair(2, 1)].blocked);
    assert_eq!(grid[Pair(0, 0)], CellInfo { cost: 1, blocked: false });
}
