use cbs_lawt::astar::AStar;
use cbs_lawt::geometry::{Pair, Rect};
use cbs_lawt::grid::Grid;
use cbs_lawt::model::{unfold_path, CellInfo, Constraint};

fn open_grid(width: usize, height: usize) -> Grid<CellInfo> {
    Grid::init(Pair(width - 1, height - 1), CellInfo { cost: 1, blocked: false })
}

fn point(x: usize, y: usize) -> Rect {
    Rect { origin: Pair(x, y), extent: Pair(0, 0) }
}

#[test]
fn straight_line_takes_four_ticks() {
    let solver = AStar::init(vec![Pair(0, 0)], vec![Pair(4, 0)], Pair(0, 0), open_grid(5, 5)).unwrap();
    let path = solver.astar(Pair(0, 0), &[]).unwrap();
    assert_eq!(path[0].location, point(0, 0));
    assert_eq!(path[path.len() - 1].location, point(4, 0));
    assert_eq!(path[path.len() - 1].duration.1, 4);
    let ticks = unfold_path(path);
    assert_eq!(ticks.len(), 5);
    assert_eq!(ticks[0], point(0, 0));
    assert_eq!(ticks[4], point(4, 0));
}

#[test]
fn costly_cell_is_held_for_two_ticks() {
    let mut grid = open_grid(5, 1);
    grid.set(Pair(2, 0), CellInfo { cost: 2, blocked: false });
    let solver = AStar::init(vec![Pair(0, 0)], vec![Pair(4, 0)], Pair(0, 0), grid).unwrap();
    let path = solver.astar(Pair(0, 0), &[]).unwrap();
    assert_eq!(path[path.len() - 1].duration.1, 5);
    let through: Vec<_> = path.iter().filter(|cell| cell.location == point(2, 0)).collect();
    assert_eq!(through.len(), 1);
    assert_eq!(through[0].duration, Pair(2, 3));
    assert_eq!(unfold_path(path).len(), 6);
}

#[test]
fn constraint_on_the_way_forces_a_wait() {
    let solver = AStar::init(vec![Pair(0, 0)], vec![Pair(2, 0)], Pair(0, 0), open_grid(3, 1)).unwrap();
    let keep_out = Constraint { uid: Pair(0, 0), location: point(1, 0), duration: Pair(1, 1) };
    let other = Constraint { uid: Pair(2, 0), location: point(0, 0), duration: Pair(0, 9) };
    let path = solver.astar(Pair(0, 0), &[keep_out, other]).unwrap();
    assert_eq!(path.len(), 3);
    assert_eq!(path[0].duration, Pair(0, 1));
    assert_eq!(path[1].duration, Pair(2, 2));
    assert_eq!(path[2].duration, Pair(3, 3));
}
