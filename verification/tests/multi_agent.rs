use cbs_lawt::astar::AStar;
use cbs_lawt::cbs::{solve_mapf, solve_mapf_with, SolveError, CBS};
use cbs_lawt::geometry::{Pair, Rect};
use cbs_lawt::grid::Grid;
use cbs_lawt::layout::{is_listed, mark, path_cells};
use cbs_lawt::model::{unfold_path, CellInfo, Path};

fn open_grid(width: usize, height: usize) -> Grid<CellInfo> {
    Grid::init(Pair(width - 1, height - 1), CellInfo { cost: 1, blocked: false })
}

fn makespan_of(paths: &Vec<Path>) -> usize {
    paths.iter().map(|p| p[p.len() - 1].duration.1).max().unwrap_or(0)
}

fn assert_no_overlap(paths: &Vec<Path>) {
    let ticks: Vec<Vec<Rect>> = paths.iter().map(|p| unfold_path(p.clone())).collect();
    let end = makespan_of(paths);
    for unfolded in &ticks {
        assert_eq!(unfolded.len(), end + 1);
    }
    for i in 0..ticks.len() {
        for j in (i + 1)..ticks.len() {
            for t in 0..=end {
                assert!(!ticks[i][t].intersects(ticks[j][t]), "agents {} and {} at tick {}", i, j, t);
            }
        }
    }
}

fn assert_served(solver: &AStar, paths: &Vec<Path>) {
    assert_eq!(paths.len(), solver.origins.len());
    for (i, path) in paths.iter().enumerate() {
        assert_eq!(path[0].location.origin, solver.origins[i]);
        assert_eq!(path[0].duration.0, 0);
        assert!(solver.destinations.contains(&path[path.len() - 1].location.origin));
        for w in path.windows(2) {
            assert_eq!(w[1].duration.0, w[0].duration.1 + 1);
            assert!(w[1].duration.1 >= w[1].duration.0);
        }
    }
}

#[test]
fn head_on_swap_takes_a_detour() {
    let solver = AStar::init(
        vec![Pair(0, 0), Pair(2, 0)],
        vec![Pair(2, 0), Pair(0, 0)],
        Pair(0, 0),
        open_grid(3, 2),
    )
    .unwrap();
    let paths = solve_mapf(&solver).unwrap();
    assert_served(&solver, &paths);
    assert_no_overlap(&paths);
    // Every destination serves every agent, and each agent stands on one: both stay.
    assert_eq!(makespan_of(&paths), 1);
    assert_eq!(paths[0].len(), 1);
    assert_eq!(paths[1].len(), 1);
}

#[test]
fn two_agents_with_one_place_to_end_run_into_the_limit() {
    let mut grid = open_grid(3, 2);
    grid.set(Pair(0, 1), CellInfo { cost: 1, blocked: true });
    grid.set(Pair(2, 1), CellInfo { cost: 1, blocked: true });
    let solver = AStar::init(vec![Pair(0, 0), Pair(2, 0)], vec![Pair(1, 1), Pair(1, 1)], Pair(0, 0), grid).unwrap();
    assert_eq!(solve_mapf_with(&solver, usize::MAX, 200).err(), Some(SolveError::LimitReached));
}

#[test]
fn large_agents_cross_side_by_side() {
    let solver = AStar::init(
        vec![Pair(0, 0), Pair(0, 2)],
        vec![Pair(4, 0), Pair(4, 2)],
        Pair(1, 1),
        open_grid(6, 6),
    )
    .unwrap();
    let paths = solve_mapf(&solver).unwrap();
    assert_served(&solver, &paths);
    assert_no_overlap(&paths);
    // Four moves, each into a footprint of four cells of cost 1.
    assert_eq!(makespan_of(&paths), 16);
    for path in &paths {
        for cell in path {
            assert_eq!(cell.location.origin.1, path[0].location.origin.1);
        }
    }
    // No stay of one agent shares a cell with any stay of the other, whatever the ticks.
    for a in &paths[0] {
        for b in &paths[1] {
            assert!(!a.location.intersects(b.location));
        }
    }
}

#[test]
fn corridor_queue_is_resolved() {
    let solver = AStar::init(
        vec![Pair(0, 0), Pair(1, 0), Pair(2, 0)],
        vec![Pair(6, 0), Pair(5, 0), Pair(4, 0)],
        Pair(0, 0),
        open_grid(7, 1),
    )
    .unwrap();
    let paths = solve_mapf_with(&solver, usize::MAX, 10_000).unwrap();
    assert_served(&solver, &paths);
    assert_no_overlap(&paths);
    // All three first head for the nearest destination; told apart, they move on in step.
    assert_eq!(makespan_of(&paths), 4);
    let ends: Vec<Pair> = paths.iter().map(|p| p[p.len() - 1].location.origin).collect();
    assert_eq!(ends, vec![Pair(4, 0), Pair(5, 0), Pair(6, 0)]);
}

#[test]
fn walled_off_destination_is_reported() {
    let mut grid = open_grid(5, 1);
    grid.set(Pair(2, 0), CellInfo { cost: 1, blocked: true });
    let solver = AStar::init(vec![Pair(0, 0)], vec![Pair(4, 0)], Pair(0, 0), grid).unwrap();
    assert!(solver.astar(Pair(0, 0), &[]).is_none());
    assert_eq!(solve_mapf(&solver).err(), Some(SolveError::NoPath(Pair(0, 0))));
    assert!(CBS::init(&solver).is_err());
}

#[test]
fn cells_are_drawn_by_what_they_hold() {
    let mut grid = open_grid(5, 2);
    grid.set(Pair(0, 1), CellInfo { cost: 1, blocked: true });
    let solver = AStar::init(vec![Pair(0, 0)], vec![Pair(3, 0)], Pair(0, 0), grid).unwrap();
    let paths = solve_mapf(&solver).unwrap();
    let visited = path_cells(&paths);
    assert_eq!(visited, vec![Pair(0, 0), Pair(1, 0), Pair(2, 0), Pair(3, 0)]);
    assert!(is_listed(&visited, Pair(2, 0)));
    assert!(!is_listed(&visited, Pair(4, 0)));
    let row: String = (0..5).map(|x| mark(&solver, &visited, Pair(x, 0))).collect();
    assert_eq!(row, "%**$ ");
    let row: String = (0..5).map(|x| mark(&solver, &visited, Pair(x, 1))).collect();
    assert_eq!(row, "x    ");
    assert_eq!(path_cells(&vec![]), vec![]);
}
