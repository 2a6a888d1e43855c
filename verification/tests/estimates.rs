use cbs_lawt::astar::{check_apart, check_clear, check_inside, check_instance, AStar, BuildError};
use cbs_lawt::map_ext::HashMapExt;
use cbs_lawt::geometry::{Pair, Rect};
use cbs_lawt::grid::Grid;
use cbs_lawt::model::CellInfo;
use std::collections::HashMap;

fn rect(x: usize, y: usize, w: usize, h: usize) -> Rect {
    Rect { origin: Pair(x, y), extent: Pair(w, h) }
}

fn open_grid(width: usize, height: usize) -> Grid<CellInfo> {
    Grid::init(Pair(width - 1, height - 1), CellInfo { cost: 1, blocked: false })
}

fn costs(row: &[usize]) -> Grid<CellInfo> {
    let mut grid = open_grid(row.len(), 1);
    for (x, cost) in row.iter().enumerate() {
        grid.set(Pair(x, 0), CellInfo { cost: *cost, blocked: false });
    }
    grid
}

#[test]
fn dijkstra_counts_the_cost_of_each_footprint_entered() {
    let grid = costs(&[1, 5, 1, 3]);
    let tolls = grid.djikstra(rect(2, 0, 0, 0));
    assert_eq!(tolls.extent(), Pair(3, 0));
    assert_eq!(*tolls.get(Pair(2, 0)), 0);
    assert_eq!(*tolls.get(Pair(1, 0)), 1);
    assert_eq!(*tolls.get(Pair(0, 0)), 6);
    assert_eq!(*tolls.get(Pair(3, 0)), 1);
}

#[test]
fn dijkstra_goes_round_costly_cells() {
    let mut grid = open_grid(3, 2);
    grid.set(Pair(1, 0), CellInfo { cost: 9, blocked: false });
    let tolls = grid.djikstra(rect(2, 0, 0, 0));
    // From (0, 0) round by the upper row: enter (0,1), (1,1), (2,1), (2,0).
    assert_eq!(*tolls.get(Pair(0, 0)), 4);
    assert_eq!(*tolls.get(Pair(1, 0)), 1);
    assert_eq!(*tolls.get(Pair(1, 1)), 2);
    assert_eq!(*tolls.get(Pair(0, 1)), 3);
}

#[test]
fn dijkstra_marks_what_is_cut_off() {
    let mut grid = open_grid(5, 1);
    grid.set(Pair(2, 0), CellInfo { cost: 1, blocked: true });
    let tolls = grid.djikstra(rect(4, 0, 0, 0));
    assert_eq!(*tolls.get(Pair(4, 0)), 0);
    assert_eq!(*tolls.get(Pair(3, 0)), 1);
    assert_eq!(*tolls.get(Pair(2, 0)), usize::MAX);
    assert_eq!(*tolls.get(Pair(1, 0)), usize::MAX);
    assert_eq!(*tolls.get(Pair(0, 0)), usize::MAX);
}

#[test]
fn dijkstra_for_large_footprints_covers_the_origins_that_fit() {
    let grid = open_grid(4, 3);
    let tolls = grid.djikstra(rect(2, 1, 1, 1));
    assert_eq!(tolls.extent(), Pair(2, 1));
    assert_eq!(*tolls.get(Pair(2, 1)), 0);
    assert_eq!(*tolls.get(Pair(1, 1)), 4);
    assert_eq!(*tolls.get(Pair(0, 0)), 12);
}

#[test]
fn min_value_names_an_entry_of_least_cost() {
    let mut open: HashMap<usize, usize> = HashMap::new();
    assert_eq!(open.min_value(), None);
    open.insert(7, usize::MAX);
    assert_eq!(open.min_value(), None);
    open.insert(0, 4);
    open.insert(1, 2);
    open.insert(9, 3);
    assert_eq!(open.min_value(), Some((1, 2)));
    open.remove(&1);
    assert_eq!(open.min_value(), Some((9, 3)));
    open.insert(2, 3);
    let least = open.min_value().unwrap();
    assert_eq!(least.1, 3);
    assert!(least.0 == 9 || least.0 == 2);
}

#[test]
fn heuristic_is_the_least_toll_over_the_destinations() {
    let grid = costs(&[1, 1, 1, 1, 1, 1, 1]);
    let solver = AStar::init(vec![Pair(3, 0)], vec![Pair(0, 0), Pair(6, 0)], Pair(0, 0), grid).unwrap();
    let expected = [0, 1, 2, 3, 2, 1, 0];
    for (x, value) in expected.iter().enumerate() {
        assert_eq!(*solver.heuristic.get(Pair(x, 0)), *value);
    }
}

#[test]
fn heuristic_never_exceeds_the_cost_of_a_walk() {
    let mut grid = open_grid(4, 3);
    grid.set(Pair(1, 0), CellInfo { cost: 7, blocked: false });
    grid.set(Pair(1, 1), CellInfo { cost: 1, blocked: true });
    grid.set(Pair(2, 2), CellInfo { cost: 3, blocked: false });
    let solver = AStar::init(vec![Pair(0, 0)], vec![Pair(3, 0)], Pair(0, 0), grid).unwrap();
    let along_the_bottom = [Pair(1, 0), Pair(2, 0), Pair(3, 0)];
    let over_the_top = [Pair(0, 1), Pair(0, 2), Pair(1, 2), Pair(2, 2), Pair(3, 2), Pair(3, 1), Pair(3, 0)];
    for walk in [&along_the_bottom[..], &over_the_top[..]] {
        let fare: usize = walk.iter().map(|cell| solver.grid.get(*cell).cost).sum();
        assert!(*solver.heuristic.get(Pair(0, 0)) <= fare);
    }
    assert_eq!(*solver.heuristic.get(Pair(0, 0)), 9);
    assert_eq!(*solver.heuristic.get(Pair(1, 1)), usize::MAX);
}

#[test]
fn new_leaves_every_estimate_infinite() {
    let solver = AStar::new(vec![Pair(0, 0)], vec![Pair(2, 0)], Pair(0, 0), open_grid(3, 1)).unwrap();
    for x in 0..3 {
        assert_eq!(*solver.heuristic.get(Pair(x, 0)), usize::MAX);
    }
    assert_eq!(solver.origins, vec![Pair(0, 0)]);
    assert_eq!(solver.destinations, vec![Pair(2, 0)]);
    assert_eq!(solver.unit_extent, Pair(0, 0));
    assert_eq!(solver.heuristic.extent(), Pair(2, 0));
}

#[test]
fn heuristic_table_covers_the_origins_that_fit() {
    let solver = AStar::init(vec![Pair(0, 0)], vec![Pair(3, 2)], Pair(1, 1), open_grid(5, 4)).unwrap();
    assert_eq!(solver.heuristic.extent(), Pair(3, 2));
    assert_eq!(*solver.heuristic.get(Pair(3, 2)), 0);
    assert_eq!(*solver.heuristic.get(Pair(0, 0)), 20);
}

#[test]
fn more_origins_than_destinations_are_refused() {
    let out = AStar::init(vec![Pair(0, 0), Pair(1, 0)], vec![Pair(2, 0)], Pair(0, 0), open_grid(3, 1));
    assert_eq!(out.err(), Some(BuildError::TooFewDestinations));
}

#[test]
fn footprints_outside_the_grid_are_refused() {
    let out = AStar::init(vec![Pair(3, 0)], vec![Pair(2, 0)], Pair(0, 0), open_grid(3, 1));
    assert_eq!(out.err(), Some(BuildError::OutOfBounds));
    let out = AStar::init(vec![Pair(0, 0)], vec![Pair(2, 0)], Pair(1, 0), open_grid(3, 1));
    assert_eq!(out.err(), Some(BuildError::OutOfBounds));
    let out = AStar::init(vec![], vec![], Pair(3, 0), open_grid(3, 1));
    assert_eq!(out.err(), Some(BuildError::OutOfBounds));
    let out = AStar::new(vec![Pair(0, 1)], vec![Pair(2, 0)], Pair(0, 0), open_grid(3, 1));
    assert_eq!(out.err(), Some(BuildError::OutOfBounds));
}

#[test]
fn blocked_footprints_are_refused() {
    let mut grid = open_grid(4, 2);
    grid.set(Pair(1, 1), CellInfo { cost: 1, blocked: true });
    let out = AStar::init(vec![Pair(0, 0)], vec![Pair(2, 0)], Pair(1, 1), grid);
    assert_eq!(out.err(), Some(BuildError::Blocked));
    let mut grid = open_grid(4, 2);
    grid.set(Pair(3, 0), CellInfo { cost: 1, blocked: true });
    let out = AStar::init(vec![Pair(0, 0)], vec![Pair(3, 0)], Pair(0, 0), grid);
    assert_eq!(out.err(), Some(BuildError::Blocked));
}

#[test]
fn overlapping_origins_are_refused() {
    let out = AStar::init(vec![Pair(1, 0), Pair(1, 0)], vec![Pair(2, 0), Pair(0, 0)], Pair(0, 0), open_grid(3, 1));
    assert_eq!(out.err(), Some(BuildError::Overlap));
    let out = AStar::init(vec![Pair(0, 0), Pair(1, 0)], vec![Pair(3, 0), Pair(3, 2)], Pair(1, 1), open_grid(6, 6));
    assert_eq!(out.err(), Some(BuildError::Overlap));
    let out = AStar::init(vec![Pair(0, 0), Pair(2, 0)], vec![Pair(3, 0), Pair(3, 2)], Pair(1, 1), open_grid(6, 6));
    assert!(out.is_ok());
}

#[test]
fn overlapping_destinations_are_accepted() {
    let out = AStar::init(vec![Pair(0, 0)], vec![Pair(2, 0), Pair(2, 0)], Pair(0, 0), open_grid(3, 1));
    assert!(out.is_ok());
}

#[test]
fn refusals_come_in_a_fixed_order() {
    let mut grid = open_grid(3, 1);
    grid.set(Pair(0, 0), CellInfo { cost: 1, blocked: true });
    let origins = vec![Pair(0, 0), Pair(0, 0), Pair(9, 9)];
    assert_eq!(
        check_instance(&grid, &origins, &vec![Pair(1, 0)], Pair(0, 0)),
        Some(BuildError::TooFewDestinations)
    );
    let destinations = vec![Pair(1, 0), Pair(1, 0), Pair(1, 0)];
    assert_eq!(check_instance(&grid, &origins, &destinations, Pair(0, 0)), Some(BuildError::OutOfBounds));
    let origins = vec![Pair(0, 0), Pair(0, 0)];
    assert_eq!(check_instance(&grid, &origins, &destinations, Pair(0, 0)), Some(BuildError::Blocked));
    let origins = vec![Pair(2, 0), Pair(2, 0)];
    assert_eq!(check_instance(&grid, &origins, &destinations, Pair(0, 0)), Some(BuildError::Overlap));
    let origins = vec![Pair(2, 0), Pair(1, 0)];
    assert_eq!(check_instance(&grid, &origins, &destinations, Pair(0, 0)), None);
}

#[test]
fn the_single_checks_agree_with_the_whole() {
    let mut grid = open_grid(3, 2);
    grid.set(Pair(2, 1), CellInfo { cost: 1, blocked: true });
    assert!(check_inside(&grid, &vec![Pair(0, 0), Pair(2, 1)], Pair(0, 0)));
    assert!(!check_inside(&grid, &vec![Pair(0, 0), Pair(2, 1)], Pair(1, 0)));
    assert!(check_clear(&grid, &vec![Pair(0, 0), Pair(1, 1)], Pair(0, 0)));
    assert!(!check_clear(&grid, &vec![Pair(0, 0), Pair(1, 1)], Pair(1, 0)));
    assert!(check_apart(&vec![Pair(0, 0), Pair(2, 0)], Pair(1, 0)));
    assert!(!check_apart(&vec![Pair(0, 0), Pair(2, 0), Pair(1, 0)], Pair(1, 0)));
    assert!(check_apart(&vec![], Pair(1, 0)));
}

#[test]
fn all_pairs_costs_follow_the_cheapest_way() {
    let grid = costs(&[1, 5, 1]);
    let table = grid.floyd_warshall(Pair(0, 0));
    assert_eq!(table.extent(), Pair(2, 2));
    let expected = [[0, 5, 6], [1, 0, 1], [6, 5, 0]];
    for a in 0..3 {
        for b in 0..3 {
            assert_eq!(*table.get(Pair(a, b)), expected[a][b]);
        }
    }
}

#[test]
fn all_pairs_costs_go_round_and_stop_at_walls() {
    let mut grid = open_grid(3, 2);
    grid.set(Pair(1, 0), CellInfo { cost: 9, blocked: false });
    grid.set(Pair(2, 1), CellInfo { cost: 1, blocked: true });
    let table = grid.floyd_warshall(Pair(0, 0));
    assert_eq!(table.extent(), Pair(5, 5));
    // Positions row by row: (0,0) is 0, (2,0) is 2, (0,1) is 3, (1,1) is 4, (2,1) is 5.
    assert_eq!(*table.get(Pair(0, 2)), 10);
    assert_eq!(*table.get(Pair(0, 4)), 2);
    assert_eq!(*table.get(Pair(4, 2)), 10);
    assert_eq!(*table.get(Pair(0, 5)), usize::MAX);
    assert_eq!(*table.get(Pair(5, 5)), 0);
    // A blocked cell can be left but not entered.
    assert_eq!(*table.get(Pair(5, 4)), 1);
    assert_eq!(*table.get(Pair(5, 0)), 3);
}

#[test]
fn all_pairs_costs_of_large_footprints_count_every_cell() {
    let grid = open_grid(3, 2);
    let table = grid.floyd_warshall(Pair(1, 1));
    // Only the origins (0,0) and (1,0) hold the footprint.
    assert_eq!(*table.get(Pair(0, 1)), 4);
    assert_eq!(*table.get(Pair(1, 0)), 4);
    assert_eq!(*table.get(Pair(0, 2)), usize::MAX);
    // From an origin that does not hold the footprint a step still leads to one that does.
    assert_eq!(*table.get(Pair(2, 1)), 4);
    assert_eq!(*table.get(Pair(3, 0)), 4);
    assert_eq!(*table.get(Pair(3, 1)), 8);
    assert_eq!(*table.get(Pair(0, 3)), usize::MAX);
}
