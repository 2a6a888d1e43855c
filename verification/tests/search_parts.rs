use cbs_lawt::astar::AStar;
use cbs_lawt::geometry::{Pair, Rank, Rect};
use cbs_lawt::grid::Grid;
use cbs_lawt::model::{unfold_path, CellInfo, Conflict, ConflictInfo, Constraint, ScoredCell};
use cbs_lawt::search::{
    best_index, filter_constraints, may_stop, open_allows_candidate, reconstruct_path,
    satisfies_constraints, Search,
};
use std::rc::Rc;

fn point(x: usize, y: usize) -> Rect {
    Rect { origin: Pair(x, y), extent: Pair(0, 0) }
}

fn stay(x: usize, from: usize, to: usize, cost: usize) -> ScoredCell {
    ScoredCell { location: point(x, 0), duration: Pair(from, to), cost, prev: None }
}

fn after(prev: &ScoredCell, mut next: ScoredCell) -> ScoredCell {
    next.prev = Some(Rc::new(prev.clone()));
    next
}

fn keep_out(uid: usize, x: usize, from: usize, to: usize) -> Constraint {
    Constraint { uid: Pair(uid, 0), location: point(x, 0), duration: Pair(from, to) }
}

fn corridor(length: usize) -> AStar {
    let grid = Grid::init(Pair(length - 1, 0), CellInfo { cost: 1, blocked: false });
    AStar::init(vec![Pair(0, 0)], vec![Pair(length - 1, 0)], Pair(0, 0), grid).unwrap()
}

fn fields(cell: &ScoredCell) -> (Rect, Pair, usize) {
    (cell.location, cell.duration, cell.cost)
}

#[test]
fn stays_are_equal_by_footprint_and_ticks() {
    assert!(stay(1, 2, 3, 9) == stay(1, 2, 3, 4));
    assert!(stay(1, 2, 3, 9) == after(&stay(0, 0, 1, 0), stay(1, 2, 3, 9)));
    assert!(stay(1, 2, 3, 9) != stay(2, 2, 3, 9));
    assert!(stay(1, 2, 3, 9) != stay(1, 2, 4, 9));
    assert!(stay(1, 1, 3, 9) != stay(1, 2, 3, 9));
}

#[test]
fn clone_keeps_every_field() {
    let cell = after(&stay(0, 0, 1, 0), stay(1, 2, 3, 9));
    let copy = cell.clone();
    assert_eq!(fields(&copy), fields(&cell));
    assert_eq!(fields(copy.prev.as_ref().unwrap()), fields(&stay(0, 0, 1, 0)));
}

#[test]
fn the_cheaper_stay_is_the_greater() {
    assert_eq!(stay(5, 9, 9, 3).compare(&stay(0, 0, 0, 5)), Rank::Greater);
    assert_eq!(stay(0, 0, 0, 5).compare(&stay(5, 9, 9, 3)), Rank::Less);
}

#[test]
fn ties_go_to_the_later_ticks_then_the_higher_footprint() {
    assert_eq!(stay(0, 0, 4, 3).compare(&stay(5, 9, 2, 3)), Rank::Greater);
    assert_eq!(stay(5, 9, 2, 3).compare(&stay(0, 0, 4, 3)), Rank::Less);
    assert_eq!(stay(0, 2, 4, 3).compare(&stay(5, 1, 4, 3)), Rank::Greater);
    assert_eq!(stay(5, 1, 4, 3).compare(&stay(0, 2, 4, 3)), Rank::Less);
    assert_eq!(stay(2, 2, 4, 3).compare(&stay(1, 2, 4, 3)), Rank::Greater);
    assert_eq!(stay(1, 2, 4, 3).compare(&stay(2, 2, 4, 3)), Rank::Less);
    assert_eq!(stay(2, 2, 4, 3).compare(&stay(2, 2, 4, 3)), Rank::Equal);
}

#[test]
fn the_order_turns_round_with_its_arguments() {
    let cells = [stay(0, 0, 4, 3), stay(5, 9, 2, 3), stay(1, 1, 1, 7), after(&stay(0, 0, 0, 1), stay(1, 1, 1, 7))];
    for a in &cells {
        for b in &cells {
            assert_eq!(a.compare(b), b.compare(a).flip());
        }
    }
}

#[test]
fn last_ties_go_by_the_predecessors() {
    let alone = stay(2, 2, 4, 3);
    let cheap = after(&stay(1, 0, 1, 1), stay(2, 2, 4, 3));
    let dear = after(&stay(1, 0, 1, 2), stay(2, 2, 4, 3));
    // No predecessor is lowest; of two predecessors the cheaper is the greater.
    assert_eq!(alone.compare(&cheap), Rank::Less);
    assert_eq!(cheap.compare(&alone), Rank::Greater);
    assert_eq!(cheap.compare(&dear), Rank::Greater);
    assert_eq!(dear.compare(&cheap), Rank::Less);
    assert_eq!(cheap.compare(&cheap.clone()), Rank::Equal);
}

#[test]
fn best_index_finds_the_first_greatest() {
    let open = vec![stay(0, 0, 3, 5), stay(1, 0, 2, 4), stay(2, 0, 1, 4), stay(2, 0, 1, 4), stay(3, 0, 0, 6)];
    assert_eq!(best_index(&open), 1);
    assert_eq!(best_index(&vec![stay(0, 0, 3, 5)]), 0);
    assert_eq!(best_index(&vec![stay(3, 0, 0, 6), stay(2, 0, 1, 4), stay(2, 0, 1, 4)]), 1);
}

#[test]
fn filter_keeps_the_constraints_of_the_agent_in_order() {
    let all = [keep_out(0, 1, 1, 1), keep_out(3, 1, 1, 1), keep_out(0, 2, 5, 6), keep_out(1, 0, 0, 0)];
    assert_eq!(filter_constraints(Pair(0, 0), &all), vec![all[0], all[2]]);
    assert_eq!(filter_constraints(Pair(3, 0), &all), vec![all[1]]);
    assert_eq!(filter_constraints(Pair(7, 0), &all), vec![]);
}

#[test]
fn a_stay_breaks_a_constraint_when_place_and_ticks_overlap() {
    let constraints = [keep_out(0, 1, 2, 4)];
    assert!(satisfies_constraints(&stay(1, 0, 1, 0), &constraints));
    assert!(!satisfies_constraints(&stay(1, 0, 2, 0), &constraints));
    assert!(!satisfies_constraints(&stay(1, 3, 3, 0), &constraints));
    assert!(!satisfies_constraints(&stay(1, 4, 6, 0), &constraints));
    assert!(satisfies_constraints(&stay(1, 5, 6, 0), &constraints));
    assert!(satisfies_constraints(&stay(2, 0, 9, 0), &constraints));
    assert!(satisfies_constraints(&stay(1, 3, 3, 0), &[]));
    let wide = ScoredCell {
        location: Rect { origin: Pair(0, 0), extent: Pair(1, 1) },
        duration: Pair(3, 3),
        cost: 0,
        prev: None,
    };
    assert!(!satisfies_constraints(&wide, &constraints));
}

#[test]
fn an_agent_may_stop_once_no_constraint_is_to_come() {
    let constraints = [keep_out(0, 1, 2, 4)];
    assert!(!may_stop(&stay(1, 0, 1, 0), &constraints));
    assert!(!may_stop(&stay(1, 4, 9, 0), &constraints));
    assert!(may_stop(&stay(1, 5, 9, 0), &constraints));
    assert!(may_stop(&stay(2, 0, 1, 0), &constraints));
}

#[test]
fn the_open_list_refuses_what_it_holds_no_dearer() {
    let open = vec![stay(1, 1, 2, 5), stay(2, 0, 0, 1)];
    assert!(!open_allows_candidate(&stay(1, 1, 2, 5), &open));
    assert!(!open_allows_candidate(&stay(1, 1, 2, 6), &open));
    assert!(open_allows_candidate(&stay(1, 1, 2, 4), &open));
    assert!(open_allows_candidate(&stay(1, 1, 3, 9), &open));
    assert!(open_allows_candidate(&stay(3, 1, 2, 9), &open));
    assert!(open_allows_candidate(&stay(1, 1, 2, 5), &vec![]));
}

#[test]
fn successors_are_the_wait_and_then_the_moves() {
    let solver = corridor(3);
    let succ = solver.successors(stay(1, 3, 4, 5), &[]);
    assert_eq!(succ.len(), 3);
    assert_eq!(fields(&succ[0]), (point(1, 0), Pair(3, 5), 6));
    assert!(succ[0].prev.is_none());
    assert_eq!(fields(&succ[1]), (point(2, 0), Pair(5, 5), 5));
    assert_eq!(fields(&succ[2]), (point(0, 0), Pair(5, 5), 7));
    assert_eq!(fields(succ[1].prev.as_ref().unwrap()), (point(1, 0), Pair(3, 4), 5));
}

#[test]
fn successors_pay_the_cost_of_the_footprint_entered() {
    let mut grid = Grid::init(Pair(2, 0), CellInfo { cost: 1, blocked: false });
    grid.set(Pair(1, 0), CellInfo { cost: 3, blocked: false });
    let solver = AStar::init(vec![Pair(0, 0)], vec![Pair(2, 0)], Pair(0, 0), grid).unwrap();
    let succ = solver.successors(stay(0, 0, 0, 0), &[]);
    assert_eq!(succ.len(), 2);
    assert_eq!(fields(&succ[0]), (point(0, 0), Pair(0, 1), 1));
    assert_eq!(fields(&succ[1]), (point(1, 0), Pair(1, 3), 4));
}

#[test]
fn successors_leave_out_what_breaks_a_constraint() {
    let solver = corridor(3);
    let succ = solver.successors(stay(1, 3, 4, 5), &[keep_out(0, 1, 5, 5), keep_out(0, 0, 5, 9)]);
    assert_eq!(succ.len(), 1);
    assert_eq!(fields(&succ[0]), (point(2, 0), Pair(5, 5), 5));
}

#[test]
fn successors_leave_out_what_costs_infinitely() {
    let mut grid = Grid::init(Pair(3, 0), CellInfo { cost: 1, blocked: false });
    grid.set(Pair(1, 0), CellInfo { cost: 1, blocked: true });
    let solver = AStar::init(vec![Pair(2, 0)], vec![Pair(3, 0)], Pair(0, 0), grid).unwrap();
    // Nothing leads from (0, 0) to the destination, so no move goes there.
    assert_eq!(*solver.heuristic.get(Pair(0, 0)), usize::MAX);
    assert_eq!(solver.successors(stay(0, 0, 0, usize::MAX - 1), &[]).len(), 0);
    assert_eq!(solver.successors(stay(0, 0, usize::MAX - 1, 0), &[]).len(), 0);
    let succ = solver.successors(stay(2, 0, usize::MAX - 2, 0), &[]);
    assert_eq!(succ.len(), 2);
    assert_eq!(fields(&succ[0]), (point(2, 0), Pair(0, usize::MAX - 1), 1));
    assert_eq!(fields(&succ[1]), (point(3, 0), Pair(usize::MAX - 1, usize::MAX - 1), usize::MAX - 1));
    let succ = solver.successors(stay(2, 0, usize::MAX - 1, 0), &[]);
    assert_eq!(succ.len(), 0);
    let wide = ScoredCell {
        location: Rect { origin: Pair(2, 0), extent: Pair(1, 0) },
        duration: Pair(0, 0),
        cost: 0,
        prev: None,
    };
    assert_eq!(solver.successors(wide, &[]).len(), 1);
}

#[test]
fn a_path_is_the_chain_of_predecessors_in_order_of_time() {
    let a = stay(0, 0, 1, 0);
    let b = after(&a, stay(1, 2, 2, 0));
    let c = after(&b, stay(2, 3, 5, 0));
    let path = reconstruct_path(c);
    assert_eq!(path.len(), 3);
    assert_eq!(fields(&path[0]), fields(&a));
    assert_eq!(fields(&path[1]), fields(&stay(1, 2, 2, 0)));
    assert_eq!(fields(&path[2]), fields(&stay(2, 3, 5, 0)));
    assert_eq!(reconstruct_path(stay(4, 0, 0, 0)).len(), 1);
}

#[test]
fn a_predecessor_at_the_same_footprint_is_left_out() {
    let a = stay(0, 0, 1, 0);
    let b = after(&a, stay(1, 2, 2, 0));
    let c = after(&b, stay(1, 3, 5, 0));
    let path = reconstruct_path(c);
    assert_eq!(path.len(), 2);
    assert_eq!(fields(&path[0]), fields(&a));
    assert_eq!(fields(&path[1]), fields(&stay(1, 3, 5, 0)));
}

#[test]
fn the_search_stops_at_its_limit() {
    let solver = corridor(3);
    assert!(matches!(solver.search(Pair(0, 0), &[], 0), Search::LimitReached));
    assert!(matches!(solver.search(Pair(0, 0), &[], 1), Search::LimitReached));
    match solver.search(Pair(0, 0), &[], 2) {
        Search::Found(path) => {
            assert_eq!(path.len(), 3);
            assert_eq!(fields(&path[0]), (point(0, 0), Pair(0, 0), 2));
            assert_eq!(fields(&path[1]), (point(1, 0), Pair(1, 1), 2));
            assert_eq!(fields(&path[2]), (point(2, 0), Pair(2, 2), 2));
        }
        _ => panic!("a plan is two expansions away"),
    }
}

#[test]
fn there_is_no_plan_from_outside_the_grid() {
    let solver = corridor(3);
    assert!(matches!(solver.search(Pair(3, 0), &[], 100), Search::Unreachable));
    assert!(matches!(solver.search(Pair(0, 1), &[], 100), Search::Unreachable));
    assert!(solver.astar(Pair(usize::MAX, 0), &[]).is_none());
}

#[test]
fn there_is_no_plan_when_every_way_is_closed_for_good() {
    let solver = corridor(3);
    let wall = [keep_out(0, 1, 0, usize::MAX), keep_out(0, 0, 1, usize::MAX)];
    assert!(matches!(solver.search(Pair(0, 0), &wall, 100), Search::Unreachable));
    assert!(solver.astar(Pair(0, 0), &wall).is_none());
}

#[test]
fn an_agent_at_a_destination_waits_one_tick() {
    let grid = Grid::init(Pair(2, 0), CellInfo { cost: 1, blocked: false });
    let solver = AStar::init(vec![Pair(1, 0)], vec![Pair(1, 0)], Pair(0, 0), grid).unwrap();
    let path = solver.astar(Pair(1, 0), &[]).unwrap();
    assert_eq!(path.len(), 1);
    assert_eq!(fields(&path[0]), (point(1, 0), Pair(0, 1), 1));
}

#[test]
fn a_destination_that_is_closed_later_is_left_in_time() {
    let solver = corridor(3);
    // The destination may be entered at tick 2 but not held at tick 4.
    let path = solver.astar(Pair(0, 0), &[keep_out(0, 2, 4, 4)]).unwrap();
    let last = &path[path.len() - 1];
    assert_eq!(last.location, point(2, 0));
    assert!(last.duration.0 > 4);
    for cell in &path {
        assert!(!(cell.location == point(2, 0) && cell.duration.0 <= 4 && 4 <= cell.duration.1));
    }
}

#[test]
fn the_first_tick_is_not_held_against_constraints() {
    let solver = corridor(3);
    let path = solver.astar(Pair(0, 0), &[keep_out(0, 0, 0, 0)]).unwrap();
    assert_eq!(fields(&path[0]), (point(0, 0), Pair(0, 0), 2));
    assert_eq!(path[path.len() - 1].duration, Pair(2, 2));
}

#[test]
fn unfolding_gives_one_footprint_per_tick() {
    let path = vec![stay(0, 0, 1, 0), stay(1, 2, 2, 0), stay(2, 3, 5, 0)];
    assert_eq!(
        unfold_path(path),
        vec![point(0, 0), point(0, 0), point(1, 0), point(2, 0), point(2, 0), point(2, 0)]
    );
    assert_eq!(unfold_path(vec![]), vec![]);
    assert_eq!(unfold_path(vec![stay(3, 0, 0, 0)]), vec![point(3, 0)]);
    assert_eq!(unfold_path(vec![stay(3, 2, 1, 0)]), vec![]);
}

#[test]
fn a_conflict_keeps_each_agent_out_of_the_way_of_the_other() {
    let a = ConflictInfo { uid: Pair(0, 0), location: point(4, 0), duration: Pair(4, 4) };
    let b = ConflictInfo { uid: Pair(1, 0), location: point(5, 0), duration: Pair(3, 6) };
    let conflict = Conflict(a, b);
    assert_eq!(conflict.uids(), (Pair(0, 0), Pair(1, 0)));
    assert_eq!(
        conflict.constraints(),
        [
            Constraint { uid: Pair(0, 0), location: point(5, 0), duration: Pair(3, 6) },
            Constraint { uid: Pair(1, 0), location: point(4, 0), duration: Pair(4, 4) },
        ]
    );
}
