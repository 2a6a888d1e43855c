use cbs_lawt::astar::AStar;
use cbs_lawt::cbs::{
    best_node, compare_paths, compare_solutions, expand_exploration, expand_explorations,
    expand_node, greedy_with_heuristic, settle, solve_mapf, solve_mapf_with, update_cbs,
    SolveError, CBS,
};
use cbs_lawt::conflicts::{
    advance, clone_path, clone_paths, collisions_at, detect_conflicts, extend_all, extend_path,
    makespan, starting_state, to_conflict, UnitState,
};
use cbs_lawt::explore::{greedy_choices, prioritize, Exploration};
use cbs_lawt::geometry::{Pair, Rank, Rect};
use cbs_lawt::grid::Grid;
use cbs_lawt::model::{CellInfo, Conflict, ConflictInfo, Constraint, Path, ScoredCell};

fn point(x: usize, y: usize) -> Rect {
    Rect { origin: Pair(x, y), extent: Pair(0, 0) }
}

fn stay(x: usize, from: usize, to: usize) -> ScoredCell {
    ScoredCell { location: point(x, 0), duration: Pair(from, to), cost: 0, prev: None }
}

fn info(uid: usize, x: usize, from: usize, to: usize) -> ConflictInfo {
    ConflictInfo { uid: Pair(uid, 0), location: point(x, 0), duration: Pair(from, to) }
}

fn shape(paths: &Vec<Path>) -> Vec<Vec<(usize, usize, usize, usize)>> {
    paths
        .iter()
        .map(|p| p.iter().map(|c| (c.location.origin.0, c.location.origin.1, c.duration.0, c.duration.1)).collect())
        .collect()
}

fn open_grid(width: usize, height: usize) -> Grid<CellInfo> {
    Grid::init(Pair(width - 1, height - 1), CellInfo { cost: 1, blocked: false })
}

fn meeting() -> AStar {
    AStar::init(vec![Pair(0, 0), Pair(4, 0)], vec![Pair(2, 0), Pair(2, 1)], Pair(0, 0), open_grid(5, 2)).unwrap()
}

fn plan(length: usize) -> Option<Path> {
    Some((0..length).map(|t| stay(t, t, t)).collect())
}

fn between(a: usize, b: usize, first: Option<Path>, second: Option<Path>) -> Exploration {
    Exploration { conflict: Conflict(info(a, 9, 1, 1), info(b, 9, 1, 1)), first, second }
}

fn summary(list: &Vec<Exploration>) -> Vec<(usize, usize, usize, usize)> {
    list.iter().map(|e| (e.uids().0 .0, e.uids().1 .0, e.score(), e.secondary_score())).collect()
}

#[test]
fn makespan_is_the_latest_last_tick() {
    let paths = vec![vec![stay(0, 0, 3)], vec![stay(1, 0, 1), stay(2, 2, 7)], vec![], vec![stay(3, 0, 5)]];
    assert_eq!(makespan(&paths), 7);
    assert_eq!(makespan(&vec![]), 0);
    assert_eq!(makespan(&vec![vec![]]), 0);
}

#[test]
fn extending_holds_the_last_stay() {
    let paths = vec![vec![stay(0, 0, 3)], vec![stay(1, 0, 1), stay(2, 2, 7)], vec![]];
    let longer = extend_all(&paths, 9);
    assert_eq!(shape(&longer), vec![vec![(0, 0, 0, 9)], vec![(1, 0, 0, 1), (2, 0, 2, 9)], vec![]]);
    assert_eq!(shape(&vec![extend_path(&paths[1], 4)]), vec![vec![(1, 0, 0, 1), (2, 0, 2, 4)]]);
    assert_eq!(shape(&clone_paths(&paths)), shape(&paths));
    assert_eq!(shape(&vec![clone_path(&paths[1])]), vec![vec![(1, 0, 0, 1), (2, 0, 2, 7)]]);
}

#[test]
fn agents_move_on_when_they_have_outstayed() {
    let paths = vec![vec![stay(0, 0, 1), stay(1, 2, 2), stay(2, 3, 9)], vec![stay(5, 0, 9)]];
    let mut state = starting_state(&paths);
    assert_eq!(
        state,
        vec![
            UnitState { uid: Pair(0, 0), path_idx: 0, location: point(0, 0), duration: Pair(0, 1) },
            UnitState { uid: Pair(5, 0), path_idx: 0, location: point(5, 0), duration: Pair(0, 9) },
        ]
    );
    assert_eq!(advance(&paths, &mut state, 1), vec![false, false]);
    assert_eq!(advance(&paths, &mut state, 2), vec![true, false]);
    assert_eq!(state[0], UnitState { uid: Pair(0, 0), path_idx: 1, location: point(1, 0), duration: Pair(2, 2) });
    assert_eq!(advance(&paths, &mut state, 3), vec![true, false]);
    assert_eq!(advance(&paths, &mut state, 4), vec![false, false]);
    assert_eq!(state[0], UnitState { uid: Pair(0, 0), path_idx: 2, location: point(2, 0), duration: Pair(3, 9) });
    assert_eq!(advance(&paths, &mut state, 20), vec![false, false]);
}

#[test]
fn a_collision_has_the_two_agents_in_their_order() {
    let a = UnitState { uid: Pair(0, 0), path_idx: 3, location: point(1, 0), duration: Pair(2, 2) };
    let b = UnitState { uid: Pair(5, 0), path_idx: 0, location: point(1, 0), duration: Pair(0, 9) };
    assert_eq!(to_conflict(&a, &b), Conflict(info(0, 1, 2, 2), info(5, 1, 0, 9)));
}

#[test]
fn a_collision_is_found_once_when_it_begins() {
    let paths = vec![vec![stay(0, 0, 0), stay(1, 1, 3)], vec![stay(2, 0, 0), stay(1, 1, 3)]];
    assert_eq!(detect_conflicts(&paths, 3), vec![Conflict(info(0, 1, 1, 3), info(2, 1, 1, 3))]);
    let paths = vec![vec![stay(1, 0, 3)], vec![stay(0, 0, 1), stay(1, 2, 3)]];
    assert_eq!(detect_conflicts(&paths, 3), vec![Conflict(info(1, 1, 0, 3), info(0, 1, 2, 3))]);
    assert_eq!(detect_conflicts(&paths, 1), vec![]);
    assert_eq!(detect_conflicts(&paths, 0), vec![]);
}

#[test]
fn collisions_come_tick_by_tick_and_pair_by_pair() {
    let paths = vec![
        vec![stay(0, 0, 0), stay(1, 1, 1), stay(2, 2, 2)],
        vec![stay(4, 0, 0), stay(1, 1, 1), stay(4, 2, 2)],
        vec![stay(3, 0, 0), stay(1, 1, 1), stay(2, 2, 2)],
    ];
    assert_eq!(
        detect_conflicts(&paths, 2),
        vec![
            Conflict(info(0, 1, 1, 1), info(4, 1, 1, 1)),
            Conflict(info(0, 1, 1, 1), info(3, 1, 1, 1)),
            Conflict(info(4, 1, 1, 1), info(3, 1, 1, 1)),
            Conflict(info(0, 2, 2, 2), info(3, 2, 2, 2)),
        ]
    );
    let state = vec![
        UnitState { uid: Pair(0, 0), path_idx: 0, location: point(1, 0), duration: Pair(0, 5) },
        UnitState { uid: Pair(4, 0), path_idx: 0, location: point(1, 0), duration: Pair(0, 5) },
        UnitState { uid: Pair(3, 0), path_idx: 1, location: point(1, 0), duration: Pair(1, 1) },
    ];
    let still = vec![vec![stay(1, 0, 5)], vec![stay(1, 0, 5)], vec![stay(3, 0, 0), stay(1, 1, 1)]];
    let mut found = vec![Conflict(info(7, 7, 7, 7), info(8, 8, 8, 8))];
    collisions_at(&still, &state, &vec![false, false, true], 1, &mut found);
    assert_eq!(
        found,
        vec![
            Conflict(info(7, 7, 7, 7), info(8, 8, 8, 8)),
            Conflict(info(0, 1, 0, 5), info(3, 1, 1, 1)),
            Conflict(info(4, 1, 0, 5), info(3, 1, 1, 1)),
        ]
    );
}

#[test]
fn large_footprints_collide_when_they_overlap() {
    let wide = |x: usize, from: usize, to: usize| ScoredCell {
        location: Rect { origin: Pair(x, 0), extent: Pair(1, 1) },
        duration: Pair(from, to),
        cost: 0,
        prev: None,
    };
    let paths = vec![vec![wide(0, 0, 0), wide(1, 1, 4)], vec![wide(4, 0, 0), wide(3, 1, 4)]];
    assert_eq!(detect_conflicts(&paths, 4).len(), 0);
    let paths = vec![vec![wide(0, 0, 0), wide(1, 1, 4)], vec![wide(3, 0, 0), wide(2, 1, 4)]];
    assert_eq!(detect_conflicts(&paths, 4).len(), 1);
}

#[test]
fn scores_are_the_shorter_and_the_longer_plan() {
    let e = between(0, 1, plan(3), plan(5));
    assert_eq!((e.score(), e.secondary_score()), (3, 5));
    assert_eq!(e.uids(), (Pair(0, 0), Pair(1, 0)));
    let e = between(0, 1, None, plan(5));
    assert_eq!((e.score(), e.secondary_score()), (5, usize::MAX));
    let e = between(0, 1, None, None);
    assert_eq!((e.score(), e.secondary_score()), (usize::MAX, usize::MAX));
    assert!(between(0, 1, plan(4), plan(4)).goes_before(&between(0, 1, plan(3), plan(3))));
    assert!(between(0, 1, plan(4), plan(4)).goes_before(&between(0, 1, plan(4), plan(5))));
    assert!(!between(0, 1, plan(4), plan(4)).goes_before(&between(0, 1, plan(4), plan(4))));
    assert!(between(0, 1, None, None).same_pair(&between(1, 0, None, None)));
    assert!(!between(0, 1, None, None).same_pair(&between(0, 2, None, None)));
    assert_eq!(summary(&vec![between(0, 1, plan(3), None).duplicate()]), vec![(0, 1, 3, usize::MAX)]);
}

#[test]
fn prioritize_keeps_the_best_of_each_pair_and_sorts() {
    let list = vec![
        between(0, 1, plan(3), plan(5)),
        between(0, 1, plan(4), None),
        between(2, 3, None, None),
        between(2, 3, plan(2), plan(2)),
        between(1, 0, plan(4), plan(4)),
    ];
    assert_eq!(summary(&prioritize(list)), vec![(1, 0, 4, 4), (2, 3, 2, 2)]);
    assert_eq!(summary(&prioritize(vec![])), vec![]);
}

#[test]
fn prioritize_keeps_the_earlier_of_equals_first() {
    let list = vec![
        between(0, 1, plan(2), plan(6)),
        between(2, 3, plan(5), plan(6)),
        between(4, 5, plan(2), plan(6)),
        between(6, 7, plan(5), plan(5)),
        between(8, 9, plan(5), plan(6)),
    ];
    assert_eq!(
        summary(&prioritize(list)),
        vec![(6, 7, 5, 5), (2, 3, 5, 6), (8, 9, 5, 6), (0, 1, 2, 6), (4, 5, 2, 6)]
    );
}

#[test]
fn greedy_choices_share_no_agent() {
    let list = || {
        vec![
            between(0, 1, plan(4), plan(4)),
            between(2, 3, plan(2), plan(2)),
            between(0, 2, plan(9), plan(9)),
            between(4, 5, plan(1), plan(1)),
        ]
    };
    assert_eq!(summary(&greedy_choices(list(), usize::MAX)), vec![(0, 2, 9, 9), (4, 5, 1, 1)]);
    assert_eq!(summary(&greedy_choices(list(), 1)), vec![(0, 2, 9, 9)]);
    assert_eq!(summary(&greedy_choices(list(), 0)), vec![]);
    let apart = vec![between(0, 1, plan(4), plan(4)), between(2, 3, plan(2), plan(2))];
    assert_eq!(summary(&greedy_choices(apart, usize::MAX)), vec![(0, 1, 4, 4), (2, 3, 2, 2)]);
}

#[test]
fn plans_are_ordered_stay_by_stay() {
    let a = vec![stay(0, 0, 0), stay(1, 1, 1)];
    let b = vec![stay(0, 0, 0), stay(1, 1, 2)];
    assert_eq!(compare_paths(&a, &a.clone()), Rank::Equal);
    // The stay that ends later is the greater stay.
    assert_eq!(compare_paths(&a, &b), Rank::Less);
    assert_eq!(compare_paths(&b, &a), Rank::Greater);
    assert_eq!(compare_paths(&vec![stay(0, 0, 0)], &a), Rank::Less);
    assert_eq!(compare_paths(&a, &vec![]), Rank::Greater);
    assert_eq!(compare_paths(&vec![], &vec![]), Rank::Equal);
    assert_eq!(compare_solutions(&vec![a.clone(), b.clone()], &vec![a.clone(), a.clone()]), Rank::Greater);
    assert_eq!(compare_solutions(&vec![a.clone()], &vec![a.clone(), a.clone()]), Rank::Less);
    assert_eq!(compare_solutions(&vec![b.clone(), a.clone()], &vec![b.clone(), a.clone()]), Rank::Equal);
}

#[test]
fn the_root_holds_the_plans_of_the_agents_alone() {
    let solver = meeting();
    let empty = CBS::new(&solver);
    assert_eq!((empty.constraints.len(), empty.solution.len(), empty.cost, empty.conflicts.len()), (0, 0, 0, 0));
    let root = CBS::init(&solver).unwrap();
    assert_eq!(root.cost, 2);
    assert_eq!(root.constraints, vec![]);
    assert_eq!(
        shape(&root.solution),
        vec![vec![(0, 0, 0, 0), (1, 0, 1, 1), (2, 0, 2, 2)], vec![(4, 0, 0, 0), (3, 0, 1, 1), (2, 0, 2, 2)]]
    );
    assert_eq!(
        root.conflicts,
        vec![Conflict(
            ConflictInfo { uid: Pair(0, 0), location: point(2, 0), duration: Pair(2, 2) },
            ConflictInfo { uid: Pair(4, 0), location: point(2, 0), duration: Pair(2, 2) },
        )]
    );
    let copy = root.duplicate();
    assert_eq!(copy.compare(&root), Rank::Equal);
    assert_eq!(shape(&copy.solution), shape(&root.solution));
}

#[test]
fn the_steps_of_the_root_can_be_taken_one_by_one() {
    let solver = AStar::init(vec![Pair(0, 0), Pair(3, 0)], vec![Pair(1, 0), Pair(6, 0)], Pair(0, 0), open_grid(7, 1)).unwrap();
    let mut node = CBS::new(&solver);
    assert_eq!(node.find_paths(), Ok(()));
    assert_eq!(shape(&node.solution), vec![vec![(0, 0, 0, 0), (1, 0, 1, 1)], vec![(3, 0, 0, 0), (2, 0, 1, 1), (1, 0, 2, 2)]]);
    node.extend_paths();
    assert_eq!(shape(&node.solution), vec![vec![(0, 0, 0, 0), (1, 0, 1, 2)], vec![(3, 0, 0, 0), (2, 0, 1, 1), (1, 0, 2, 2)]]);
    assert_eq!(node.cost, 0);
    node.find_cost();
    assert_eq!(node.cost, 2);
    node.find_conflicts();
    assert_eq!(node.conflicts, vec![Conflict(info(0, 1, 1, 2), info(3, 1, 2, 2))]);
}

#[test]
fn an_exploration_plans_both_agents_anew() {
    let solver = meeting();
    let root = CBS::init(&solver).unwrap();
    let conflict = root.conflicts[0];
    let alone = root.explore_constraint(conflict.constraints()[0]).unwrap();
    assert_eq!(shape(&vec![alone]), vec![vec![(0, 0, 0, 0), (1, 0, 1, 1), (1, 1, 2, 2), (2, 1, 3, 3)]]);
    let e = root.explore_conflict(conflict);
    assert_eq!(e.conflict, conflict);
    assert_eq!(shape(&vec![e.first.unwrap()]), vec![vec![(0, 0, 0, 0), (1, 0, 1, 1), (1, 1, 2, 2), (2, 1, 3, 3)]]);
    assert_eq!(shape(&vec![e.second.unwrap()]), vec![vec![(4, 0, 0, 0), (3, 0, 1, 1), (3, 1, 2, 2), (2, 1, 3, 3)]]);
    assert_eq!(root.explore().len(), 1);
}

#[test]
fn a_new_plan_takes_the_place_of_the_plan_from_the_same_origin() {
    let solver = meeting();
    let mut node = CBS::init(&solver).unwrap();
    let new = vec![stay(4, 0, 5)];
    assert_eq!(node.target(&new), 1);
    assert_eq!(node.target(&vec![stay(3, 0, 5)]), 2);
    assert_eq!(node.target(&vec![]), 2);
    node.change_path(new);
    assert_eq!(shape(&node.solution), vec![vec![(0, 0, 0, 0), (1, 0, 1, 1), (2, 0, 2, 2)], vec![(4, 0, 0, 5)]]);
    node.change_path(vec![stay(3, 0, 5)]);
    node.change_path(vec![]);
    assert_eq!(shape(&node.solution), vec![vec![(0, 0, 0, 0), (1, 0, 1, 1), (2, 0, 2, 2)], vec![(4, 0, 0, 5)]]);
}

#[test]
fn a_child_has_one_constraint_more_and_plans_that_end_together() {
    let solver = meeting();
    let root = CBS::init(&solver).unwrap();
    let constraint = Constraint { uid: Pair(4, 0), location: point(2, 0), duration: Pair(2, 2) };
    let child = update_cbs(root.duplicate(), constraint, vec![stay(4, 0, 3), stay(3, 4, 4)]);
    assert_eq!(child.constraints, vec![constraint]);
    assert_eq!(child.cost, 4);
    assert_eq!(
        shape(&child.solution),
        vec![vec![(0, 0, 0, 0), (1, 0, 1, 1), (2, 0, 2, 4)], vec![(4, 0, 0, 3), (3, 0, 4, 4)]]
    );
    assert_eq!(child.conflicts, root.conflicts);
    let settled = settle(child);
    assert_eq!(settled.conflicts, vec![]);
    assert_eq!(settled.cost, 4);
}

#[test]
fn a_node_branches_once_for_each_new_plan() {
    let solver = meeting();
    let root = CBS::init(&solver).unwrap();
    let conflict = root.conflicts[0];
    let both = Exploration { conflict, first: plan(2), second: Some(vec![stay(4, 0, 0), stay(3, 1, 1)]) };
    let children = expand_exploration(&root, &both);
    assert_eq!(children.len(), 2);
    assert_eq!(children[0].constraints, vec![conflict.constraints()[0]]);
    assert_eq!(children[1].constraints, vec![conflict.constraints()[1]]);
    assert_eq!(shape(&children[0].solution)[0], vec![(0, 0, 0, 0), (1, 0, 1, 2)]);
    assert_eq!(shape(&children[1].solution)[1], vec![(4, 0, 0, 0), (3, 0, 1, 2)]);
    let one = Exploration { conflict, first: None, second: Some(vec![stay(4, 0, 0), stay(3, 1, 1)]) };
    assert_eq!(expand_exploration(&root, &one).len(), 1);
    let none = Exploration { conflict, first: None, second: None };
    assert_eq!(expand_exploration(&root, &none).len(), 0);
    assert_eq!(expand_explorations(root.duplicate(), vec![]).len(), 1);
    assert_eq!(expand_explorations(root.duplicate(), vec![both.duplicate(), one.duplicate()]).len(), 2);
    assert_eq!(expand_explorations(root.duplicate(), vec![both.duplicate(), both.duplicate()]).len(), 4);
    assert_eq!(expand_explorations(root.duplicate(), vec![both, none]).len(), 0);
}

#[test]
fn the_children_of_the_root_resolve_its_conflict() {
    let solver = meeting();
    let root = CBS::init(&solver).unwrap();
    let children = expand_node(root, usize::MAX);
    assert_eq!(children.len(), 2);
    assert_eq!(
        shape(&children[0].solution),
        vec![vec![(0, 0, 0, 0), (1, 0, 1, 1), (1, 1, 2, 2), (2, 1, 3, 3)], vec![(4, 0, 0, 0), (3, 0, 1, 1), (2, 0, 2, 3)]]
    );
    assert_eq!(
        shape(&children[1].solution),
        vec![vec![(0, 0, 0, 0), (1, 0, 1, 1), (2, 0, 2, 3)], vec![(4, 0, 0, 0), (3, 0, 1, 1), (3, 1, 2, 2), (2, 1, 3, 3)]]
    );
    assert_eq!(children[0].cost, 3);
    assert_eq!(children[0].conflicts.len(), 0);
    assert_eq!(children[1].cost, 3);
    assert_eq!(children[1].conflicts.len(), 0);
    assert_eq!(best_node(&children), 0);
}

#[test]
fn the_cheaper_node_is_expanded_first() {
    let solver = meeting();
    let root = CBS::init(&solver).unwrap();
    let children = expand_node(root.duplicate(), usize::MAX);
    assert_eq!(root.compare(&children[0]), Rank::Greater);
    assert_eq!(children[0].compare(&root), Rank::Less);
    let mut open = vec![children[0].duplicate(), root.duplicate(), children[1].duplicate()];
    assert_eq!(best_node(&open), 1);
    open.remove(1);
    let mut more = open[0].duplicate();
    more.conflicts.push(root.conflicts[0]);
    open.insert(0, more);
    assert_eq!(best_node(&open), 1);
}

#[test]
fn two_agents_that_want_the_same_place_are_told_apart() {
    let solver = meeting();
    let expected = vec![
        vec![(0, 0, 0, 0), (1, 0, 1, 1), (1, 1, 2, 2), (2, 1, 3, 3)],
        vec![(4, 0, 0, 0), (3, 0, 1, 1), (2, 0, 2, 3)],
    ];
    assert_eq!(shape(&solve_mapf(&solver).unwrap()), expected);
    assert_eq!(shape(&solve_mapf_with(&solver, 1, 1000).unwrap()), expected);
    let root = CBS::init(&solver).unwrap();
    assert_eq!(shape(&greedy_with_heuristic(root, usize::MAX, 1000).unwrap()), expected);
}

#[test]
fn the_search_over_constraints_stops_at_its_limit() {
    let solver = meeting();
    assert_eq!(solve_mapf_with(&solver, usize::MAX, 0).err(), Some(SolveError::LimitReached));
    assert_eq!(solve_mapf_with(&solver, usize::MAX, 1).err(), Some(SolveError::LimitReached));
    let jam = AStar::init(vec![Pair(0, 0), Pair(1, 0)], vec![Pair(2, 0), Pair(2, 0)], Pair(0, 0), open_grid(3, 1)).unwrap();
    assert_eq!(solve_mapf_with(&jam, usize::MAX, 30).err(), Some(SolveError::LimitReached));
}

#[test]
fn an_empty_list_of_nodes_is_infeasible() {
    let solver = meeting();
    let mut root = CBS::init(&solver).unwrap();
    // Both agents are shut in for good, so the one conflict has no way out.
    root.constraints.push(Constraint { uid: Pair(0, 0), location: point(1, 0), duration: Pair(0, usize::MAX) });
    root.constraints.push(Constraint { uid: Pair(0, 0), location: Rect { origin: Pair(0, 0), extent: Pair(0, 1) }, duration: Pair(1, usize::MAX) });
    root.constraints.push(Constraint { uid: Pair(4, 0), location: point(3, 0), duration: Pair(0, usize::MAX) });
    root.constraints.push(Constraint { uid: Pair(4, 0), location: Rect { origin: Pair(4, 0), extent: Pair(0, 1) }, duration: Pair(1, usize::MAX) });
    assert_eq!(greedy_with_heuristic(root, usize::MAX, 100).err(), Some(SolveError::LimitReached));
}

#[test]
fn nobody_to_serve_is_served_at_once() {
    let solver = AStar::init(vec![], vec![], Pair(0, 0), open_grid(3, 2)).unwrap();
    assert_eq!(solve_mapf(&solver).unwrap().len(), 0);
}
