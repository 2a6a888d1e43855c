//! What holds of the plans that the search over sets of constraints returns.
use crate::astar::AStar;
use crate::cbs::{
    same_start, spec_branch, spec_branch_all, spec_change_path, spec_children, spec_expand,
    spec_explore, spec_explore_conflict, spec_find_conflicts, spec_plans, spec_root, spec_settle,
    spec_solve, spec_solve_from, spec_target, spec_update, spec_best_node, NodeView,
};
use crate::conflicts::{finish, spec_extend, spec_extend_path, spec_makespan};
use crate::explore::{all_hold, lemma_greedy_hold, spec_greedy, ExplorationView};
use crate::geometry::Pair;
use crate::model::{Conflict, Constraint, ScoredCell};
use vstd::prelude::*;

verus! {

/// Every plan ends at tick `end`.
pub open spec fn level(paths: Seq<Seq<ScoredCell>>, end: usize) -> bool {
    forall|i: int| 0 <= i < paths.len() ==> finish(#[trigger] paths[i]) == end
}

/// The property holds of every node of the list.
pub open spec fn all_nodes(nodes: Seq<NodeView>, property: spec_fn(NodeView) -> bool) -> bool {
    forall|i: int| 0 <= i < nodes.len() ==> property(#[trigger] nodes[i])
}

impl AStar {
    /// The path is a plan of the agent that starts at `uid`, whatever the constraints: it
    /// begins at the footprint of `uid` at tick 0, each stay may follow the one before it,
    /// and the last is at a destination.
    pub open spec fn plan_of(&self, uid: Pair, path: Seq<ScoredCell>) -> bool {
        &&& path.len() >= 1
        &&& path[0].location == self.footprint(uid)
        &&& path[0].duration.0 == 0
        &&& forall|i: int| 0 <= i < path.len() - 1 ==> self.step_ok(#[trigger] path[i], path[i + 1])
        &&& self.destinations@.contains(path.last().location.origin)
    }

    /// There is one plan for each agent, in the order of the origins.
    pub open spec fn plans_ok(&self, paths: Seq<Seq<ScoredCell>>) -> bool {
        &&& paths.len() == self.origins@.len()
        &&& forall|i: int|
            0 <= i < paths.len() ==> self.plan_of(self.origins@[i], #[trigger] paths[i])
    }

    /// The node holds a plan for each agent, and all plans end at its cost.
    #[verifier::opaque]
    pub open spec fn grown_ok(&self, node: NodeView) -> bool {
        &&& self.plans_ok(node.solution)
        &&& level(node.solution, node.cost)
        &&& node.cost == spec_makespan(node.solution)
    }

    /// The node holds a plan for each agent, all plans end at its cost, and its conflicts
    /// are the collisions of its plans.
    #[verifier::opaque]
    pub open spec fn node_ok(&self, node: NodeView) -> bool {
        &&& self.grown_ok(node)
        &&& node.conflicts == spec_find_conflicts(node.solution, node.cost)
    }

    /// The plans serve every agent, end together, and do not collide.
    pub open spec fn answer_ok(&self, paths: Seq<Seq<ScoredCell>>) -> bool {
        &&& self.plans_ok(paths)
        &&& level(paths, spec_makespan(paths))
        &&& spec_find_conflicts(paths, spec_makespan(paths)).len() == 0
    }

    /// The new plans of the exploration are plans of the two agents of its conflict.
    pub open spec fn honest(&self, e: ExplorationView) -> bool {
        &&& e.first matches Some(path) ==> self.plan_of(e.conflict.0.uid, path)
        &&& e.second matches Some(path) ==> self.plan_of(e.conflict.1.uid, path)
    }

    /// What the search of one agent finds is a plan of that agent.
    pub proof fn lemma_astar_plan(&self, uid: Pair, constraints: Seq<Constraint>)
        ensures
            self.spec_astar(uid, constraints) matches Some(path) ==> self.plan_of(uid, path),
    {
        self.lemma_search_sound(uid, constraints, usize::MAX as nat);
    }

    /// A plan whose last stay is made longer is a plan of the same agent, and ends where
    /// the stay is made to end.
    pub proof fn lemma_extend_path_ok(&self, uid: Pair, path: Seq<ScoredCell>, end: usize)
        requires
            self.plan_of(uid, path),
            end >= finish(path),
        ensures
            self.plan_of(uid, spec_extend_path(path, end)),
            finish(spec_extend_path(path, end)) == end,
    {
        let longer = spec_extend_path(path, end);
        assert forall|i: int| 0 <= i < longer.len() - 1 implies self.step_ok(
            #[trigger] longer[i],
            longer[i + 1],
        ) by {
            assert(self.step_ok(path[i], path[i + 1]));
        }
    }

    /// Plans made to end together at the last tick of the longest are plans of the same
    /// agents, and all end at that tick.
    pub proof fn lemma_extend_ok(&self, paths: Seq<Seq<ScoredCell>>)
        requires
            self.plans_ok(paths),
        ensures
            self.plans_ok(spec_extend(paths, spec_makespan(paths))),
            level(spec_extend(paths, spec_makespan(paths)), spec_makespan(paths)),
            spec_makespan(spec_extend(paths, spec_makespan(paths))) == spec_makespan(paths),
    {
        let end = spec_makespan(paths);
        let longer = spec_extend(paths, end);
        assert forall|i: int| 0 <= i < longer.len() implies self.plan_of(
            self.origins@[i],
            #[trigger] longer[i],
        ) && finish(longer[i]) == end by {
            lemma_makespan_bounds(paths, i);
            self.lemma_extend_path_ok(self.origins@[i], paths[i], end);
        }
        if paths.len() == 0 {
            assert(spec_makespan(paths) == 0);
            assert(spec_makespan(longer) == 0);
        } else {
            lemma_level_makespan(longer, end);
        }
    }

    /// Plans in which one plan gives way to another plan of an agent are plans of the same
    /// agents.
    pub proof fn lemma_change_ok(
        &self,
        solution: Seq<Seq<ScoredCell>>,
        path: Seq<ScoredCell>,
        uid: Pair,
    )
        requires
            self.plans_ok(solution),
            self.plan_of(uid, path),
        ensures
            self.plans_ok(spec_change_path(solution, path)),
    {
        lemma_target(solution, path);
        let target = spec_target(solution, path);
        let changed = spec_change_path(solution, path);
        assert forall|i: int| 0 <= i < changed.len() implies self.plan_of(
            self.origins@[i],
            #[trigger] changed[i],
        ) by {
            assert(self.plan_of(self.origins@[i], solution[i]));
            if i == target {
                assert(same_start(solution[i], path));
                assert(self.footprint(self.origins@[i]) == self.footprint(uid));
            }
        }
    }

    /// A node updated with a plan of an agent holds a plan for each agent, and its plans end
    /// at its cost.
    pub proof fn lemma_update_ok(
        &self,
        node: NodeView,
        constraint: Constraint,
        path: Seq<ScoredCell>,
        uid: Pair,
    )
        requires
            self.plans_ok(node.solution),
            self.plan_of(uid, path),
        ensures
            self.grown_ok(spec_update(node, constraint, path)),
    {
        reveal(AStar::grown_ok);
        self.lemma_change_ok(node.solution, path, uid);
        self.lemma_extend_ok(spec_change_path(node.solution, path));
    }

    /// The explorations of a node are honest.
    pub proof fn lemma_explore_honest(
        &self,
        constraints: Seq<Constraint>,
        conflicts: Seq<Conflict>,
    )
        ensures
            all_hold(
                spec_explore(self, constraints, conflicts),
                |e: ExplorationView| self.honest(e),
            ),
    {
        let list = spec_explore(self, constraints, conflicts);
        assert forall|i: int| 0 <= i < list.len() implies self.honest(#[trigger] list[i]) by {
            let pair = conflicts[i].spec_constraints();
            assert(list[i] == spec_explore_conflict(self, constraints, conflicts[i]));
            self.lemma_astar_plan(pair[0].uid, constraints.push(pair[0]));
            self.lemma_astar_plan(pair[1].uid, constraints.push(pair[1]));
        }
    }

    /// The children of a node by an honest exploration hold a plan for each agent.
    pub proof fn lemma_branch_ok(&self, node: NodeView, e: ExplorationView)
        requires
            self.grown_ok(node),
            self.honest(e),
        ensures
            all_nodes(spec_branch(node, e), |n: NodeView| self.grown_ok(n)),
    {
        assert(self.plans_ok(node.solution)) by {
            reveal(AStar::grown_ok);
        }
        let pair = e.conflict.spec_constraints();
        let born = spec_branch(node, e);
        match e.first {
            Some(path) => {
                self.lemma_update_ok(node, pair[0], path, e.conflict.0.uid);
            },
            None => {},
        }
        match e.second {
            Some(path) => {
                self.lemma_update_ok(node, pair[1], path, e.conflict.1.uid);
            },
            None => {},
        }
        assert forall|i: int| 0 <= i < born.len() implies self.grown_ok(#[trigger] born[i]) by {}
    }

    /// The children by an honest exploration of nodes that hold a plan for each agent hold
    /// a plan for each agent.
    pub proof fn lemma_branch_all_ok(&self, nodes: Seq<NodeView>, e: ExplorationView, k: int)
        requires
            all_nodes(nodes, |n: NodeView| self.grown_ok(n)),
            self.honest(e),
            0 <= k <= nodes.len(),
        ensures
            all_nodes(spec_branch_all(nodes, e, k), |n: NodeView| self.grown_ok(n)),
        decreases k,
    {
        if k > 0 {
            self.lemma_branch_all_ok(nodes, e, k - 1);
            let before = spec_branch_all(nodes, e, k - 1);
            assert(self.grown_ok(nodes[k - 1]));
            self.lemma_branch_ok(nodes[k - 1], e);
            let born = spec_branch(nodes[k - 1], e);
            let now = spec_branch_all(nodes, e, k);
            assert forall|i: int| 0 <= i < now.len() implies self.grown_ok(#[trigger] now[i]) by {
                if i < before.len() {
                    assert(now[i] == before[i]);
                    assert(self.grown_ok(before[i]));
                } else {
                    assert(now[i] == born[i - before.len()]);
                    assert(self.grown_ok(born[i - before.len()]));
                }
            }
        }
    }

    /// The descendants of a node by honest explorations hold a plan for each agent.
    pub proof fn lemma_expand_ok(&self, node: NodeView, explorations: Seq<ExplorationView>, k: int)
        requires
            self.grown_ok(node),
            all_hold(explorations, |e: ExplorationView| self.honest(e)),
            0 <= k <= explorations.len(),
        ensures
            all_nodes(spec_expand(node, explorations, k), |n: NodeView| self.grown_ok(n)),
        decreases k,
    {
        if k > 0 {
            self.lemma_expand_ok(node, explorations, k - 1);
            let before = spec_expand(node, explorations, k - 1);
            assert(self.honest(explorations[k - 1]));
            self.lemma_branch_all_ok(before, explorations[k - 1], before.len() as int);
        }
    }

    /// A node that holds a plan for each agent, settled, is a node of the search.
    pub proof fn lemma_settle_ok(&self, node: NodeView)
        requires
            self.grown_ok(node),
        ensures
            self.node_ok(spec_settle(node)),
    {
        reveal(AStar::grown_ok);
        reveal(AStar::node_ok);
        self.lemma_extend_ok(node.solution);
    }

    /// The plans of a node of the search that has no conflicts serve every agent, end
    /// together, and do not collide.
    pub proof fn lemma_node_answer(&self, node: NodeView)
        requires
            self.node_ok(node),
            node.conflicts.len() == 0,
        ensures
            self.answer_ok(node.solution),
    {
        reveal(AStar::grown_ok);
        reveal(AStar::node_ok);
    }

    /// The children of a node of the search are nodes of the search.
    #[verifier::rlimit(40)]
    pub proof fn lemma_children_ok(&self, node: NodeView, batch: usize)
        requires
            self.node_ok(node),
        ensures
            all_nodes(spec_children(self, node, batch), |n: NodeView| self.node_ok(n)),
    {
        assert(self.grown_ok(node)) by {
            reveal(AStar::node_ok);
        }
        let list = spec_explore(self, node.constraints, node.conflicts);
        self.lemma_explore_honest(node.constraints, node.conflicts);
        lemma_greedy_hold(list, batch, |e: ExplorationView| self.honest(e));
        let taken = spec_greedy(list, batch);
        self.lemma_expand_ok(node, taken, taken.len() as int);
        let grown = spec_expand(node, taken, taken.len() as int);
        let children = spec_children(self, node, batch);
        assert forall|i: int| 0 <= i < children.len() implies self.node_ok(
            #[trigger] children[i],
        ) by {
            assert(self.grown_ok(grown[i]));
            self.lemma_settle_ok(grown[i]);
        }
    }

    /// What the search from nodes of the search returns serves every agent, ends together,
    /// and does not collide.
    #[verifier::rlimit(40)]
    pub proof fn lemma_solve_from_ok(&self, open: Seq<NodeView>, batch: usize, fuel: nat)
        requires
            all_nodes(open, |n: NodeView| self.node_ok(n)),
        ensures
            spec_solve_from(self, open, batch, fuel) matches Ok(paths) ==> self.answer_ok(paths),
        decreases fuel,
    {
        if open.len() > 0 && fuel > 0 {
            let best = spec_best_node(open);
            lemma_best_node_in_range(open);
            let node = open[best];
            assert(self.node_ok(node));
            if node.conflicts.len() == 0 {
                self.lemma_node_answer(node);
            } else {
                self.lemma_children_ok(node, batch);
                let children = spec_children(self, node, batch);
                let rest = open.remove(best);
                let next = rest + children;
                assert forall|i: int| 0 <= i < next.len() implies self.node_ok(
                    #[trigger] next[i],
                ) by {
                    if i < rest.len() {
                        if i < best {
                            assert(next[i] == open[i]);
                        } else {
                            assert(next[i] == open[i + 1]);
                        }
                    } else {
                        assert(next[i] == children[i - rest.len()]);
                        assert(self.node_ok(children[i - rest.len()]));
                    }
                }
                self.lemma_solve_from_ok(next, batch, (fuel - 1) as nat);
            }
        }
    }

    /// The plans of the agents, each planned alone, are plans of the agents in their order.
    pub proof fn lemma_plans_ok(&self, constraints: Seq<Constraint>, k: int)
        requires
            0 <= k <= self.origins@.len(),
        ensures
            spec_plans(self, constraints, k) matches Ok(plans) ==> plans.len() == k && forall|
                i: int,
            |
                0 <= i < k ==> self.plan_of(self.origins@[i], #[trigger] plans[i]),
        decreases k,
    {
        if k > 0 {
            self.lemma_plans_ok(constraints, k - 1);
            self.lemma_astar_plan(self.origins@[k - 1], constraints);
        }
    }

    /// The node without constraints is a node of the search.
    pub proof fn lemma_root_ok(&self)
        ensures
            spec_root(self) matches Ok(root) ==> self.node_ok(root),
    {
        reveal(AStar::grown_ok);
        reveal(AStar::node_ok);
        self.lemma_plans_ok(Seq::empty(), self.origins@.len() as int);
        match spec_plans(self, Seq::empty(), self.origins@.len() as int) {
            Ok(plans) => {
                self.lemma_extend_ok(plans);
            },
            Err(_) => {},
        }
    }

    /// The plans that the search returns serve every agent in the order of the origins:
    /// the plan of each begins at the footprint of its origin at tick 0, moves from
    /// footprint to neighbour, and ends at a destination; all plans end at the same tick;
    /// and no collision is found between them.
    pub proof fn lemma_solve_ok(&self, batch: usize, limit: nat)
        ensures
            spec_solve(self, batch, limit) matches Ok(paths) ==> self.answer_ok(paths),
    {
        self.lemma_root_ok();
        match spec_root(self) {
            Ok(root) => {
                let open = seq![root];
                assert(all_nodes(open, |n: NodeView| self.node_ok(n)));
                self.lemma_solve_from_ok(open, batch, limit);
            },
            Err(_) => {},
        }
    }
}

/// No plan ends after the latest of the last ticks.
pub proof fn lemma_makespan_bounds(paths: Seq<Seq<ScoredCell>>, i: int)
    requires
        0 <= i < paths.len(),
    ensures
        finish(paths[i]) <= spec_makespan(paths),
    decreases paths.len(),
{
    if i < paths.len() - 1 {
        lemma_makespan_bounds(paths.drop_last(), i);
    }
}

/// Where all plans end at one tick, that tick is the latest of the last ticks.
pub proof fn lemma_level_makespan(paths: Seq<Seq<ScoredCell>>, end: usize)
    requires
        level(paths, end),
        paths.len() >= 1,
    ensures
        spec_makespan(paths) == end,
    decreases paths.len(),
{
    let before = paths.drop_last();
    assert(finish(paths[paths.len() - 1]) == end);
    if before.len() >= 1 {
        assert forall|i: int| 0 <= i < before.len() implies finish(#[trigger] before[i])
            == end by {
            assert(before[i] == paths[i]);
        }
        lemma_level_makespan(before, end);
    }
}

/// The plan that gives way begins where the new plan does.
pub proof fn lemma_target(solution: Seq<Seq<ScoredCell>>, path: Seq<ScoredCell>)
    ensures
        0 <= spec_target(solution, path) <= solution.len(),
        spec_target(solution, path) < solution.len() ==> same_start(
            solution[spec_target(solution, path)],
            path,
        ),
    decreases solution.len(),
{
    if solution.len() > 0 {
        lemma_target(solution.drop_last(), path);
    }
}

/// The node that is expanded next is a node of the list.
pub proof fn lemma_best_node_in_range(open: Seq<NodeView>)
    requires
        open.len() > 0,
    ensures
        0 <= spec_best_node(open) < open.len(),
    decreases open.len(),
{
    if open.len() > 1 {
        lemma_best_node_in_range(open.drop_last());
    }
}

} // verus!
