//! The search over sets of constraints for plans of all agents that do not collide.
use crate::astar::AStar;
use crate::conflicts::{
    clone_path, clone_paths, detect_conflicts, extend_all, makespan, spec_conflicts, spec_extend,
    spec_makespan, views,
};
use crate::explore::{
    explorations_view, greedy_choices, spec_greedy, Exploration, ExplorationView,
};
use crate::geometry::{Pair, Rank};
use crate::model::{Conflict, Constraint, Path, ScoredCell};
use vstd::prelude::*;

verus! {

/// Why no plans were found.
#[derive(Clone, Copy, Debug, PartialEq, Eq, Structural)]
pub enum SolveError {
    /// The agent that starts at this cell has no plan even when alone.
    NoPath(Pair),
    /// No node is left to expand: the agents cannot all be served.
    Infeasible,
    /// The allowed number of expansions was used up.
    LimitReached,
}

/// A node of the search: constraints, a plan for each agent under them, the common last
/// tick of the plans, and the collisions between them.
pub struct CBS<'a> {
    pub astar: &'a AStar,
    pub constraints: Vec<Constraint>,
    pub solution: Vec<Path>,
    pub cost: usize,
    pub conflicts: Vec<Conflict>,
}

/// What a node holds, as values.
pub struct NodeView {
    pub constraints: Seq<Constraint>,
    pub solution: Seq<Seq<ScoredCell>>,
    pub cost: usize,
    pub conflicts: Seq<Conflict>,
}

impl<'a> View for CBS<'a> {
    type V = NodeView;

    open spec fn view(&self) -> NodeView {
        NodeView {
            constraints: self.constraints@,
            solution: views(self.solution@),
            cost: self.cost,
            conflicts: self.conflicts@,
        }
    }
}

/// The nodes as values.
pub open spec fn node_views(nodes: Seq<CBS>) -> Seq<NodeView> {
    Seq::new(nodes.len(), |i: int| nodes[i]@)
}

/// Every plan has a stay.
pub open spec fn stocked(paths: Seq<Seq<ScoredCell>>) -> bool {
    forall|i: int| 0 <= i < paths.len() ==> (#[trigger] paths[i]).len() >= 1
}

/// The plans of the first `k` agents, each planned alone under the constraints, or the
/// first of them that has no plan.
pub open spec fn spec_plans(solver: &AStar, constraints: Seq<Constraint>, k: int) -> Result<
    Seq<Seq<ScoredCell>>,
    SolveError,
>
    decreases k,
{
    if k <= 0 {
        Ok(Seq::empty())
    } else {
        match spec_plans(solver, constraints, k - 1) {
            Err(reason) => Err(reason),
            Ok(plans) => match solver.spec_astar(solver.origins@[k - 1], constraints) {
                Some(path) => Ok(plans.push(path)),
                None => Err(SolveError::NoPath(solver.origins@[k - 1])),
            },
        }
    }
}

/// The collisions of the plans up to tick `cost`; none where a plan has no stay.
pub open spec fn spec_find_conflicts(paths: Seq<Seq<ScoredCell>>, cost: usize) -> Seq<Conflict> {
    if stocked(paths) {
        spec_conflicts(paths, cost as nat)
    } else {
        Seq::empty()
    }
}

/// The node without constraints: every agent planned alone, the plans made to end
/// together, and their collisions.
pub open spec fn spec_root(solver: &AStar) -> Result<NodeView, SolveError> {
    match spec_plans(solver, Seq::empty(), solver.origins@.len() as int) {
        Err(reason) => Err(reason),
        Ok(plans) => {
            let solution = spec_extend(plans, spec_makespan(plans));
            let cost = spec_makespan(solution);
            Ok(
                NodeView {
                    constraints: Seq::empty(),
                    solution,
                    cost,
                    conflicts: spec_find_conflicts(solution, cost),
                },
            )
        },
    }
}

/// The conflict with the new plans of its two agents, each under the constraints of the
/// node and the one that keeps it out of the way of the other.
pub open spec fn spec_explore_conflict(
    solver: &AStar,
    constraints: Seq<Constraint>,
    conflict: Conflict,
) -> ExplorationView {
    let pair = conflict.spec_constraints();
    ExplorationView {
        conflict,
        first: solver.spec_astar(pair[0].uid, constraints.push(pair[0])),
        second: solver.spec_astar(pair[1].uid, constraints.push(pair[1])),
    }
}

/// An exploration for each conflict of the node.
pub open spec fn spec_explore(
    solver: &AStar,
    constraints: Seq<Constraint>,
    conflicts: Seq<Conflict>,
) -> Seq<ExplorationView> {
    Seq::new(conflicts.len(), |i: int| spec_explore_conflict(solver, constraints, conflicts[i]))
}

/// The two plans begin at the same footprint.
pub open spec fn same_start(a: Seq<ScoredCell>, b: Seq<ScoredCell>) -> bool {
    a.len() > 0 && b.len() > 0 && a[0].location == b[0].location
}

/// The index of the first plan that begins where `path` does; the number of plans if none
/// does.
pub open spec fn spec_target(solution: Seq<Seq<ScoredCell>>, path: Seq<ScoredCell>) -> int
    decreases solution.len(),
{
    if solution.len() == 0 {
        0
    } else {
        let before = spec_target(solution.drop_last(), path);
        if before < solution.len() - 1 || same_start(solution.last(), path) {
            before
        } else {
            solution.len() as int
        }
    }
}

/// The plans with `path` in place of the first that begins where it does.
pub open spec fn spec_change_path(
    solution: Seq<Seq<ScoredCell>>,
    path: Seq<ScoredCell>,
) -> Seq<Seq<ScoredCell>> {
    let target = spec_target(solution, path);
    if target < solution.len() {
        solution.update(target, path)
    } else {
        solution
    }
}

/// The node with one constraint more and the new plan of the agent it names, the plans made
/// to end together again.
pub open spec fn spec_update(node: NodeView, constraint: Constraint, path: Seq<ScoredCell>) -> NodeView {
    let changed = spec_change_path(node.solution, path);
    let solution = spec_extend(changed, spec_makespan(changed));
    NodeView {
        constraints: node.constraints.push(constraint),
        solution,
        cost: spec_makespan(solution),
        conflicts: node.conflicts,
    }
}

/// The children of the node by one exploration: one for each agent that has a new plan.
pub open spec fn spec_branch(node: NodeView, e: ExplorationView) -> Seq<NodeView> {
    let pair = e.conflict.spec_constraints();
    let by_first = match e.first {
        Some(path) => seq![spec_update(node, pair[0], path)],
        None => Seq::empty(),
    };
    match e.second {
        Some(path) => by_first.push(spec_update(node, pair[1], path)),
        None => by_first,
    }
}

/// The children by one exploration of the first `k` nodes.
pub open spec fn spec_branch_all(nodes: Seq<NodeView>, e: ExplorationView, k: int) -> Seq<NodeView>
    decreases k,
{
    if k <= 0 {
        Seq::empty()
    } else {
        spec_branch_all(nodes, e, k - 1) + spec_branch(nodes[k - 1], e)
    }
}

/// The descendants of the node by the first `k` explorations, each applied to all
/// descendants by those before it.
pub open spec fn spec_expand(node: NodeView, explorations: Seq<ExplorationView>, k: int) -> Seq<
    NodeView,
>
    decreases k,
{
    if k <= 0 {
        seq![node]
    } else {
        let before = spec_expand(node, explorations, k - 1);
        spec_branch_all(before, explorations[k - 1], before.len() as int)
    }
}

/// The node with its plans made to end together and its collisions found anew.
pub open spec fn spec_settle(node: NodeView) -> NodeView {
    let solution = spec_extend(node.solution, spec_makespan(node.solution));
    NodeView {
        constraints: node.constraints,
        solution,
        cost: node.cost,
        conflicts: spec_find_conflicts(solution, node.cost),
    }
}

/// The children of a node: its descendants by the explorations that are taken together.
pub open spec fn spec_children(solver: &AStar, node: NodeView, batch: usize) -> Seq<NodeView> {
    let taken = spec_greedy(spec_explore(solver, node.constraints, node.conflicts), batch);
    let grown = spec_expand(node, taken, taken.len() as int);
    Seq::new(grown.len(), |i: int| spec_settle(grown[i]))
}

/// The order of plans: stay by stay in the order of stays, a plan being less than every
/// plan that it begins.
pub open spec fn spec_compare_paths(a: Seq<ScoredCell>, b: Seq<ScoredCell>) -> Rank
    decreases a.len(),
{
    if a.len() == 0 {
        if b.len() == 0 {
            Rank::Equal
        } else {
            Rank::Less
        }
    } else if b.len() == 0 {
        Rank::Greater
    } else {
        a[0].spec_compare(b[0]).spec_refine(spec_compare_paths(a.skip(1), b.skip(1)))
    }
}

/// The order of sets of plans: plan by plan in the order of plans.
pub open spec fn spec_compare_solutions(a: Seq<Seq<ScoredCell>>, b: Seq<Seq<ScoredCell>>) -> Rank
    decreases a.len(),
{
    if a.len() == 0 {
        if b.len() == 0 {
            Rank::Equal
        } else {
            Rank::Less
        }
    } else if b.len() == 0 {
        Rank::Greater
    } else {
        spec_compare_paths(a[0], b[0]).spec_refine(spec_compare_solutions(a.skip(1), b.skip(1)))
    }
}

/// The order of nodes, in which the greatest is expanded first: a lower cost is greater;
/// then fewer conflicts; then fewer constraints; then the lesser set of plans.
pub open spec fn spec_compare_nodes(a: NodeView, b: NodeView) -> Rank {
    Rank::of(b.cost as int, a.cost as int).spec_refine(
        Rank::of(b.conflicts.len() as int, a.conflicts.len() as int),
    ).spec_refine(Rank::of(b.constraints.len() as int, a.constraints.len() as int)).spec_refine(
        spec_compare_solutions(b.solution, a.solution),
    )
}

/// The node that is expanded next: the greatest, the first of them if several are equal in
/// the order.
pub open spec fn spec_best_node(open: Seq<NodeView>) -> int
    decreases open.len(),
{
    if open.len() <= 1 {
        0
    } else {
        let best = spec_best_node(open.drop_last());
        if spec_compare_nodes(open.last(), open[best]) == Rank::Greater {
            open.len() - 1
        } else {
            best
        }
    }
}

/// The search from a list of nodes with at most `fuel` expansions: the plans of the node
/// that is next when it has no conflicts; its children take its place when it has.
pub open spec fn spec_solve_from(solver: &AStar, open: Seq<NodeView>, batch: usize, fuel: nat) -> Result<
    Seq<Seq<ScoredCell>>,
    SolveError,
>
    decreases fuel,
{
    if open.len() == 0 {
        Err(SolveError::Infeasible)
    } else if fuel == 0 {
        Err(SolveError::LimitReached)
    } else {
        let best = spec_best_node(open);
        let node = open[best];
        if node.conflicts.len() == 0 {
            Ok(node.solution)
        } else {
            spec_solve_from(
                solver,
                open.remove(best) + spec_children(solver, node, batch),
                batch,
                (fuel - 1) as nat,
            )
        }
    }
}

/// The plans that the search finds with explorations taken together `batch` at a time and
/// at most `limit` expansions, or why it finds none.
pub open spec fn spec_solve(solver: &AStar, batch: usize, limit: nat) -> Result<
    Seq<Seq<ScoredCell>>,
    SolveError,
> {
    match spec_root(solver) {
        Err(reason) => Err(reason),
        Ok(root) => spec_solve_from(solver, seq![root], batch, limit),
    }
}

/// A copy of the constraints.
pub fn clone_constraints(constraints: &Vec<Constraint>) -> (out: Vec<Constraint>)
    ensures
        out@ == constraints@,
{
    let mut out: Vec<Constraint> = Vec::new();
    let mut i: usize = 0;
    while i < constraints.len()
        invariant
            0 <= i <= constraints.len(),
            out@ == constraints@.take(i as int),
        decreases constraints.len() - i,
    {
        out.push(constraints[i]);
        proof {
            assert(out@ =~= constraints@.take(i + 1));
        }
        i += 1;
    }
    proof {
        assert(constraints@.take(constraints@.len() as int) =~= constraints@);
    }
    out
}

/// A copy of the conflicts.
pub fn clone_conflicts(conflicts: &Vec<Conflict>) -> (out: Vec<Conflict>)
    ensures
        out@ == conflicts@,
{
    let mut out: Vec<Conflict> = Vec::new();
    let mut i: usize = 0;
    while i < conflicts.len()
        invariant
            0 <= i <= conflicts.len(),
            out@ == conflicts@.take(i as int),
        decreases conflicts.len() - i,
    {
        out.push(conflicts[i]);
        proof {
            assert(out@ =~= conflicts@.take(i + 1));
        }
        i += 1;
    }
    proof {
        assert(conflicts@.take(conflicts@.len() as int) =~= conflicts@);
    }
    out
}

/// Whether every plan has a stay.
pub fn all_stocked(paths: &Vec<Path>) -> (out: bool)
    ensures
        out == stocked(views(paths@)),
{
    let mut i: usize = 0;
    while i < paths.len()
        invariant
            0 <= i <= paths.len(),
            forall|j: int| 0 <= j < i ==> (#[trigger] views(paths@)[j]).len() >= 1,
        decreases paths.len() - i,
    {
        if paths[i].len() == 0 {
            proof {
                assert(views(paths@)[i as int].len() == 0);
            }
            return false;
        }
        i += 1;
    }
    true
}

/// Where the two plans stand in the order of plans.
pub fn compare_paths(a: &Path, b: &Path) -> (out: Rank)
    ensures
        out == spec_compare_paths(a@, b@),
{
    let mut i: usize = 0;
    proof {
        assert(a@.skip(0) =~= a@);
        assert(b@.skip(0) =~= b@);
    }
    loop
        invariant
            0 <= i <= a.len(),
            i <= b.len(),
            spec_compare_paths(a@, b@) == spec_compare_paths(a@.skip(i as int), b@.skip(i as int)),
        decreases a.len() - i,
    {
        if i == a.len() {
            if i == b.len() {
                return Rank::Equal;
            } else {
                return Rank::Less;
            }
        }
        if i == b.len() {
            return Rank::Greater;
        }
        let here = a[i].compare(&b[i]);
        proof {
            assert(a@.skip(i as int)[0] == a@[i as int]);
            assert(b@.skip(i as int)[0] == b@[i as int]);
            assert(a@.skip(i as int).skip(1) =~= a@.skip(i + 1));
            assert(b@.skip(i as int).skip(1) =~= b@.skip(i + 1));
        }
        match here {
            Rank::Equal => {},
            Rank::Less => {
                return Rank::Less;
            },
            Rank::Greater => {
                return Rank::Greater;
            },
        }
        i += 1;
    }
}

/// Where the two sets of plans stand in the order of sets of plans.
pub fn compare_solutions(a: &Vec<Path>, b: &Vec<Path>) -> (out: Rank)
    ensures
        out == spec_compare_solutions(views(a@), views(b@)),
{
    let mut i: usize = 0;
    proof {
        assert(views(a@).skip(0) =~= views(a@));
        assert(views(b@).skip(0) =~= views(b@));
    }
    loop
        invariant
            0 <= i <= a.len(),
            i <= b.len(),
            spec_compare_solutions(views(a@), views(b@)) == spec_compare_solutions(
                views(a@).skip(i as int),
                views(b@).skip(i as int),
            ),
        decreases a.len() - i,
    {
        if i == a.len() {
            if i == b.len() {
                return Rank::Equal;
            } else {
                return Rank::Less;
            }
        }
        if i == b.len() {
            return Rank::Greater;
        }
        let here = compare_paths(&a[i], &b[i]);
        proof {
            assert(views(a@).skip(i as int)[0] == a@[i as int]@);
            assert(views(b@).skip(i as int)[0] == b@[i as int]@);
            assert(views(a@).skip(i as int).skip(1) =~= views(a@).skip(i + 1));
            assert(views(b@).skip(i as int).skip(1) =~= views(b@).skip(i + 1));
        }
        match here {
            Rank::Equal => {},
            Rank::Less => {
                return Rank::Less;
            },
            Rank::Greater => {
                return Rank::Greater;
            },
        }
        i += 1;
    }
}

impl<'a> CBS<'a> {
    /// A node without constraints and without plans.
    pub fn new(astar: &'a AStar) -> (out: CBS<'a>)
        ensures
            out.astar == astar,
            out@ == (NodeView {
                constraints: Seq::empty(),
                solution: Seq::empty(),
                cost: 0,
                conflicts: Seq::empty(),
            }),
    {
        let out = CBS {
            astar,
            constraints: Vec::new(),
            solution: Vec::new(),
            cost: 0,
            conflicts: Vec::new(),
        };
        proof {
            assert(views(out.solution@) =~= Seq::empty());
        }
        out
    }

    /// A copy of the node.
    pub fn duplicate(&self) -> (out: CBS<'a>)
        ensures
            out.astar == self.astar,
            out@ == self@,
    {
        CBS {
            astar: self.astar,
            constraints: clone_constraints(&self.constraints),
            solution: clone_paths(&self.solution),
            cost: self.cost,
            conflicts: clone_conflicts(&self.conflicts),
        }
    }

    /// Where the node stands against `other` in the order of nodes.
    pub fn compare(&self, other: &CBS<'a>) -> (out: Rank)
        ensures
            out == spec_compare_nodes(self@, other@),
    {
        Rank::of_usize(other.cost, self.cost).refine(
            Rank::of_usize(other.conflicts.len(), self.conflicts.len()),
        ).refine(Rank::of_usize(other.constraints.len(), self.constraints.len())).refine(
            compare_solutions(&other.solution, &self.solution),
        )
    }

    /// Plans every agent alone under the constraints of the node, and adds the plans to
    /// those of the node; stops at the first agent that has no plan.
    pub fn find_paths(&mut self) -> (out: Result<(), SolveError>)
        requires
            old(self).astar.wf(),
        ensures
            final(self).astar == old(self).astar,
            final(self).constraints == old(self).constraints,
            final(self).cost == old(self).cost,
            final(self).conflicts == old(self).conflicts,
            match spec_plans(
                old(self).astar,
                old(self).constraints@,
                old(self).astar.origins@.len() as int,
            ) {
                Ok(plans) => out is Ok && views(final(self).solution@) == views(
                    old(self).solution@,
                ) + plans,
                Err(reason) => out == Err::<(), SolveError>(reason),
            },
    {
        let count = self.astar.origins.len();
        let ghost start = views(self.solution@);
        let mut k: usize = 0;
        proof {
            assert(views(self.solution@) =~= start + Seq::empty());
        }
        while k < count
            invariant
                self.astar.wf(),
                self.astar == old(self).astar,
                self.constraints == old(self).constraints,
                self.cost == old(self).cost,
                self.conflicts == old(self).conflicts,
                count == self.astar.origins@.len(),
                0 <= k <= count,
                spec_plans(self.astar, self.constraints@, k as int) matches Ok(plans) && views(
                    self.solution@,
                ) == start + plans,
            decreases count - k,
        {
            let cell = self.astar.origins[k];
            let ghost before = views(self.solution@);
            match self.astar.astar(cell, self.constraints.as_slice()) {
                Some(path) => {
                    self.solution.push(path);
                    proof {
                        assert(views(self.solution@) =~= before.push(path@));
                        let plans = spec_plans(self.astar, self.constraints@, k as int)->Ok_0;
                        assert(start + plans.push(path@) =~= (start + plans).push(path@));
                    }
                },
                None => {
                    proof {
                        self.lemma_plans_fail(k as int + 1, count as int);
                    }
                    return Err(SolveError::NoPath(cell));
                },
            }
            k += 1;
        }
        Ok(())
    }

    /// Once an agent has no plan, the agents after it change nothing.
    pub proof fn lemma_plans_fail(&self, k: int, n: int)
        requires
            0 <= k <= n,
            spec_plans(self.astar, self.constraints@, k) is Err,
        ensures
            spec_plans(self.astar, self.constraints@, n) == spec_plans(
                self.astar,
                self.constraints@,
                k,
            ),
        decreases n - k,
    {
        if k < n {
            self.lemma_plans_fail(k, n - 1);
        }
    }

    /// Makes every plan last until the last tick of the longest.
    pub fn extend_paths(&mut self)
        ensures
            final(self).astar == old(self).astar,
            final(self).constraints == old(self).constraints,
            final(self).cost == old(self).cost,
            final(self).conflicts == old(self).conflicts,
            views(final(self).solution@) == spec_extend(
                views(old(self).solution@),
                spec_makespan(views(old(self).solution@)),
            ),
    {
        let end_time = makespan(&self.solution);
        self.solution = extend_all(&self.solution, end_time);
    }

    /// Sets the cost of the node to the last tick of its plans.
    pub fn find_cost(&mut self)
        ensures
            final(self).astar == old(self).astar,
            final(self).constraints == old(self).constraints,
            final(self).solution == old(self).solution,
            final(self).conflicts == old(self).conflicts,
            final(self).cost == spec_makespan(views(old(self).solution@)),
    {
        self.cost = makespan(&self.solution);
    }

    /// Adds the collisions of the plans up to the cost of the node to its conflicts.
    pub fn find_conflicts(&mut self)
        ensures
            final(self).astar == old(self).astar,
            final(self).constraints == old(self).constraints,
            final(self).solution == old(self).solution,
            final(self).cost == old(self).cost,
            final(self).conflicts@ == old(self).conflicts@ + spec_find_conflicts(
                views(old(self).solution@),
                old(self).cost,
            ),
    {
        if all_stocked(&self.solution) {
            proof {
                assert forall|i: int| 0 <= i < self.solution@.len() implies (
                #[trigger] self.solution@[i])@.len() >= 1 by {
                    assert(views(self.solution@)[i].len() >= 1);
                }
            }
            let mut found = detect_conflicts(&self.solution, self.cost);
            self.conflicts.append(&mut found);
        } else {
            proof {
                assert(self.conflicts@ =~= self.conflicts@ + Seq::<Conflict>::empty());
            }
        }
    }

    /// The node without constraints, or the first agent that has no plan.
    pub fn init(astar: &'a AStar) -> (out: Result<CBS<'a>, SolveError>)
        requires
            astar.wf(),
        ensures
            match out {
                Ok(node) => node.astar == astar && spec_root(astar) == Ok::<
                    NodeView,
                    SolveError,
                >(node@),
                Err(reason) => spec_root(astar) == Err::<NodeView, SolveError>(reason),
            },
    {
        let mut cbs = CBS::new(astar);
        match cbs.find_paths() {
            Err(reason) => {
                return Err(reason);
            },
            Ok(_) => {},
        }
        proof {
            let plans = spec_plans(astar, Seq::empty(), astar.origins@.len() as int)->Ok_0;
            assert(views(cbs.solution@) =~= plans);
        }
        cbs.extend_paths();
        cbs.find_cost();
        cbs.find_conflicts();
        proof {
            assert(cbs.conflicts@ =~= spec_find_conflicts(views(cbs.solution@), cbs.cost));
        }
        Ok(cbs)
    }

    /// The plan of the agent that the constraint names, under the constraints of the node
    /// and this one more.
    pub fn explore_constraint(&self, constraint: Constraint) -> (out: Option<Path>)
        requires
            self.astar.wf(),
        ensures
            crate::explore::plan_view(out) == self.astar.spec_astar(
                constraint.uid,
                self.constraints@.push(constraint),
            ),
    {
        let mut constraints = clone_constraints(&self.constraints);
        constraints.push(constraint);
        self.astar.astar(constraint.uid, constraints.as_slice())
    }

    /// The conflict with the new plans of its two agents.
    pub fn explore_conflict(&self, conflict: Conflict) -> (out: Exploration)
        requires
            self.astar.wf(),
        ensures
            out@ == spec_explore_conflict(self.astar, self.constraints@, conflict),
    {
        let constraints = conflict.constraints();
        let path_0 = self.explore_constraint(constraints[0]);
        let path_1 = self.explore_constraint(constraints[1]);
        Exploration { conflict, first: path_0, second: path_1 }
    }

    /// An exploration for each conflict of the node.
    pub fn explore(&self) -> (out: Vec<Exploration>)
        requires
            self.astar.wf(),
        ensures
            explorations_view(out@) == spec_explore(
                self.astar,
                self.constraints@,
                self.conflicts@,
            ),
    {
        let mut explorations: Vec<Exploration> = Vec::new();
        let mut i: usize = 0;
        while i < self.conflicts.len()
            invariant
                self.astar.wf(),
                0 <= i <= self.conflicts.len(),
                explorations@.len() == i,
                forall|j: int|
                    0 <= j < i ==> (#[trigger] explorations@[j])@ == spec_explore_conflict(
                        self.astar,
                        self.constraints@,
                        self.conflicts@[j],
                    ),
            decreases self.conflicts.len() - i,
        {
            let exploration = self.explore_conflict(self.conflicts[i]);
            explorations.push(exploration);
            i += 1;
        }
        proof {
            assert(explorations_view(explorations@) =~= spec_explore(
                self.astar,
                self.constraints@,
                self.conflicts@,
            ));
        }
        explorations
    }

    /// The index of the first plan that begins where `path` does; the number of plans if
    /// none does.
    pub fn target(&self, path: &Path) -> (out: usize)
        ensures
            out == spec_target(views(self.solution@), path@),
            out <= self.solution@.len(),
    {
        let mut i: usize = 0;
        proof {
            assert(views(self.solution@).take(0).len() == 0);
        }
        while i < self.solution.len()
            invariant
                0 <= i <= self.solution.len(),
                spec_target(views(self.solution@).take(i as int), path@) == i,
            decreases self.solution.len() - i,
        {
            proof {
                let all = views(self.solution@);
                assert(all.take(i + 1).drop_last() =~= all.take(i as int));
                assert(all.take(i + 1).last() == self.solution@[i as int]@);
            }
            let old_path = &self.solution[i];
            if path.len() > 0 && old_path.len() > 0 && path[0].location == old_path[0].location {
                proof {
                    let all = views(self.solution@);
                    assert(spec_target(all.take(i + 1), path@) == i);
                    lemma_target_found(all, path@, i as int, self.solution@.len() as int);
                    assert(all.take(self.solution@.len() as int) =~= all);
                }
                return i;
            }
            i += 1;
        }
        proof {
            assert(views(self.solution@).take(self.solution@.len() as int) =~= views(
                self.solution@,
            ));
        }
        i
    }

    /// Puts `path` in place of the first plan that begins where it does.
    pub fn change_path(&mut self, path: Path)
        ensures
            final(self).astar == old(self).astar,
            final(self).constraints == old(self).constraints,
            final(self).cost == old(self).cost,
            final(self).conflicts == old(self).conflicts,
            views(final(self).solution@) == spec_change_path(views(old(self).solution@), path@),
    {
        let idx = self.target(&path);
        if idx < self.solution.len() {
            self.solution.set(idx, path);
            proof {
                assert(views(self.solution@) =~= views(old(self).solution@).update(
                    idx as int,
                    path@,
                ));
            }
        }
    }
}

/// A plan that begins where `path` does among the first plans is the first such among all.
pub proof fn lemma_target_found(
    solution: Seq<Seq<ScoredCell>>,
    path: Seq<ScoredCell>,
    i: int,
    n: int,
)
    requires
        0 <= i < n <= solution.len(),
        spec_target(solution.take(i + 1), path) == i,
    ensures
        spec_target(solution.take(n), path) == i,
    decreases n,
{
    if n > i + 1 {
        lemma_target_found(solution, path, i, n - 1);
        assert(solution.take(n).drop_last() =~= solution.take(n - 1));
    }
}

/// The node with one constraint more and the new plan of the agent it names.
pub fn update_cbs<'a>(cbs: CBS<'a>, constrait: Constraint, path: Path) -> (out: CBS<'a>)
    ensures
        out.astar == cbs.astar,
        out@ == spec_update(cbs@, constrait, path@),
{
    let mut cbs = cbs;
    cbs.constraints.push(constrait);
    cbs.change_path(path);
    cbs.extend_paths();
    cbs.find_cost();
    cbs
}

/// The children of the node by one exploration.
pub fn expand_exploration<'a>(cbs: &CBS<'a>, exploration: &Exploration) -> (out: Vec<CBS<'a>>)
    ensures
        node_views(out@) == spec_branch(cbs@, exploration@),
        forall|i: int| 0 <= i < out@.len() ==> (#[trigger] out@[i]).astar == cbs.astar,
{
    let constraints = exploration.conflict.constraints();
    let mut out: Vec<CBS<'a>> = Vec::new();
    match &exploration.first {
        Some(path) => {
            let new = update_cbs(cbs.duplicate(), constraints[0], clone_path(path));
            out.push(new);
        },
        None => {},
    }
    match &exploration.second {
        Some(path) => {
            let new = update_cbs(cbs.duplicate(), constraints[1], clone_path(path));
            out.push(new);
        },
        None => {},
    }
    proof {
        assert(node_views(out@) =~= spec_branch(cbs@, exploration@));
    }
    out
}

/// The node that `settle` makes of a node.
pub fn settle<'a>(node: CBS<'a>) -> (out: CBS<'a>)
    ensures
        out.astar == node.astar,
        out@ == spec_settle(node@),
{
    let mut node = node;
    node.extend_paths();
    node.conflicts = Vec::new();
    node.find_conflicts();
    proof {
        assert(node.conflicts@ =~= spec_find_conflicts(views(node.solution@), node.cost));
    }
    node
}

/// The descendants of the node by the explorations, each applied to all descendants by
/// those before it, with their plans made to end together and their collisions found.
#[verifier::rlimit(40)]
pub fn expand_explorations<'a>(cbs: CBS<'a>, explorations: Vec<Exploration>) -> (out: Vec<CBS<'a>>)
    ensures
        node_views(out@) == Seq::new(
            spec_expand(cbs@, explorations_view(explorations@), explorations@.len() as int).len(),
            |i: int|
                spec_settle(
                    spec_expand(
                        cbs@,
                        explorations_view(explorations@),
                        explorations@.len() as int,
                    )[i],
                ),
        ),
        forall|i: int| 0 <= i < out@.len() ==> (#[trigger] out@[i]).astar == cbs.astar,
{
    let ghost root = cbs@;
    let ghost solver = cbs.astar;
    let ghost list = explorations_view(explorations@);
    let mut grown: Vec<CBS<'a>> = Vec::new();
    grown.push(cbs);
    proof {
        assert(node_views(grown@) =~= spec_expand(root, list, 0));
    }
    let mut k: usize = 0;
    while k < explorations.len()
        invariant
            0 <= k <= explorations.len(),
            list == explorations_view(explorations@),
            node_views(grown@) == spec_expand(root, list, k as int),
            forall|i: int| 0 <= i < grown@.len() ==> (#[trigger] grown@[i]).astar == solver,
        decreases explorations.len() - k,
    {
        let exploration = &explorations[k];
        proof {
            assert(list[k as int] == exploration@);
        }
        let ghost before = node_views(grown@);
        let mut next: Vec<CBS<'a>> = Vec::new();
        let mut i: usize = 0;
        proof {
            assert(node_views(next@) =~= spec_branch_all(before, exploration@, 0));
        }
        while i < grown.len()
            invariant
                0 <= i <= grown.len(),
                before == node_views(grown@),
                node_views(next@) == spec_branch_all(before, exploration@, i as int),
                forall|j: int| 0 <= j < grown@.len() ==> (#[trigger] grown@[j]).astar == solver,
                forall|j: int| 0 <= j < next@.len() ==> (#[trigger] next@[j]).astar == solver,
            decreases grown.len() - i,
        {
            let ghost so_far = node_views(next@);
            let mut children = expand_exploration(&grown[i], exploration);
            let ghost added = node_views(children@);
            proof {
                assert(before[i as int] == grown@[i as int]@);
            }
            next.append(&mut children);
            proof {
                assert(node_views(next@) =~= so_far + added);
            }
            i += 1;
        }
        grown = next;
        k += 1;
    }
    let ghost all = node_views(grown@);
    let mut out: Vec<CBS<'a>> = Vec::new();
    let mut i: usize = 0;
    while i < grown.len()
        invariant
            0 <= i <= grown.len(),
            all == node_views(grown@),
            out@.len() == i,
            forall|j: int| 0 <= j < grown@.len() ==> (#[trigger] grown@[j]).astar == solver,
            forall|j: int| 0 <= j < i ==> (#[trigger] out@[j])@ == spec_settle(all[j]),
            forall|j: int| 0 <= j < i ==> (#[trigger] out@[j]).astar == solver,
        decreases grown.len() - i,
    {
        proof {
            assert(all[i as int] == grown@[i as int]@);
        }
        out.push(settle(grown[i].duplicate()));
        i += 1;
    }
    proof {
        assert(node_views(out@) =~= Seq::new(all.len(), |i: int| spec_settle(all[i])));
    }
    out
}

/// The children of a node: its descendants by the explorations that are taken together,
/// at most `batch` of them.
pub fn expand_node<'a>(cbs: CBS<'a>, batch: usize) -> (out: Vec<CBS<'a>>)
    requires
        cbs.astar.wf(),
    ensures
        node_views(out@) == spec_children(cbs.astar, cbs@, batch),
        forall|i: int| 0 <= i < out@.len() ==> (#[trigger] out@[i]).astar == cbs.astar,
{
    let explorations = cbs.explore();
    let taken = greedy_choices(explorations, batch);
    expand_explorations(cbs, taken)
}

/// The index of the node that is expanded next: the greatest of the list, and the first of
/// those that are equal to it in the order.
pub fn best_node<'a>(open: &Vec<CBS<'a>>) -> (out: usize)
    requires
        open.len() > 0,
    ensures
        out == spec_best_node(node_views(open@)),
        out < open.len(),
        forall|j: int|
            0 <= j < open@.len() ==> spec_compare_nodes(
                node_views(open@)[out as int],
                #[trigger] node_views(open@)[j],
            ) != Rank::Less,
        forall|j: int|
            0 <= j < out ==> spec_compare_nodes(
                node_views(open@)[out as int],
                #[trigger] node_views(open@)[j],
            ) == Rank::Greater,
{
    proof {
        let all = node_views(open@);
        assert forall|j: int| 0 <= j < all.len() implies spec_compare_nodes(
            all[spec_best_node(all)],
            #[trigger] all[j],
        ) != Rank::Less && (j < spec_best_node(all) ==> spec_compare_nodes(
            all[spec_best_node(all)],
            all[j],
        ) == Rank::Greater) by {
            crate::node_order::lemma_best_node_greatest(all, j);
        }
    }
    let mut best: usize = 0;
    let mut i: usize = 1;
    proof {
        assert(spec_best_node(node_views(open@).take(1)) == 0);
    }
    while i < open.len()
        invariant
            1 <= i <= open.len(),
            best < i,
            best == spec_best_node(node_views(open@).take(i as int)),
        decreases open.len() - i,
    {
        proof {
            let all = node_views(open@);
            assert(all.take(i + 1).drop_last() =~= all.take(i as int));
            assert(all.take(i + 1).last() == open@[i as int]@);
            assert(all.take(i + 1)[best as int] == open@[best as int]@);
        }
        if open[i].compare(&open[best]) == Rank::Greater {
            best = i;
        }
        i += 1;
    }
    proof {
        assert(node_views(open@).take(open@.len() as int) =~= node_views(open@));
    }
    best
}

/// Searches from one node with at most `limit` expansions, taking explorations together
/// `batch` at a time.
#[verifier::rlimit(40)]
pub fn greedy_with_heuristic<'a>(cbs: CBS<'a>, batch: usize, limit: usize) -> (out: Result<
    Vec<Path>,
    SolveError,
>)
    requires
        cbs.astar.wf(),
    ensures
        match out {
            Ok(paths) => spec_solve_from(cbs.astar, seq![cbs@], batch, limit as nat) == Ok::<
                Seq<Seq<ScoredCell>>,
                SolveError,
            >(views(paths@)),
            Err(reason) => spec_solve_from(cbs.astar, seq![cbs@], batch, limit as nat) == Err::<
                Seq<Seq<ScoredCell>>,
                SolveError,
            >(reason),
        },
{
    let solver = cbs.astar;
    let ghost root = cbs@;
    let ghost answer = spec_solve_from(solver, seq![root], batch, limit as nat);
    let mut open: Vec<CBS<'a>> = Vec::new();
    open.push(cbs);
    let mut fuel: usize = limit;
    proof {
        assert(node_views(open@) =~= seq![root]);
    }
    loop
        invariant
            solver.wf(),
            solver == cbs.astar,
            root == cbs@,
            answer == spec_solve_from(solver, seq![root], batch, limit as nat),
            forall|i: int| 0 <= i < open@.len() ==> (#[trigger] open@[i]).astar == solver,
            spec_solve_from(solver, node_views(open@), batch, fuel as nat) == answer,
        decreases fuel,
    {
        if open.len() == 0 {
            return Err(SolveError::Infeasible);
        }
        if fuel == 0 {
            return Err(SolveError::LimitReached);
        }
        fuel = fuel - 1;
        let best = best_node(&open);
        let ghost before = node_views(open@);
        let node = open.remove(best);
        proof {
            assert(before[best as int] == node@);
            assert(node_views(open@) =~= before.remove(best as int));
        }
        if node.conflicts.len() == 0 {
            return Ok(node.solution);
        }
        let ghost rest = node_views(open@);
        let mut children = expand_node(node, batch);
        let ghost added = node_views(children@);
        open.append(&mut children);
        proof {
            assert(node_views(open@) =~= rest + added);
        }
    }
}

/// Plans for all agents that do not collide, found with at most `limit` expansions, taking
/// explorations together `batch` at a time; or why none were found.
pub fn solve_mapf_with(mapf: &AStar, batch: usize, limit: usize) -> (out: Result<
    Vec<Path>,
    SolveError,
>)
    requires
        mapf.wf(),
    ensures
        match out {
            Ok(paths) => spec_solve(mapf, batch, limit as nat) == Ok::<
                Seq<Seq<ScoredCell>>,
                SolveError,
            >(views(paths@)) && mapf.answer_ok(views(paths@)),
            Err(reason) => spec_solve(mapf, batch, limit as nat) == Err::<
                Seq<Seq<ScoredCell>>,
                SolveError,
            >(reason),
        },
{
    proof {
        mapf.lemma_solve_ok(batch, limit as nat);
    }
    match CBS::init(mapf) {
        Err(reason) => Err(reason),
        Ok(cbs) => greedy_with_heuristic(cbs, batch, limit),
    }
}

/// Plans for all agents that do not collide, one for each origin in their order; or why
/// none were found.
pub fn solve_mapf(mapf: &AStar) -> (out: Result<Vec<Path>, SolveError>)
    requires
        mapf.wf(),
    ensures
        match out {
            Ok(paths) => spec_solve(mapf, usize::MAX, usize::MAX as nat) == Ok::<
                Seq<Seq<ScoredCell>>,
                SolveError,
            >(views(paths@)) && mapf.answer_ok(views(paths@)),
            Err(reason) => spec_solve(mapf, usize::MAX, usize::MAX as nat) == Err::<
                Seq<Seq<ScoredCell>>,
                SolveError,
            >(reason),
        },
{
    solve_mapf_with(mapf, usize::MAX, usize::MAX)
}

} // verus!
