//! The orders of plans, of sets of plans and of nodes go through, and the node expanded next
//! is the greatest.
use crate::cbs::{
    spec_best_node, spec_compare_nodes, spec_compare_paths, spec_compare_solutions, NodeView,
};
use crate::geometry::Rank;
use crate::model::ScoredCell;
use crate::order::{lemma_compare_equal, lemma_compare_flip, lemma_compare_transitive};
use crate::solution::lemma_best_node_in_range;
use vstd::prelude::*;

verus! {

/// The order of plans turns round with its arguments.
pub proof fn lemma_paths_flip(a: Seq<ScoredCell>, b: Seq<ScoredCell>)
    ensures
        spec_compare_paths(a, b) == spec_compare_paths(b, a).spec_flip(),
    decreases a.len(),
{
    if a.len() > 0 && b.len() > 0 {
        lemma_compare_flip(a[0], b[0]);
        lemma_paths_flip(a.skip(1), b.skip(1));
    }
}

/// The order of plans holds two plans equal only if they are the same.
pub proof fn lemma_paths_equal(a: Seq<ScoredCell>, b: Seq<ScoredCell>)
    ensures
        spec_compare_paths(a, b) == Rank::Equal <==> a == b,
    decreases a.len(),
{
    if a.len() > 0 && b.len() > 0 {
        lemma_compare_equal(a[0], b[0]);
        lemma_paths_equal(a.skip(1), b.skip(1));
        if spec_compare_paths(a, b) == Rank::Equal {
            assert(a =~= seq![a[0]] + a.skip(1));
            assert(b =~= seq![b[0]] + b.skip(1));
        }
        if a == b {
            assert(a.skip(1) == b.skip(1));
        }
    } else if a.len() == 0 && b.len() == 0 {
        assert(a =~= b);
    }
}

/// The order of plans goes through: a plan that is not below a plan that is not below a
/// third is not below the third, and is above it if one of the two steps is strict.
pub proof fn lemma_paths_transitive(a: Seq<ScoredCell>, b: Seq<ScoredCell>, c: Seq<ScoredCell>)
    ensures
        spec_compare_paths(a, b) != Rank::Less && spec_compare_paths(b, c) != Rank::Less
            ==> spec_compare_paths(a, c) != Rank::Less,
        spec_compare_paths(a, b) == Rank::Greater && spec_compare_paths(b, c) != Rank::Less
            ==> spec_compare_paths(a, c) == Rank::Greater,
        spec_compare_paths(a, b) != Rank::Less && spec_compare_paths(b, c) == Rank::Greater
            ==> spec_compare_paths(a, c) == Rank::Greater,
    decreases a.len(),
{
    if a.len() > 0 && b.len() > 0 && c.len() > 0 {
        lemma_compare_transitive(a[0], b[0], c[0]);
        lemma_compare_equal(a[0], b[0]);
        lemma_compare_equal(b[0], c[0]);
        lemma_compare_equal(a[0], c[0]);
        lemma_paths_transitive(a.skip(1), b.skip(1), c.skip(1));
    }
}

/// The order of sets of plans turns round with its arguments.
pub proof fn lemma_solutions_flip(a: Seq<Seq<ScoredCell>>, b: Seq<Seq<ScoredCell>>)
    ensures
        spec_compare_solutions(a, b) == spec_compare_solutions(b, a).spec_flip(),
    decreases a.len(),
{
    if a.len() > 0 && b.len() > 0 {
        lemma_paths_flip(a[0], b[0]);
        lemma_solutions_flip(a.skip(1), b.skip(1));
    }
}

/// The order of sets of plans goes through.
pub proof fn lemma_solutions_transitive(
    a: Seq<Seq<ScoredCell>>,
    b: Seq<Seq<ScoredCell>>,
    c: Seq<Seq<ScoredCell>>,
)
    ensures
        spec_compare_solutions(a, b) != Rank::Less && spec_compare_solutions(b, c) != Rank::Less
            ==> spec_compare_solutions(a, c) != Rank::Less,
        spec_compare_solutions(a, b) == Rank::Greater && spec_compare_solutions(b, c)
            != Rank::Less ==> spec_compare_solutions(a, c) == Rank::Greater,
        spec_compare_solutions(a, b) != Rank::Less && spec_compare_solutions(b, c)
            == Rank::Greater ==> spec_compare_solutions(a, c) == Rank::Greater,
    decreases a.len(),
{
    if a.len() > 0 && b.len() > 0 && c.len() > 0 {
        lemma_paths_transitive(a[0], b[0], c[0]);
        lemma_paths_equal(a[0], b[0]);
        lemma_paths_equal(b[0], c[0]);
        lemma_paths_equal(a[0], c[0]);
        lemma_solutions_transitive(a.skip(1), b.skip(1), c.skip(1));
    }
}

/// The order of nodes turns round with its arguments.
pub proof fn lemma_nodes_flip(a: NodeView, b: NodeView)
    ensures
        spec_compare_nodes(a, b) == spec_compare_nodes(b, a).spec_flip(),
{
    lemma_solutions_flip(b.solution, a.solution);
}

/// The order of nodes goes through: a node that is not below a node that is not below a
/// third is not below the third, and is above it if one of the two steps is strict.
pub proof fn lemma_nodes_transitive(a: NodeView, b: NodeView, c: NodeView)
    ensures
        spec_compare_nodes(a, b) != Rank::Less && spec_compare_nodes(b, c) != Rank::Less
            ==> spec_compare_nodes(a, c) != Rank::Less,
        spec_compare_nodes(a, b) == Rank::Greater && spec_compare_nodes(b, c) != Rank::Less
            ==> spec_compare_nodes(a, c) == Rank::Greater,
        spec_compare_nodes(a, b) != Rank::Less && spec_compare_nodes(b, c) == Rank::Greater
            ==> spec_compare_nodes(a, c) == Rank::Greater,
{
    lemma_solutions_transitive(c.solution, b.solution, a.solution);
    lemma_solutions_flip(b.solution, a.solution);
    lemma_solutions_flip(c.solution, b.solution);
    lemma_solutions_flip(c.solution, a.solution);
}

/// The node that is expanded next is the greatest of the list: no node of the list is
/// above it, and every node before it is below it.
pub proof fn lemma_best_node_greatest(open: Seq<NodeView>, j: int)
    requires
        0 <= j < open.len(),
    ensures
        0 <= spec_best_node(open) < open.len(),
        spec_compare_nodes(open[spec_best_node(open)], open[j]) != Rank::Less,
        j < spec_best_node(open) ==> spec_compare_nodes(open[spec_best_node(open)], open[j])
            == Rank::Greater,
    decreases open.len(),
{
    lemma_best_node_in_range(open);
    if open.len() > 1 {
        let before = open.drop_last();
        let old = spec_best_node(before);
        let last = open.last();
        lemma_best_node_in_range(before);
        lemma_nodes_flip(last, open[old]);
        if j < open.len() - 1 {
            lemma_best_node_greatest(before, j);
            assert(before[j] == open[j]);
            assert(before[old] == open[old]);
            lemma_nodes_transitive(last, open[old], open[j]);
        } else {
            lemma_nodes_flip(last, last);
        }
    } else {
        lemma_nodes_flip(open[0], open[0]);
    }
}

} // verus!
