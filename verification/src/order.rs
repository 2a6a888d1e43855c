//! The order of stays is a total order, and the stay expanded next is its greatest.
use crate::geometry::{Pair, Rank, Rect};
use crate::model::ScoredCell;
use crate::search::{peek, spec_best};
use vstd::prelude::*;

verus! {

/// Where `a` stands against `b` by cost, ticks and footprint alone.
pub open spec fn spec_compare_keys(a: ScoredCell, b: ScoredCell) -> Rank {
    Rank::of(b.cost as int, a.cost as int).spec_refine(
        Rank::of(a.duration.1 as int, b.duration.1 as int),
    ).spec_refine(Rank::of(a.duration.0 as int, b.duration.0 as int)).spec_refine(
        a.location.spec_rank(b.location),
    )
}

/// The order of cells goes through: what is not below a cell that is not below a third is
/// not below the third, and is above it if one of the two steps is strict.
pub proof fn lemma_pair_rank_transitive(a: Pair, b: Pair, c: Pair)
    ensures
        a.spec_rank(b) != Rank::Less && b.spec_rank(c) != Rank::Less ==> a.spec_rank(c)
            != Rank::Less,
        a.spec_rank(b) == Rank::Greater && b.spec_rank(c) != Rank::Less ==> a.spec_rank(c)
            == Rank::Greater,
        a.spec_rank(b) != Rank::Less && b.spec_rank(c) == Rank::Greater ==> a.spec_rank(c)
            == Rank::Greater,
        a.spec_rank(b) == b.spec_rank(a).spec_flip(),
        a.spec_rank(b) == Rank::Equal <==> a == b,
{
}

/// The order of footprints goes through, turns round with its arguments, and holds two
/// footprints equal only if they are the same.
pub proof fn lemma_rect_rank_transitive(a: Rect, b: Rect, c: Rect)
    ensures
        a.spec_rank(b) != Rank::Less && b.spec_rank(c) != Rank::Less ==> a.spec_rank(c)
            != Rank::Less,
        a.spec_rank(b) == Rank::Greater && b.spec_rank(c) != Rank::Less ==> a.spec_rank(c)
            == Rank::Greater,
        a.spec_rank(b) != Rank::Less && b.spec_rank(c) == Rank::Greater ==> a.spec_rank(c)
            == Rank::Greater,
        a.spec_rank(b) == b.spec_rank(a).spec_flip(),
        a.spec_rank(b) == Rank::Equal <==> a == b,
{
    lemma_pair_rank_transitive(a.origin, b.origin, c.origin);
    lemma_pair_rank_transitive(a.extent, b.extent, c.extent);
}

/// The order by cost, ticks and footprint goes through and turns round with its arguments.
#[verifier::rlimit(40)]
pub proof fn lemma_keys_transitive(a: ScoredCell, b: ScoredCell, c: ScoredCell)
    ensures
        spec_compare_keys(a, b) != Rank::Less && spec_compare_keys(b, c) != Rank::Less
            ==> spec_compare_keys(a, c) != Rank::Less,
        spec_compare_keys(a, b) == Rank::Greater && spec_compare_keys(b, c) != Rank::Less
            ==> spec_compare_keys(a, c) == Rank::Greater,
        spec_compare_keys(a, b) != Rank::Less && spec_compare_keys(b, c) == Rank::Greater
            ==> spec_compare_keys(a, c) == Rank::Greater,
        spec_compare_keys(a, b) == spec_compare_keys(b, a).spec_flip(),
        spec_compare_keys(a, b) == Rank::Equal <==> a.cost == b.cost && a.duration == b.duration
            && a.location == b.location,
{
    lemma_rect_rank_transitive(c.location, b.location, a.location);
    lemma_rect_rank_transitive(a.location, b.location, c.location);
}

/// Where `a` stands against `b` by their predecessors alone.
pub open spec fn spec_compare_prev(a: ScoredCell, b: ScoredCell) -> Rank {
    match (a.prev, b.prev) {
        (None, None) => Rank::Equal,
        (None, Some(_)) => Rank::Less,
        (Some(_), None) => Rank::Greater,
        (Some(s), Some(o)) => s.spec_compare(*o),
    }
}

/// The order of stays decides by cost, ticks and footprint first and by the predecessors
/// last.
pub proof fn lemma_compare_parts(a: ScoredCell, b: ScoredCell)
    ensures
        a.spec_compare(b) == spec_compare_keys(a, b).spec_refine(spec_compare_prev(a, b)),
{
}

/// The order of stays turns round with its arguments.
pub proof fn lemma_compare_flip(a: ScoredCell, b: ScoredCell)
    ensures
        a.spec_compare(b) == b.spec_compare(a).spec_flip(),
    decreases a.depth() + b.depth(),
{
    lemma_keys_transitive(a, b, a);
    lemma_compare_parts(a, b);
    lemma_compare_parts(b, a);
    match (a.prev, b.prev) {
        (Some(x), Some(y)) => {
            lemma_compare_flip(peek(&x), peek(&y));
        },
        _ => {},
    }
}

/// The order of stays holds two stays equal only if they are the same in every field.
pub proof fn lemma_compare_equal(a: ScoredCell, b: ScoredCell)
    ensures
        a.spec_compare(b) == Rank::Equal <==> a == b,
    decreases a.depth() + b.depth(),
{
    lemma_keys_transitive(a, b, a);
    lemma_compare_parts(a, b);
    match (a.prev, b.prev) {
        (Some(x), Some(y)) => {
            lemma_compare_equal(peek(&x), peek(&y));
            if a.spec_compare(b) == Rank::Equal {
                assert(peek(&x) == peek(&y));
                assert(a.prev == b.prev);
            }
        },
        _ => {},
    }
}

/// The order of stays goes through: a stay that is not below a stay that is not below a
/// third is not below the third, and is above it if one of the two steps is strict.
pub proof fn lemma_compare_transitive(a: ScoredCell, b: ScoredCell, c: ScoredCell)
    ensures
        a.spec_compare(b) != Rank::Less && b.spec_compare(c) != Rank::Less ==> a.spec_compare(c)
            != Rank::Less,
        a.spec_compare(b) == Rank::Greater && b.spec_compare(c) != Rank::Less ==> a.spec_compare(
            c,
        ) == Rank::Greater,
        a.spec_compare(b) != Rank::Less && b.spec_compare(c) == Rank::Greater ==> a.spec_compare(
            c,
        ) == Rank::Greater,
    decreases a.depth() + b.depth() + c.depth(),
{
    lemma_keys_transitive(a, b, c);
    lemma_compare_parts(a, b);
    lemma_compare_parts(b, c);
    lemma_compare_parts(a, c);
    match (a.prev, b.prev, c.prev) {
        (Some(x), Some(y), Some(z)) => {
            lemma_compare_transitive(peek(&x), peek(&y), peek(&z));
        },
        _ => {},
    }
}

/// The stay that is expanded next is the greatest of the open list: no stay of the list is
/// above it, and every stay before it is below it.
pub proof fn lemma_best_greatest(open: Seq<ScoredCell>, j: int)
    requires
        0 <= j < open.len(),
    ensures
        0 <= spec_best(open) < open.len(),
        open[spec_best(open)].spec_compare(open[j]) != Rank::Less,
        j < spec_best(open) ==> open[spec_best(open)].spec_compare(open[j]) == Rank::Greater,
    decreases open.len(),
{
    crate::search::lemma_best_in_range(open);
    if open.len() > 1 {
        let before = open.drop_last();
        let old = spec_best(before);
        let last = open.last();
        crate::search::lemma_best_in_range(before);
        lemma_compare_flip(last, open[old]);
        if j < open.len() - 1 {
            lemma_best_greatest(before, j);
            assert(before[j] == open[j]);
            assert(before[old] == open[old]);
            lemma_compare_transitive(last, open[old], open[j]);
        } else {
            lemma_compare_equal(last, last);
        }
    } else {
        lemma_compare_equal(open[0], open[0]);
    }
}

} // verus!
