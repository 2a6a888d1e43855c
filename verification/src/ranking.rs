//! What holds of the explorations that are kept, sorted and taken together.
use crate::explore::{
    same_agents, spec_choose, spec_greedy, spec_keep, spec_kept, spec_prioritize, spec_rival,
    spec_slot, spec_sorted, ExplorationView,
};
use crate::model::Conflict;
use vstd::prelude::*;

verus! {

/// The two conflicts have an agent in common.
pub open spec fn share_agent(a: Conflict, b: Conflict) -> bool {
    a.0.uid == b.0.uid || a.0.uid == b.1.uid || a.1.uid == b.0.uid || a.1.uid == b.1.uid
}

/// No exploration of the list is hopeless, and no two are between the same two agents.
pub open spec fn one_per_pair(list: Seq<ExplorationView>) -> bool {
    &&& forall|i: int| 0 <= i < list.len() ==> !(#[trigger] list[i]).hopeless()
    &&& forall|i: int, j: int|
        0 <= i < j < list.len() ==> !same_agents(
            (#[trigger] list[i]).conflict,
            (#[trigger] list[j]).conflict,
        )
}

/// No exploration of the list goes before one that stands before it.
pub open spec fn in_order(list: Seq<ExplorationView>) -> bool {
    forall|i: int, j: int|
        0 <= i < j < list.len() ==> !(#[trigger] list[j]).better(#[trigger] list[i])
}

/// No two explorations of the list have an agent in common.
pub open spec fn agents_apart(list: Seq<ExplorationView>) -> bool {
    forall|i: int, j: int|
        0 <= i < j < list.len() ==> !share_agent(
            (#[trigger] list[i]).conflict,
            (#[trigger] list[j]).conflict,
        )
}

/// The rival of an exploration is the first that is between its agents.
pub proof fn lemma_rival_first(chosen: Seq<ExplorationView>, e: ExplorationView)
    ensures
        0 <= spec_rival(chosen, e) <= chosen.len(),
        spec_rival(chosen, e) < chosen.len() ==> same_agents(
            chosen[spec_rival(chosen, e)].conflict,
            e.conflict,
        ),
        forall|i: int|
            0 <= i < spec_rival(chosen, e) ==> !same_agents(
                (#[trigger] chosen[i]).conflict,
                e.conflict,
            ),
    decreases chosen.len(),
{
    if chosen.len() > 0 {
        lemma_rival_first(chosen.drop_last(), e);
        let before = chosen.drop_last();
        assert forall|i: int| 0 <= i < spec_rival(chosen, e) implies !same_agents(
            (#[trigger] chosen[i]).conflict,
            e.conflict,
        ) by {
            if i < before.len() {
                assert(before[i] == chosen[i]);
            }
        }
        if spec_rival(chosen, e) < before.len() {
            assert(before[spec_rival(chosen, e)] == chosen[spec_rival(chosen, e)]);
        }
    }
}

/// What is kept of explorations holds one exploration for each two agents, none hopeless.
pub proof fn lemma_kept_one_per_pair(list: Seq<ExplorationView>, k: int)
    requires
        0 <= k <= list.len(),
    ensures
        one_per_pair(spec_kept(list, k)),
    decreases k,
{
    if k > 0 {
        lemma_kept_one_per_pair(list, k - 1);
        let chosen = spec_kept(list, k - 1);
        let e = list[k - 1];
        let now = spec_keep(chosen, e);
        let rival = spec_rival(chosen, e);
        lemma_rival_first(chosen, e);
        assert forall|i: int| 0 <= i < now.len() implies !(#[trigger] now[i]).hopeless() by {
            if i < chosen.len() && now[i] == chosen[i] {
                assert(!chosen[i].hopeless());
            }
        }
        assert forall|i: int, j: int| 0 <= i < j < now.len() implies !same_agents(
            (#[trigger] now[i]).conflict,
            (#[trigger] now[j]).conflict,
        ) by {
            if !e.hopeless() {
                if rival < chosen.len() {
                    assert(!same_agents(chosen[i].conflict, chosen[j].conflict));
                    assert(same_agents(chosen[rival].conflict, e.conflict));
                } else if j < chosen.len() {
                    assert(!same_agents(chosen[i].conflict, chosen[j].conflict));
                } else {
                    assert(!same_agents(chosen[i].conflict, e.conflict));
                }
            } else {
                assert(!same_agents(chosen[i].conflict, chosen[j].conflict));
            }
        }
    }
}

/// An exploration is put before all that it goes before at the end of the list, and after
/// one that it does not go before.
pub proof fn lemma_slot_bounds(sorted: Seq<ExplorationView>, e: ExplorationView)
    ensures
        0 <= spec_slot(sorted, e) <= sorted.len(),
        forall|i: int| spec_slot(sorted, e) <= i < sorted.len() ==> e.better(#[trigger] sorted[i]),
        spec_slot(sorted, e) > 0 ==> !e.better(sorted[spec_slot(sorted, e) - 1]),
    decreases sorted.len(),
{
    if sorted.len() > 0 && e.better(sorted.last()) {
        let before = sorted.drop_last();
        lemma_slot_bounds(before, e);
        assert forall|i: int| spec_slot(sorted, e) <= i < sorted.len() implies e.better(
            #[trigger] sorted[i],
        ) by {
            if i < before.len() {
                assert(before[i] == sorted[i]);
            }
        }
        if spec_slot(sorted, e) > 0 {
            assert(before[spec_slot(sorted, e) - 1] == sorted[spec_slot(sorted, e) - 1]);
        }
    }
}

/// Sorted explorations are in order, and sorting keeps one exploration for each two agents.
#[verifier::rlimit(40)]
pub proof fn lemma_sorted_in_order(list: Seq<ExplorationView>, k: int)
    requires
        0 <= k <= list.len(),
        one_per_pair(list),
    ensures
        in_order(spec_sorted(list, k)),
        one_per_pair(spec_sorted(list, k)),
        spec_sorted(list, k).len() == k,
        forall|i: int|
            0 <= i < k ==> exists|j: int|
                0 <= j < k && #[trigger] spec_sorted(list, k)[i] == list[j],
        forall|i: int, j: int|
            0 <= i < j < k ==> spec_sorted(list, k)[i] != spec_sorted(list, k)[j],
    decreases k,
{
    if k > 0 {
        lemma_sorted_in_order(list, k - 1);
        let before = spec_sorted(list, k - 1);
        let e = list[k - 1];
        let at = spec_slot(before, e);
        lemma_slot_bounds(before, e);
        let now = before.insert(at, e);
        assert(now == spec_sorted(list, k));
        assert forall|i: int| 0 <= i < k implies exists|j: int|
            0 <= j < k && #[trigger] now[i] == list[j] by {
            if i < at {
                assert(now[i] == before[i]);
                let j = choose|j: int| 0 <= j < k - 1 && before[i] == list[j];
                assert(0 <= j < k && now[i] == list[j]);
            } else if i == at {
                assert(0 <= k - 1 < k && now[i] == list[k - 1]);
            } else {
                assert(now[i] == before[i - 1]);
                let j = choose|j: int| 0 <= j < k - 1 && before[i - 1] == list[j];
                assert(0 <= j < k && now[i] == list[j]);
            }
        }
        assert forall|i: int| 0 <= i < before.len() implies !same_agents(
            (#[trigger] before[i]).conflict,
            e.conflict,
        ) by {
            let j = choose|j: int| 0 <= j < k - 1 && before[i] == list[j];
            assert(!same_agents(list[j].conflict, list[k - 1].conflict));
        }
        assert forall|i: int| 0 <= i < now.len() implies !(#[trigger] now[i]).hopeless() by {
            if i < at {
                assert(now[i] == before[i]);
            } else if i == at {
                assert(!list[k - 1].hopeless());
            } else {
                assert(now[i] == before[i - 1]);
            }
        }
        assert forall|i: int, j: int| 0 <= i < j < now.len() implies !(#[trigger] now[j]).better(
            #[trigger] now[i],
        ) && !same_agents(now[i].conflict, now[j].conflict) && now[i] != now[j] by {
            let a = if i < at {
                i
            } else {
                i - 1
            };
            let b = if j < at {
                j
            } else {
                j - 1
            };
            if i != at {
                assert(now[i] == before[a]);
            }
            if j != at {
                assert(now[j] == before[b]);
            }
            if i != at && j != at {
                assert(!before[b].better(before[a]));
                assert(!same_agents(before[a].conflict, before[b].conflict));
            } else if i == at {
                assert(e.better(before[b]));
                assert(!same_agents(before[b].conflict, e.conflict));
            } else {
                assert(!same_agents(before[a].conflict, e.conflict));
                if a < at - 1 {
                    assert(!before[at - 1].better(before[a]));
                }
            }
        }
    }
}

/// The prioritized explorations are in order, none is hopeless, and no two are between the
/// same two agents.
pub proof fn lemma_prioritize(list: Seq<ExplorationView>)
    ensures
        in_order(spec_prioritize(list)),
        one_per_pair(spec_prioritize(list)),
{
    lemma_kept_one_per_pair(list, list.len() as int);
    let kept = spec_kept(list, list.len() as int);
    lemma_sorted_in_order(kept, kept.len() as int);
}

/// Of the explorations that are taken, no two have an agent in common, there are at most
/// `batch`, and the agents seen are their agents.
pub proof fn lemma_choose_apart(list: Seq<ExplorationView>, k: int, batch: usize)
    requires
        0 <= k <= list.len(),
    ensures
        agents_apart(spec_choose(list, k, batch).0),
        spec_choose(list, k, batch).0.len() <= batch,
        forall|i: int|
            0 <= i < spec_choose(list, k, batch).0.len() ==> {
                let e = #[trigger] spec_choose(list, k, batch).0[i];
                spec_choose(list, k, batch).1.contains(e.conflict.0.uid) && spec_choose(
                    list,
                    k,
                    batch,
                ).1.contains(e.conflict.1.uid)
            },
    decreases k,
{
    if k > 0 {
        lemma_choose_apart(list, k - 1, batch);
        let (taken, seen) = spec_choose(list, k - 1, batch);
        let (now, known) = spec_choose(list, k, batch);
        let e = list[k - 1];
        if now.len() > taken.len() {
            assert(known == seen.push(e.conflict.0.uid).push(e.conflict.1.uid));
            assert(known[seen.len() as int] == e.conflict.0.uid);
            assert(known[seen.len() as int + 1] == e.conflict.1.uid);
            assert forall|i: int| 0 <= i < now.len() implies {
                let x = #[trigger] now[i];
                known.contains(x.conflict.0.uid) && known.contains(x.conflict.1.uid)
            } by {
                if i < taken.len() {
                    assert(now[i] == taken[i]);
                    let x = taken[i];
                    let p = choose|p: int| 0 <= p < seen.len() && seen[p] == x.conflict.0.uid;
                    let q = choose|q: int| 0 <= q < seen.len() && seen[q] == x.conflict.1.uid;
                    assert(known[p] == x.conflict.0.uid);
                    assert(known[q] == x.conflict.1.uid);
                }
            }
            assert forall|i: int, j: int| 0 <= i < j < now.len() implies !share_agent(
                (#[trigger] now[i]).conflict,
                (#[trigger] now[j]).conflict,
            ) by {
                assert(now[i] == taken[i]);
                if j < taken.len() {
                    assert(now[j] == taken[j]);
                } else {
                    assert(seen.contains(taken[i].conflict.0.uid));
                    assert(seen.contains(taken[i].conflict.1.uid));
                }
            }
        }
    }
}

/// The explorations that are taken together are at most `batch`, and no two of them have an
/// agent in common.
pub proof fn lemma_greedy_apart(list: Seq<ExplorationView>, batch: usize)
    ensures
        agents_apart(spec_greedy(list, batch)),
        spec_greedy(list, batch).len() <= batch,
{
    let ranked = spec_prioritize(list);
    lemma_choose_apart(ranked, ranked.len() as int, batch);
}

/// The exploration is matched in the list by one between the same two agents that it does
/// not go before.
pub open spec fn matched_in(list: Seq<ExplorationView>, e: ExplorationView) -> bool {
    exists|j: int|
        0 <= j < list.len() && same_agents((#[trigger] list[j]).conflict, e.conflict)
            && !e.better(list[j])
}

/// The exploration is taken, or the batch is full, or a taken exploration has an agent in
/// common with it.
pub open spec fn accounted_in(taken: Seq<ExplorationView>, batch: usize, e: ExplorationView) -> bool {
    ||| taken.contains(e)
    ||| taken.len() >= batch
    ||| exists|j: int|
        0 <= j < taken.len() && share_agent((#[trigger] taken[j]).conflict, e.conflict)
}

/// What is kept of the first `k` explorations holds, for each of them that is not hopeless,
/// one between the same two agents that it does not go before.
pub proof fn lemma_kept_best(list: Seq<ExplorationView>, k: int, i: int)
    requires
        0 <= i < k <= list.len(),
        !list[i].hopeless(),
    ensures
        matched_in(spec_kept(list, k), list[i]),
    decreases k,
{
    let chosen = spec_kept(list, k - 1);
    let e = list[k - 1];
    let now = spec_keep(chosen, e);
    let rival = spec_rival(chosen, e);
    lemma_rival_first(chosen, e);
    assert(now == spec_kept(list, k));
    if i == k - 1 {
        if rival < chosen.len() {
            if e.better(chosen[rival]) {
                assert(now[rival] == e);
            } else {
                assert(now[rival] == chosen[rival]);
            }
            assert(same_agents(now[rival].conflict, e.conflict) && !e.better(now[rival]));
        } else {
            let at = chosen.len() as int;
            assert(now[at] == e);
            assert(same_agents(now[at].conflict, e.conflict) && !e.better(now[at]));
        }
    } else {
        lemma_kept_best(list, k - 1, i);
        let j = choose|j: int|
            0 <= j < chosen.len() && same_agents((#[trigger] chosen[j]).conflict, list[i].conflict)
                && !list[i].better(chosen[j]);
        if !e.hopeless() && rival < chosen.len() && e.better(chosen[rival]) && j == rival {
            assert(now[j] == e);
        } else {
            assert(now[j] == chosen[j]);
        }
        assert(same_agents(now[j].conflict, list[i].conflict) && !list[i].better(now[j]));
    }
}

/// Sorting loses no exploration.
pub proof fn lemma_sorted_has(list: Seq<ExplorationView>, k: int, j: int)
    requires
        0 <= j < k <= list.len(),
    ensures
        spec_sorted(list, k).len() == k,
        exists|i: int| 0 <= i < k && #[trigger] spec_sorted(list, k)[i] == list[j],
    decreases k,
{
    lemma_sorted_len(list, k);
    lemma_sorted_len(list, k - 1);
    let before = spec_sorted(list, k - 1);
    let e = list[k - 1];
    let at = spec_slot(before, e);
    lemma_slot_bounds(before, e);
    let now = before.insert(at, e);
    assert(now == spec_sorted(list, k));
    if j == k - 1 {
        assert(0 <= at < k && now[at] == list[j]);
    } else {
        lemma_sorted_has(list, k - 1, j);
        let i = choose|i: int| 0 <= i < k - 1 && #[trigger] before[i] == list[j];
        if i < at {
            assert(0 <= i < k && now[i] == list[j]);
        } else {
            assert(0 <= i + 1 < k && now[i + 1] == list[j]);
        }
    }
}

/// Sorting keeps the number of explorations.
pub proof fn lemma_sorted_len(list: Seq<ExplorationView>, k: int)
    requires
        0 <= k <= list.len(),
    ensures
        spec_sorted(list, k).len() == k,
    decreases k,
{
    if k > 0 {
        lemma_sorted_len(list, k - 1);
        lemma_slot_bounds(spec_sorted(list, k - 1), list[k - 1]);
    }
}

/// The exploration that is kept for two agents is the best between them: every exploration
/// that is not hopeless is matched, among the prioritized, by one between the same two
/// agents that it does not go before.
pub proof fn lemma_prioritize_best(list: Seq<ExplorationView>, i: int)
    requires
        0 <= i < list.len(),
        !list[i].hopeless(),
    ensures
        matched_in(spec_prioritize(list), list[i]),
{
    let kept = spec_kept(list, list.len() as int);
    lemma_kept_best(list, list.len() as int, i);
    let j = choose|j: int|
        0 <= j < kept.len() && same_agents((#[trigger] kept[j]).conflict, list[i].conflict)
            && !list[i].better(kept[j]);
    lemma_sorted_has(kept, kept.len() as int, j);
    let ranked = spec_sorted(kept, kept.len() as int);
    let at = choose|at: int| 0 <= at < kept.len() && #[trigger] ranked[at] == kept[j];
    assert(same_agents(ranked[at].conflict, list[i].conflict) && !list[i].better(ranked[at]));
}

/// What is taken of more explorations begins with what was taken of fewer, and so do the
/// agents seen.
pub proof fn lemma_choose_grows(list: Seq<ExplorationView>, k: int, batch: usize)
    requires
        0 < k <= list.len(),
    ensures
        spec_choose(list, k - 1, batch).0.len() <= spec_choose(list, k, batch).0.len(),
        forall|j: int|
            0 <= j < spec_choose(list, k - 1, batch).0.len() ==> spec_choose(list, k, batch).0[j]
                == #[trigger] spec_choose(list, k - 1, batch).0[j],
        forall|p: int|
            0 <= p < spec_choose(list, k - 1, batch).1.len() ==> spec_choose(list, k, batch).1[p]
                == #[trigger] spec_choose(list, k - 1, batch).1[p],
{
}

/// Every agent seen is an agent of an exploration that is taken.
pub proof fn lemma_seen_taken(list: Seq<ExplorationView>, k: int, batch: usize, p: int)
    requires
        0 <= k <= list.len(),
        0 <= p < spec_choose(list, k, batch).1.len(),
    ensures
        exists|j: int|
            0 <= j < spec_choose(list, k, batch).0.len() && ((#[trigger] spec_choose(
                list,
                k,
                batch,
            ).0[j]).conflict.0.uid == spec_choose(list, k, batch).1[p] || spec_choose(
                list,
                k,
                batch,
            ).0[j].conflict.1.uid == spec_choose(list, k, batch).1[p]),
    decreases k,
{
    if k > 0 {
        let (taken, seen) = spec_choose(list, k - 1, batch);
        let (now, known) = spec_choose(list, k, batch);
        lemma_choose_grows(list, k, batch);
        if p < seen.len() {
            lemma_seen_taken(list, k - 1, batch, p);
            let j = choose|j: int|
                0 <= j < taken.len() && ((#[trigger] taken[j]).conflict.0.uid == seen[p]
                    || taken[j].conflict.1.uid == seen[p]);
            assert(now[j] == taken[j]);
            assert(known[p] == seen[p]);
            assert(0 <= j < now.len() && (now[j].conflict.0.uid == known[p]
                || now[j].conflict.1.uid == known[p]));
        } else {
            let e = list[k - 1];
            let at = taken.len() as int;
            assert(now == taken.push(e));
            assert(known == seen.push(e.conflict.0.uid).push(e.conflict.1.uid));
            assert(0 <= at < now.len() && (now[at].conflict.0.uid == known[p]
                || now[at].conflict.1.uid == known[p]));
        }
    }
}

/// Each of the first `k` explorations is taken, or the batch is full, or a taken
/// exploration has an agent in common with it.
pub proof fn lemma_choose_full(list: Seq<ExplorationView>, k: int, batch: usize, i: int)
    requires
        0 <= i < k <= list.len(),
    ensures
        accounted_in(spec_choose(list, k, batch).0, batch, list[i]),
    decreases k,
{
    let (taken, seen) = spec_choose(list, k - 1, batch);
    let (now, known) = spec_choose(list, k, batch);
    let e = list[k - 1];
    lemma_choose_grows(list, k, batch);
    if i < k - 1 {
        lemma_choose_full(list, k - 1, batch, i);
        if taken.contains(list[i]) {
            let j = choose|j: int| 0 <= j < taken.len() && taken[j] == list[i];
            assert(now[j] == list[i]);
        } else if taken.len() < batch {
            let j = choose|j: int|
                0 <= j < taken.len() && share_agent((#[trigger] taken[j]).conflict, list[i].conflict);
            assert(now[j] == taken[j]);
            assert(0 <= j < now.len() && share_agent(now[j].conflict, list[i].conflict));
        }
    } else if now.len() > taken.len() {
        assert(now[taken.len() as int] == e);
    } else if taken.len() < batch {
        let u = if seen.contains(e.conflict.0.uid) {
            e.conflict.0.uid
        } else {
            e.conflict.1.uid
        };
        assert(seen.contains(u));
        let p = choose|p: int| 0 <= p < seen.len() && seen[p] == u;
        lemma_seen_taken(list, k - 1, batch, p);
        let j = choose|j: int|
            0 <= j < taken.len() && ((#[trigger] taken[j]).conflict.0.uid == seen[p]
                || taken[j].conflict.1.uid == seen[p]);
        assert(now[j] == taken[j]);
        assert(0 <= j < now.len() && share_agent(now[j].conflict, e.conflict));
    }
}

/// An exploration is left out only for a reason: every prioritized exploration is taken,
/// or the batch is full, or a taken exploration has an agent in common with it.
pub proof fn lemma_greedy_full(list: Seq<ExplorationView>, batch: usize, i: int)
    requires
        0 <= i < spec_prioritize(list).len(),
    ensures
        accounted_in(spec_greedy(list, batch), batch, spec_prioritize(list)[i]),
{
    let ranked = spec_prioritize(list);
    lemma_choose_full(ranked, ranked.len() as int, batch, i);
}

} // verus!
