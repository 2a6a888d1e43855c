//! The ways to resolve the conflicts of a node: what each costs, and which are taken together.
use crate::conflicts::clone_path;
use crate::geometry::Pair;
use crate::model::{Conflict, Path, ScoredCell};
use vstd::prelude::*;

verus! {

/// A conflict with the new plan of each of its two agents under the constraint that keeps
/// the agent out of the way of the other; `None` where the agent has no plan then.
#[derive(Debug)]
pub struct Exploration {
    pub conflict: Conflict,
    pub first: Option<Path>,
    pub second: Option<Path>,
}

/// An exploration with its plans as sequences of stays.
pub struct ExplorationView {
    pub conflict: Conflict,
    pub first: Option<Seq<ScoredCell>>,
    pub second: Option<Seq<ScoredCell>>,
}

/// The plan as a sequence of stays, if there is one.
pub open spec fn plan_view(plan: Option<Path>) -> Option<Seq<ScoredCell>> {
    match plan {
        Some(path) => Some(path@),
        None => None,
    }
}

/// The number of stays of the plan; infinite where there is none.
pub open spec fn plan_len(plan: Option<Seq<ScoredCell>>) -> usize {
    match plan {
        Some(path) => path.len() as usize,
        None => usize::MAX,
    }
}

impl View for Exploration {
    type V = ExplorationView;

    open spec fn view(&self) -> ExplorationView {
        ExplorationView {
            conflict: self.conflict,
            first: plan_view(self.first),
            second: plan_view(self.second),
        }
    }
}

impl ExplorationView {
    /// The number of stays of the shorter of the two plans.
    pub open spec fn score(self) -> usize {
        if plan_len(self.first) <= plan_len(self.second) {
            plan_len(self.first)
        } else {
            plan_len(self.second)
        }
    }

    /// The number of stays of the longer of the two plans.
    pub open spec fn secondary_score(self) -> usize {
        if plan_len(self.first) >= plan_len(self.second) {
            plan_len(self.first)
        } else {
            plan_len(self.second)
        }
    }

    /// This exploration goes before `other`: its score is higher, or the same with a lower
    /// secondary score.
    pub open spec fn better(self, other: ExplorationView) -> bool {
        self.score() > other.score() || (self.score() == other.score() && self.secondary_score()
            < other.secondary_score())
    }

    /// Neither agent has a plan.
    pub open spec fn hopeless(self) -> bool {
        self.first is None && self.second is None
    }
}

/// The two conflicts are between the same two agents.
pub open spec fn same_agents(a: Conflict, b: Conflict) -> bool {
    (a.0.uid == b.0.uid && a.1.uid == b.1.uid) || (a.0.uid == b.1.uid && a.1.uid == b.0.uid)
}

/// The explorations as values.
pub open spec fn explorations_view(list: Seq<Exploration>) -> Seq<ExplorationView> {
    Seq::new(list.len(), |i: int| list[i]@)
}

/// The index of the first of `chosen` that is between the agents of `e`; the length of
/// `chosen` if none is.
pub open spec fn spec_rival(chosen: Seq<ExplorationView>, e: ExplorationView) -> int
    decreases chosen.len(),
{
    if chosen.len() == 0 {
        0
    } else {
        let before = spec_rival(chosen.drop_last(), e);
        if before < chosen.len() - 1 || same_agents(chosen.last().conflict, e.conflict) {
            before
        } else {
            chosen.len() as int
        }
    }
}

/// `chosen` after `e` is considered: a hopeless `e` is dropped; an `e` between two agents of
/// which `chosen` holds nothing is added at the end; otherwise `e` takes the place of the
/// exploration between the same agents if it goes before it.
pub open spec fn spec_keep(chosen: Seq<ExplorationView>, e: ExplorationView) -> Seq<
    ExplorationView,
> {
    if e.hopeless() {
        chosen
    } else {
        let rival = spec_rival(chosen, e);
        if rival < chosen.len() {
            if e.better(chosen[rival]) {
                chosen.update(rival, e)
            } else {
                chosen
            }
        } else {
            chosen.push(e)
        }
    }
}

/// What is kept of the first `k` explorations: for each two agents the best exploration
/// between them that is not hopeless.
pub open spec fn spec_kept(list: Seq<ExplorationView>, k: int) -> Seq<ExplorationView>
    decreases k,
{
    if k <= 0 {
        Seq::empty()
    } else {
        spec_keep(spec_kept(list, k - 1), list[k - 1])
    }
}

/// Where `e` is put into `sorted`: before the explorations at the end that it goes before.
pub open spec fn spec_slot(sorted: Seq<ExplorationView>, e: ExplorationView) -> int
    decreases sorted.len(),
{
    if sorted.len() == 0 {
        0
    } else if e.better(sorted.last()) {
        spec_slot(sorted.drop_last(), e)
    } else {
        sorted.len() as int
    }
}

/// The first `k` explorations in order, the better first, and of two of which neither goes
/// before the other the one that came first.
pub open spec fn spec_sorted(list: Seq<ExplorationView>, k: int) -> Seq<ExplorationView>
    decreases k,
{
    if k <= 0 {
        Seq::empty()
    } else {
        let before = spec_sorted(list, k - 1);
        before.insert(spec_slot(before, list[k - 1]), list[k - 1])
    }
}

/// For each two agents the best exploration between them that is not hopeless, the better
/// explorations first.
pub open spec fn spec_prioritize(list: Seq<ExplorationView>) -> Seq<ExplorationView> {
    let kept = spec_kept(list, list.len() as int);
    spec_sorted(kept, kept.len() as int)
}

/// What is taken of the first `k` explorations, and the agents it names: an exploration
/// is taken if fewer than `batch` are taken before it and none of them names either of its
/// agents.
pub open spec fn spec_choose(list: Seq<ExplorationView>, k: int, batch: usize) -> (
    Seq<ExplorationView>,
    Seq<Pair>,
)
    decreases k,
{
    if k <= 0 {
        (Seq::empty(), Seq::empty())
    } else {
        let (taken, seen) = spec_choose(list, k - 1, batch);
        let e = list[k - 1];
        if taken.len() < batch && !seen.contains(e.conflict.0.uid) && !seen.contains(
            e.conflict.1.uid,
        ) {
            (taken.push(e), seen.push(e.conflict.0.uid).push(e.conflict.1.uid))
        } else {
            (taken, seen)
        }
    }
}

/// At most `batch` of the prioritized explorations, no two of which name the same agent,
/// each taken as early as that allows.
pub open spec fn spec_greedy(list: Seq<ExplorationView>, batch: usize) -> Seq<ExplorationView> {
    let ranked = spec_prioritize(list);
    spec_choose(ranked, ranked.len() as int, batch).0
}

/// The slot of an exploration lies in the sequence or at its end.
pub proof fn lemma_slot_in_range(sorted: Seq<ExplorationView>, e: ExplorationView)
    ensures
        0 <= spec_slot(sorted, e) <= sorted.len(),
    decreases sorted.len(),
{
    if sorted.len() > 0 && e.better(sorted.last()) {
        lemma_slot_in_range(sorted.drop_last(), e);
    }
}

/// The property holds of every exploration of the list.
pub open spec fn all_hold(
    list: Seq<ExplorationView>,
    property: spec_fn(ExplorationView) -> bool,
) -> bool {
    forall|i: int| 0 <= i < list.len() ==> property(#[trigger] list[i])
}

/// What is kept of explorations holds only explorations of the list.
pub proof fn lemma_kept_hold(
    list: Seq<ExplorationView>,
    k: int,
    property: spec_fn(ExplorationView) -> bool,
)
    requires
        all_hold(list, property),
        0 <= k <= list.len(),
    ensures
        all_hold(spec_kept(list, k), property),
    decreases k,
{
    if k > 0 {
        lemma_kept_hold(list, k - 1, property);
        let chosen = spec_kept(list, k - 1);
        let e = list[k - 1];
        let now = spec_keep(chosen, e);
        let rival = spec_rival(chosen, e);
        lemma_rival_in_range(chosen, e);
        assert(property(e));
        assert forall|i: int| 0 <= i < now.len() implies property(#[trigger] now[i]) by {
            if e.hopeless() {
                assert(now[i] == chosen[i]);
            } else if rival < chosen.len() {
                if e.better(chosen[rival]) && i == rival {
                    assert(now[i] == e);
                } else {
                    assert(now[i] == chosen[i]);
                }
            } else if i < chosen.len() {
                assert(now[i] == chosen[i]);
            } else {
                assert(now[i] == e);
            }
        }
    }
}

/// The rival of an exploration lies in the sequence or at its end.
pub proof fn lemma_rival_in_range(chosen: Seq<ExplorationView>, e: ExplorationView)
    ensures
        0 <= spec_rival(chosen, e) <= chosen.len(),
    decreases chosen.len(),
{
    if chosen.len() > 0 {
        lemma_rival_in_range(chosen.drop_last(), e);
    }
}

/// Sorting explorations neither adds nor loses one.
pub proof fn lemma_sorted_hold(
    list: Seq<ExplorationView>,
    k: int,
    property: spec_fn(ExplorationView) -> bool,
)
    requires
        all_hold(list, property),
        0 <= k <= list.len(),
    ensures
        all_hold(spec_sorted(list, k), property),
        spec_sorted(list, k).len() == k,
    decreases k,
{
    if k > 0 {
        lemma_sorted_hold(list, k - 1, property);
        let before = spec_sorted(list, k - 1);
        let e = list[k - 1];
        let at = spec_slot(before, e);
        lemma_slot_in_range(before, e);
        let now = before.insert(at, e);
        assert(property(e));
        assert forall|i: int| 0 <= i < now.len() implies property(#[trigger] now[i]) by {
            if i < at {
                assert(now[i] == before[i]);
            } else if i == at {
                assert(now[i] == e);
            } else {
                assert(now[i] == before[i - 1]);
            }
        }
    }
}

/// What is taken of explorations holds only explorations of the list.
pub proof fn lemma_choose_hold(
    list: Seq<ExplorationView>,
    k: int,
    batch: usize,
    property: spec_fn(ExplorationView) -> bool,
)
    requires
        all_hold(list, property),
        0 <= k <= list.len(),
    ensures
        all_hold(spec_choose(list, k, batch).0, property),
    decreases k,
{
    if k > 0 {
        lemma_choose_hold(list, k - 1, batch, property);
        let taken = spec_choose(list, k - 1, batch).0;
        let now = spec_choose(list, k, batch).0;
        assert(property(list[k - 1]));
        assert forall|i: int| 0 <= i < now.len() implies property(#[trigger] now[i]) by {
            if i < taken.len() {
                assert(now[i] == taken[i]);
            }
        }
    }
}

/// The explorations that are taken together are explorations of the list: what holds of
/// every exploration of the list holds of them.
pub proof fn lemma_greedy_hold(
    list: Seq<ExplorationView>,
    batch: usize,
    property: spec_fn(ExplorationView) -> bool,
)
    requires
        all_hold(list, property),
    ensures
        all_hold(spec_greedy(list, batch), property),
{
    lemma_kept_hold(list, list.len() as int, property);
    let kept = spec_kept(list, list.len() as int);
    lemma_sorted_hold(kept, kept.len() as int, property);
    let ranked = spec_sorted(kept, kept.len() as int);
    lemma_choose_hold(ranked, ranked.len() as int, batch, property);
}

/// The number of stays of the plan; infinite where there is none.
pub fn plan_length(plan: &Option<Path>) -> (out: usize)
    ensures
        out == plan_len(plan_view(*plan)),
{
    match plan {
        Some(path) => path.len(),
        None => usize::MAX,
    }
}

/// A copy of the plan, if there is one.
pub fn clone_plan(plan: &Option<Path>) -> (out: Option<Path>)
    ensures
        plan_view(out) == plan_view(*plan),
{
    match plan {
        Some(path) => Some(clone_path(path)),
        None => None,
    }
}

impl Exploration {
    /// The number of stays of the shorter of the two plans.
    pub fn score(&self) -> (out: usize)
        ensures
            out == self@.score(),
    {
        let a = plan_length(&self.first);
        let b = plan_length(&self.second);
        if a <= b {
            a
        } else {
            b
        }
    }

    /// The number of stays of the longer of the two plans.
    pub fn secondary_score(&self) -> (out: usize)
        ensures
            out == self@.secondary_score(),
    {
        let a = plan_length(&self.first);
        let b = plan_length(&self.second);
        if a >= b {
            a
        } else {
            b
        }
    }

    /// The two agents.
    pub fn uids(&self) -> (out: (Pair, Pair))
        ensures
            out == (self.conflict.0.uid, self.conflict.1.uid),
    {
        self.conflict.uids()
    }

    /// Whether this exploration goes before `other`.
    pub fn goes_before(&self, other: &Exploration) -> (out: bool)
        ensures
            out == self@.better(other@),
    {
        let mine = self.score();
        let theirs = other.score();
        mine > theirs || (mine == theirs && self.secondary_score() < other.secondary_score())
    }

    /// Whether it is between the two agents of `other`.
    pub fn same_pair(&self, other: &Exploration) -> (out: bool)
        ensures
            out == same_agents(self.conflict, other.conflict),
    {
        let mine = self.uids();
        let theirs = other.uids();
        (mine.0 == theirs.0 && mine.1 == theirs.1) || (mine.0 == theirs.1 && mine.1 == theirs.0)
    }

    /// A copy.
    pub fn duplicate(&self) -> (out: Exploration)
        ensures
            out@ == self@,
    {
        Exploration {
            conflict: self.conflict,
            first: clone_plan(&self.first),
            second: clone_plan(&self.second),
        }
    }
}

/// The index of the first of `chosen` that is between the agents of `e`; the length of
/// `chosen` if none is.
pub fn rival(chosen: &Vec<Exploration>, e: &Exploration) -> (out: usize)
    ensures
        out == spec_rival(explorations_view(chosen@), e@),
        out <= chosen.len(),
{
    let mut i: usize = 0;
    proof {
        assert(explorations_view(chosen@).take(0).len() == 0);
    }
    while i < chosen.len()
        invariant
            0 <= i <= chosen.len(),
            spec_rival(explorations_view(chosen@).take(i as int), e@) == i,
        decreases chosen.len() - i,
    {
        proof {
            let all = explorations_view(chosen@);
            assert(all.take(i + 1).drop_last() =~= all.take(i as int));
            assert(all.take(i + 1).last() == chosen@[i as int]@);
        }
        if chosen[i].same_pair(e) {
            proof {
                let all = explorations_view(chosen@);
                assert(spec_rival(all.take(i + 1), e@) == i);
                lemma_rival_found(all, e@, i as int, chosen.len() as int);
                assert(all.take(chosen@.len() as int) =~= all);
            }
            return i;
        }
        i += 1;
    }
    proof {
        assert(explorations_view(chosen@).take(chosen@.len() as int) =~= explorations_view(
            chosen@,
        ));
    }
    i
}

/// A rival among the first explorations is the rival among all of them.
pub proof fn lemma_rival_found(chosen: Seq<ExplorationView>, e: ExplorationView, i: int, n: int)
    requires
        0 <= i < n <= chosen.len(),
        spec_rival(chosen.take(i + 1), e) == i,
    ensures
        spec_rival(chosen.take(n), e) == i,
    decreases n,
{
    if n > i + 1 {
        lemma_rival_found(chosen, e, i, n - 1);
        assert(chosen.take(n).drop_last() =~= chosen.take(n - 1));
    }
}

/// Where `e` is put into `sorted`.
pub fn slot(sorted: &Vec<Exploration>, e: &Exploration) -> (out: usize)
    ensures
        out == spec_slot(explorations_view(sorted@), e@),
        out <= sorted.len(),
{
    let mut pos: usize = sorted.len();
    proof {
        assert(explorations_view(sorted@).take(pos as int) =~= explorations_view(sorted@));
    }
    while pos > 0 && e.goes_before(&sorted[pos - 1])
        invariant
            0 <= pos <= sorted.len(),
            spec_slot(explorations_view(sorted@), e@) == spec_slot(
                explorations_view(sorted@).take(pos as int),
                e@,
            ),
        decreases pos,
    {
        proof {
            let all = explorations_view(sorted@);
            assert(all.take(pos as int).drop_last() =~= all.take(pos - 1));
            assert(all.take(pos as int).last() == sorted@[pos - 1]@);
        }
        pos -= 1;
    }
    proof {
        let all = explorations_view(sorted@);
        if pos > 0 {
            assert(all.take(pos as int).last() == sorted@[pos - 1]@);
        }
    }
    pos
}

/// For each two agents the best exploration between them that is not hopeless, the better
/// explorations first.
#[verifier::rlimit(40)]
pub fn prioritize(explorations: Vec<Exploration>) -> (out: Vec<Exploration>)
    ensures
        explorations_view(out@) == spec_prioritize(explorations_view(explorations@)),
        crate::ranking::in_order(explorations_view(out@)),
        crate::ranking::one_per_pair(explorations_view(out@)),
        forall|i: int|
            0 <= i < explorations@.len() && !(#[trigger] explorations_view(
                explorations@,
            )[i]).hopeless() ==> crate::ranking::matched_in(
                spec_prioritize(explorations_view(explorations@)),
                explorations_view(explorations@)[i],
            ),
{
    let ghost list = explorations_view(explorations@);
    proof {
        crate::ranking::lemma_prioritize(list);
        assert forall|i: int| 0 <= i < list.len() && !(#[trigger] list[i]).hopeless() implies crate::ranking::matched_in(
            spec_prioritize(list),
            list[i],
        ) by {
            crate::ranking::lemma_prioritize_best(list, i);
        }
    }
    let mut kept: Vec<Exploration> = Vec::new();
    let mut k: usize = 0;
    proof {
        assert(explorations_view(kept@) =~= spec_kept(list, 0));
    }
    while k < explorations.len()
        invariant
            0 <= k <= explorations.len(),
            list == explorations_view(explorations@),
            explorations_view(kept@) == spec_kept(list, k as int),
        decreases explorations.len() - k,
    {
        let exploration = &explorations[k];
        let ghost before = explorations_view(kept@);
        proof {
            assert(list[k as int] == exploration@);
        }
        if !(exploration.first.is_none() && exploration.second.is_none()) {
            let at = rival(&kept, exploration);
            if at < kept.len() {
                if exploration.goes_before(&kept[at]) {
                    kept.set(at, exploration.duplicate());
                    proof {
                        assert(explorations_view(kept@) =~= before.update(
                            at as int,
                            exploration@,
                        ));
                    }
                }
            } else {
                kept.push(exploration.duplicate());
                proof {
                    assert(explorations_view(kept@) =~= before.push(exploration@));
                }
            }
        }
        k += 1;
    }
    let ghost chosen = explorations_view(kept@);
    let mut out: Vec<Exploration> = Vec::new();
    let mut k: usize = 0;
    proof {
        assert(explorations_view(out@) =~= spec_sorted(chosen, 0));
    }
    while k < kept.len()
        invariant
            0 <= k <= kept.len(),
            chosen == explorations_view(kept@),
            chosen == spec_kept(list, list.len() as int),
            explorations_view(out@) == spec_sorted(chosen, k as int),
        decreases kept.len() - k,
    {
        let exploration = kept[k].duplicate();
        let ghost before = explorations_view(out@);
        let at = slot(&out, &exploration);
        out.insert(at, exploration);
        proof {
            assert(chosen[k as int] == exploration@);
            assert(explorations_view(out@) =~= before.insert(at as int, exploration@));
        }
        k += 1;
    }
    out
}

/// Whether the agent is among those seen.
pub fn is_seen(seen: &Vec<Pair>, uid: Pair) -> (out: bool)
    ensures
        out == seen@.contains(uid),
{
    let mut i: usize = 0;
    while i < seen.len()
        invariant
            0 <= i <= seen.len(),
            forall|j: int| 0 <= j < i ==> seen@[j] != uid,
        decreases seen.len() - i,
    {
        if seen[i] == uid {
            return true;
        }
        i += 1;
    }
    false
}

/// At most `batch` of the prioritized explorations, no two of which name the same agent,
/// each taken as early as that allows.
pub fn greedy_choices(explorations: Vec<Exploration>, batch: usize) -> (out: Vec<Exploration>)
    ensures
        explorations_view(out@) == spec_greedy(explorations_view(explorations@), batch),
        crate::ranking::agents_apart(explorations_view(out@)),
        out@.len() <= batch,
        forall|i: int|
            0 <= i < spec_prioritize(explorations_view(explorations@)).len()
                ==> crate::ranking::accounted_in(
                spec_greedy(explorations_view(explorations@), batch),
                batch,
                #[trigger] spec_prioritize(explorations_view(explorations@))[i],
            ),
{
    proof {
        let all = explorations_view(explorations@);
        crate::ranking::lemma_greedy_apart(all, batch);
        assert forall|i: int| 0 <= i < spec_prioritize(all).len() implies crate::ranking::accounted_in(
            spec_greedy(all, batch),
            batch,
            #[trigger] spec_prioritize(all)[i],
        ) by {
            crate::ranking::lemma_greedy_full(all, batch, i);
        }
    }
    let ranked = prioritize(explorations);
    let ghost list = explorations_view(ranked@);
    let mut out: Vec<Exploration> = Vec::new();
    let mut seen: Vec<Pair> = Vec::new();
    let mut k: usize = 0;
    proof {
        assert(explorations_view(out@) =~= spec_choose(list, 0, batch).0);
    }
    while k < ranked.len()
        invariant
            0 <= k <= ranked.len(),
            list == explorations_view(ranked@),
            (explorations_view(out@), seen@) == spec_choose(list, k as int, batch),
        decreases ranked.len() - k,
    {
        let exploration = &ranked[k];
        let uids = exploration.uids();
        let ghost before = explorations_view(out@);
        proof {
            assert(list[k as int] == exploration@);
        }
        if out.len() < batch && !(is_seen(&seen, uids.0) || is_seen(&seen, uids.1)) {
            out.push(exploration.duplicate());
            seen.push(uids.0);
            seen.push(uids.1);
            proof {
                assert(explorations_view(out@) =~= before.push(exploration@));
            }
        }
        k += 1;
    }
    out
}

} // verus!
