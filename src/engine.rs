use vstd::prelude::*;
use crate::flags::MultiFlag;
use crate::graph::{
    FlagGraph, GraphView, locs_unique, edges_match, supply_view, supply_wf, supply_sum, supply_of, registry_wf, state_wf,
    graph_total, is_leaf, legal, compatible_side, find_supply,
};
use crate::index::EdgeData;
use crate::search::{successor, add_next_states};
use crate::sides::Sides;

verus! {

/// What one step of the search did.
#[derive(Debug, Clone, Copy, PartialEq, Eq, Structural)]
pub enum StepOutcome {
    /// The work queue was empty; nothing changed.
    Exhausted,
    /// A state was expanded and the best result stayed as it was.
    Expanded,
    /// A state with no successor and more placements than any before it
    /// became the best result.
    NewBest,
}

/// Depth-first randomized exploration of placements, with periodic restarts
/// from the seed and the best leaf found so far.
pub struct SearchEngine {
    pub multi_flags: Vec<MultiFlag>,
    pub edge_data: EdgeData,
    pub seed: FlagGraph,
    pub next_states: Vec<FlagGraph>,
    pub best: Option<FlagGraph>,
    pub expansions: u64,
    pub restart_threshold: u64,
}

/// `g` is a well-formed state of a run whose seed is `seed`.
pub open spec fn in_run(g: GraphView, reg: Seq<MultiFlag>, seed: GraphView) -> bool {
    state_wf(g, reg) && graph_total(g) == graph_total(seed)
}

/// After a step on `pre`, the last queued state was replaced by its
/// successors, appended at the back (none exactly when it is a leaf).
pub open spec fn expanded(pre: &SearchEngine, post: &SearchEngine) -> bool {
    let q = pre.next_states@;
    let q2 = post.next_states@;
    let s = q.last();
    &&& q2.len() >= q.len() - 1
    &&& forall|i: int| 0 <= i < q.len() - 1 ==> #[trigger] q2[i] == q[i]
    &&& forall|i: int| q.len() - 1 <= i < q2.len() ==> successor(s@, #[trigger] q2[i]@, pre.multi_flags@)
    &&& (q2.len() == q.len() - 1) == is_leaf(s@, pre.multi_flags@)
}

/// After a step on `pre`, the search restarted: the queue holds the
/// successors of the seed and the expansion count is zero.
pub open spec fn restarted(pre: &SearchEngine, post: &SearchEngine) -> bool {
    let q2 = post.next_states@;
    &&& post.expansions == 0
    &&& forall|i: int| 0 <= i < q2.len() ==> successor(pre.seed@, #[trigger] q2[i]@, pre.multi_flags@)
    &&& (q2.len() == 0) == is_leaf(pre.seed@, pre.multi_flags@)
}

/// Going from `pre` to `post` loses no best result and lowers no best count.
pub open spec fn best_kept(pre: &SearchEngine, post: &SearchEngine) -> bool {
    &&& pre.best_count() <= post.best_count()
    &&& pre.best is Some ==> post.best is Some
}

/// The expansion count after one more expansion, saturating.
pub open spec fn bumped(n: u64) -> int {
    if n < u64::MAX { n + 1 } else { n as int }
}

impl SearchEngine {
    /// The invariant of every engine: queued states and the best result are
    /// well-formed states of the same run, and the best result is a leaf.
    pub open spec fn wf(&self) -> bool {
        &&& registry_wf(self.multi_flags@)
        &&& self.edge_data.wf(self.multi_flags@)
        &&& state_wf(self.seed@, self.multi_flags@)
        &&& forall|i: int| 0 <= i < self.next_states@.len()
            ==> in_run(#[trigger] self.next_states@[i]@, self.multi_flags@, self.seed@)
        &&& self.best matches Some(b) ==> in_run(b@, self.multi_flags@, self.seed@) && is_leaf(b@, self.multi_flags@)
    }

    /// The placed count of the best result, zero while there is none.
    pub open spec fn best_count(&self) -> nat {
        match self.best {
            Some(b) => b.idx as nat,
            None => 0,
        }
    }

    /// Builds the engine for MultiFlags `multi_flags` with initial supply
    /// `supply`: the seed is MultiFlag `seed_id` at the origin, and the work
    /// queue holds its successors; a seed without successor is at once the
    /// best result. `None` when `seed_id` names no MultiFlag
    /// or has no supply.
    pub fn new(multi_flags: Vec<MultiFlag>, supply: Vec<(String, u32)>, seed_id: &String, restart_threshold: u64) -> (r: Option<SearchEngine>)
        requires
            registry_wf(multi_flags@),
            supply_wf(supply_view(supply@)),
            supply_sum(supply_view(supply@)) <= u32::MAX,
        ensures
            r is None <==> !(supply_of(supply_view(supply@), seed_id@) > 0
                && exists|k: int| 0 <= k < multi_flags@.len() && #[trigger] multi_flags@[k].id@ == seed_id@),
            r matches Some(e) ==> {
                &&& e.wf()
                &&& e.multi_flags@ == multi_flags@
                &&& e.expansions == 0
                &&& e.restart_threshold == restart_threshold
                &&& e.seed@.cells == seq![((0i32, 0i32), seed_id@)]
                &&& graph_total(e.seed@) == supply_sum(supply_view(supply@))
                &&& forall|x: Seq<char>| #[trigger] supply_of(e.seed@.supply, x) == supply_of(supply_view(supply@), x) - (if x == seed_id@ { 1int } else { 0int })
                &&& forall|i: int| 0 <= i < e.next_states@.len() ==> successor(e.seed@, #[trigger] e.next_states@[i]@, e.multi_flags@)
                &&& (e.next_states@.len() == 0) == is_leaf(e.seed@, e.multi_flags@)
                &&& e.best is Some <==> is_leaf(e.seed@, e.multi_flags@)
                &&& e.best matches Some(b) ==> b@ == e.seed@
            },
    {
        let k = match crate::search::find_flag(&multi_flags, seed_id) {
            Some(k) => k,
            None => {
                return None;
            },
        };
        let avail = find_supply(&supply, seed_id);
        if avail.is_none() {
            return None;
        }
        proof {
            crate::graph::lemma_supply_view(supply@);
            if let Some(si) = avail {
                assert(supply_view(supply@)[si as int].1 >= 1);
            }
            crate::graph::lemma_supply_le_sum(supply_view(supply@), seed_id@);
        }
        let edge_data = EdgeData::build(&multi_flags);
        let empty = FlagGraph { graph: Vec::new(), remaining_flags: supply, idx: 0 };
        proof {
            crate::graph::lemma_cells_view(empty.graph@);
            assert(empty@.cells.len() == 0);
            assert(state_wf(empty@, multi_flags@));
            assert forall|s: Sides| #[trigger] compatible_side(empty@.cells, multi_flags@, (0i32, 0i32), s, multi_flags@[k as int].sig(s)) by {}
            assert(legal(empty@, multi_flags@, (0i32, 0i32), k as int));
        }
        let seed = empty.place(&multi_flags, (0, 0), k);
        let mut next_states: Vec<FlagGraph> = Vec::new();
        let n = add_next_states(&seed, &mut next_states, &edge_data, &multi_flags);
        let best = if n == 0 { Some(seed.clone_graph()) } else { None };
        let e = SearchEngine { multi_flags, edge_data, seed, next_states, best, expansions: 0, restart_threshold };
        proof {
            assert(e.seed@.cells == seq![((0i32, 0i32), seed_id@)]);
            assert forall|i: int| 0 <= i < e.next_states@.len() implies in_run(#[trigger] e.next_states@[i]@, e.multi_flags@, e.seed@) by {
                assert(successor(e.seed@, e.next_states@[i]@, e.multi_flags@));
            }
        }
        Some(e)
    }

    /// Discards the work queue and refills it with the successors of the
    /// seed; the best result is kept.
    pub fn restart(&mut self)
        requires
            old(self).wf(),
        ensures
            final(self).wf(),
            final(self).best == old(self).best,
            best_kept(old(self), final(self)),
            final(self).multi_flags == old(self).multi_flags,
            final(self).seed == old(self).seed,
            final(self).restart_threshold == old(self).restart_threshold,
            final(self).expansions == 0,
            forall|i: int| 0 <= i < final(self).next_states@.len()
                ==> successor(final(self).seed@, #[trigger] final(self).next_states@[i]@, final(self).multi_flags@),
            (final(self).next_states@.len() == 0) == is_leaf(final(self).seed@, final(self).multi_flags@),
    {
        self.next_states = Vec::new();
        let _ = add_next_states(&self.seed, &mut self.next_states, &self.edge_data, &self.multi_flags);
        self.expansions = 0;
        proof {
            assert forall|i: int| 0 <= i < self.next_states@.len() implies in_run(#[trigger] self.next_states@[i]@, self.multi_flags@, self.seed@) by {
                assert(successor(self.seed@, self.next_states@[i]@, self.multi_flags@));
            }
        }
    }

    /// Expands the most recently queued state. A state with no successor
    /// replaces the best result when it has strictly more placements (and
    /// then the expansion count starts again); otherwise the expansion is
    /// counted, and reaching the restart threshold restarts the search.
    pub fn step(&mut self) -> (r: StepOutcome)
        requires
            old(self).wf(),
        ensures
            final(self).wf(),
            final(self).multi_flags == old(self).multi_flags,
            final(self).seed == old(self).seed,
            final(self).restart_threshold == old(self).restart_threshold,
            best_kept(old(self), final(self)),
            (r == StepOutcome::NewBest) == (final(self).best != old(self).best),
            r == StepOutcome::NewBest ==> old(self).best_count() < final(self).best_count() || old(self).best is None,
            (r == StepOutcome::Exhausted) == (old(self).next_states@.len() == 0),
            r == StepOutcome::Exhausted ==> *final(self) == *old(self),
            r == StepOutcome::NewBest ==> final(self).best == Some(old(self).next_states@.last()) && final(self).expansions == 0,
            r == StepOutcome::NewBest ==> expanded(old(self), final(self)),
            r == StepOutcome::Expanded && bumped(old(self).expansions) >= old(self).restart_threshold
                ==> restarted(old(self), final(self)),
            r == StepOutcome::Expanded && bumped(old(self).expansions) < old(self).restart_threshold
                ==> expanded(old(self), final(self)) && final(self).expansions == bumped(old(self).expansions),
    {
        if self.next_states.len() == 0 {
            return StepOutcome::Exhausted;
        }
        let ghost pre = *self;
        let s = match self.next_states.pop() {
            Some(s) => s,
            None => {
                return StepOutcome::Exhausted;
            },
        };
        let ghost queued = self.next_states@;
        assert(s == pre.next_states@.last());
        assert(queued == pre.next_states@.drop_last());
        assert(in_run(s@, self.multi_flags@, self.seed@));
        let n = add_next_states(&s, &mut self.next_states, &self.edge_data, &self.multi_flags);
        proof {
            assert forall|i: int| 0 <= i < self.next_states@.len() implies in_run(#[trigger] self.next_states@[i]@, self.multi_flags@, self.seed@) by {
                if i < queued.len() {
                    assert(self.next_states@[i] == queued[i]);
                } else {
                    assert(successor(s@, self.next_states@[i]@, self.multi_flags@));
                }
            }
        }
        let ghost grown = self.next_states@;
        assert(grown.len() >= pre.next_states@.len() - 1);
        assert forall|i: int| 0 <= i < pre.next_states@.len() - 1 implies #[trigger] grown[i] == pre.next_states@[i] by {
            assert(grown[i] == queued[i]);
        }
        assert(expanded(&pre, self));
        let mut outcome = StepOutcome::Expanded;
        if n == 0 {
            let better = match &self.best {
                None => true,
                Some(b) => b.idx < s.idx,
            };
            if better {
                self.best = Some(s);
                self.expansions = 0;
                outcome = StepOutcome::NewBest;
            }
        }
        if outcome != StepOutcome::NewBest {
            if self.expansions < u64::MAX {
                self.expansions = self.expansions + 1;
            }
            if self.expansions >= self.restart_threshold {
                self.restart();
            }
        }
        outcome
    }
}

/// Conservation: in every state of a run (queued, or kept as best), the
/// placed count plus the remaining supply equals the seed's total, which is
/// the initial supply.
pub proof fn lemma_conservation(e: &SearchEngine, i: int)
    requires
        e.wf(),
        0 <= i < e.next_states@.len(),
    ensures
        e.next_states@[i].idx + supply_sum(e.next_states@[i]@.supply) == graph_total(e.seed@),
        e.best matches Some(b) ==> b.idx + supply_sum(b@.supply) == graph_total(e.seed@),
{
    assert(in_run(e.next_states@[i]@, e.multi_flags@, e.seed@));
}

/// Uniqueness: no state of a run has two placements on one coordinate, and
/// its placed count is its number of placements.
pub proof fn lemma_unique_coordinates(e: &SearchEngine, i: int)
    requires
        e.wf(),
        0 <= i < e.next_states@.len(),
    ensures
        locs_unique(e.next_states@[i]@.cells),
        e.next_states@[i].idx == e.next_states@[i]@.cells.len(),
        e.best matches Some(b) ==> locs_unique(b@.cells) && b.idx == b@.cells.len(),
{
    assert(in_run(e.next_states@[i]@, e.multi_flags@, e.seed@));
}

/// Edge compatibility: in every state of a run, two placements on adjacent
/// coordinates expose the same signature toward each other.
pub proof fn lemma_edges_compatible(e: &SearchEngine, i: int)
    requires
        e.wf(),
        0 <= i < e.next_states@.len(),
    ensures
        edges_match(e.next_states@[i]@.cells, e.multi_flags@),
        e.best matches Some(b) ==> edges_match(b@.cells, e.multi_flags@),
{
    assert(in_run(e.next_states@[i]@, e.multi_flags@, e.seed@));
}

/// Best-result monotonicity: along any run of steps and restarts, each of
/// which keeps the best result, the best placed count never decreases.
pub proof fn lemma_best_never_decreases(run: Seq<SearchEngine>, i: int, j: int)
    requires
        forall|k: int| #![trigger run[k]] 0 <= k < run.len() - 1 ==> best_kept(&run[k], &run[k + 1]),
        0 <= i <= j < run.len(),
    ensures
        run[i].best_count() <= run[j].best_count(),
    decreases j - i,
{
    if i < j {
        lemma_best_never_decreases(run, i, j - 1);
        assert(best_kept(&run[j - 1], &run[j]));
    }
}

} // verus!
