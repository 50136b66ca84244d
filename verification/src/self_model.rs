//! SelfMemory: an experience memory that strips the other agent's marker
//! (color 2) from every grid before it stores or looks anything up, so that it
//! deduplicates and retrieves on the agent's own position alone.
use vstd::prelude::*;
use crate::grid::{Grid, GridModel, strip_model, strip_row};
use crate::memory::{
    ExperienceMemory, MemoryModel, TupleModel, can_store, comparable_for, common_answer, exact_answer,
    memory_run, opt_model, outcome_totals_fit, pair_total, retrieve_answer, store_model,
};

verus! {

/// Every grid stored in the memory is free of `color`.
pub open spec fn all_stripped(s: Seq<TupleModel>, color: u8) -> bool {
    forall|i: int|
        0 <= i < s.len() ==> strip_model(#[trigger] s[i].1, color) == s[i].1 && strip_model(
            s[i].2,
            color,
        ) == s[i].2
}

/// An experience memory that stores states with the other agent stripped out.
pub struct SelfMemory {
    inner: ExperienceMemory,
    strip_color: u8,
}

/// Stripping a color twice is the same as stripping it once.
pub proof fn law_strip_idempotent(g: GridModel, color: u8)
    ensures
        strip_model(strip_model(g, color), color) == strip_model(g, color),
{
    let once = strip_model(g, color);
    let twice = strip_model(once, color);
    assert(forall|r: int| 0 <= r < g.2.len() ==> #[trigger] twice.2[r] == once.2[r]);
}

/// No cell of the grid holds `color`.
pub open spec fn free_of(g: GridModel, color: u8) -> bool {
    forall|r: int, c: int| 0 <= r < g.2.len() && 0 <= c < g.2[r].len() ==> #[trigger] g.2[r][c] != color
}

/// Stripping a color that the grid does not hold changes nothing.
pub proof fn law_strip_absent_color(g: GridModel, color: u8)
    requires
        free_of(g, color),
    ensures
        strip_model(g, color) == g,
{
    let h = strip_model(g, color);
    assert forall|r: int| 0 <= r < g.2.len() implies #[trigger] h.2[r] == g.2[r] by {
        assert(strip_row(g.2[r], color) =~= g.2[r]);
    }
    assert(h.2 =~= g.2);
}

/// A self memory created empty and then given `calls` in order.
pub open spec fn self_run(calls: Seq<(u8, GridModel, GridModel)>) -> MemoryModel
    decreases calls.len(),
{
    if calls.len() == 0 {
        (Seq::empty(), 0)
    } else {
        let c = calls.last();
        store_model(self_run(calls.drop_last()), c.0, strip_model(c.1, 2), strip_model(c.2, 2))
    }
}

/// Without the other agent in any stored grid, a self memory is a plain
/// experience memory: given the same calls, it holds the same tuples and
/// store count (and its queries, stripped, are the plain ones when the
/// queried grid does not show the other agent either; see `law_strip_absent_color`).
pub proof fn law_self_memory_runs_as_plain(calls: Seq<(u8, GridModel, GridModel)>)
    requires
        forall|i: int| 0 <= i < calls.len() ==> free_of((#[trigger] calls[i]).1, 2) && free_of(calls[i].2, 2),
    ensures
        self_run(calls) == memory_run(calls),
    decreases calls.len(),
{
    if calls.len() > 0 {
        let prev = calls.drop_last();
        assert forall|i: int| 0 <= i < prev.len() implies free_of((#[trigger] prev[i]).1, 2) && free_of(prev[i].2, 2) by {
            assert(prev[i] == calls[i]);
        }
        law_self_memory_runs_as_plain(prev);
        let c = calls.last();
        assert(calls[calls.len() - 1] == c);
        law_strip_absent_color(c.1, 2);
        law_strip_absent_color(c.2, 2);
    }
}

impl SelfMemory {
    /// The underlying memory's contents.
    pub closed spec fn view(&self) -> MemoryModel {
        self.inner.view()
    }

    /// The inner memory is well formed, the stripped color is the other
    /// agent's, and no stored grid holds it.
    pub closed spec fn wf(&self) -> bool {
        &&& self.inner.wf()
        &&& self.strip_color == 2
        &&& all_stripped(self.inner.view().0, 2)
    }

    /// An empty memory.
    pub fn new() -> (m: SelfMemory)
        ensures
            m.wf(),
            m.view() == (Seq::<TupleModel>::empty(), 0u64),
    {
        SelfMemory { inner: ExperienceMemory::new(), strip_color: 2 }
    }

    /// Store an experience with other-agent markers stripped.
    pub fn store(&mut self, action: u8, state_before: Grid, state_after: Grid)
        requires
            old(self).wf(),
            can_store(old(self).view(), action, strip_model(state_before@, 2), strip_model(state_after@, 2)),
        ensures
            final(self).wf(),
            final(self).view() == store_model(
                old(self).view(),
                action,
                strip_model(state_before@, 2),
                strip_model(state_after@, 2),
            ),
    {
        let sb = state_before.strip_color(self.strip_color);
        let sa = state_after.strip_color(self.strip_color);
        proof {
            law_strip_idempotent(state_before@, 2);
            law_strip_idempotent(state_after@, 2);
        }
        self.inner.store(action, sb, sa);
    }

    /// Retrieve: strips the query, then exact match with approximate fallback.
    pub fn retrieve(&self, action: u8, state_before: &Grid) -> (r: Option<&Grid>)
        requires
            self.wf(),
            exact_answer(self.view().0, action, strip_model(state_before@, 2)) is None
                ==> comparable_for(self.view().0, action, strip_model(state_before@, 2)),
        ensures
            opt_model(r) == retrieve_answer(self.view().0, action, strip_model(state_before@, 2)),
    {
        let sq = state_before.strip_color(self.strip_color);
        self.inner.retrieve(action, &sq)
    }

    /// Familiarity of the stripped state.
    pub fn familiarity(&self, action: u8, state_before: &Grid) -> (f: u32)
        requires
            self.wf(),
            pair_total(self.view().0, action, strip_model(state_before@, 2)) <= u32::MAX,
        ensures
            f == pair_total(self.view().0, action, strip_model(state_before@, 2)),
    {
        let sq = state_before.strip_color(self.strip_color);
        self.inner.familiarity(action, &sq)
    }

    /// Most common outcome for this action (ignores the state before).
    pub fn most_common_outcome(&self, action: u8) -> (r: Option<&Grid>)
        requires
            self.wf(),
            outcome_totals_fit(self.view().0, action),
        ensures
            opt_model(r) == common_answer(self.view().0, action),
    {
        self.inner.most_common_outcome(action)
    }

    /// Number of distinct experiences.
    pub fn unique_count(&self) -> (n: usize)
        ensures
            n == self.view().0.len(),
    {
        self.inner.unique_count()
    }

    /// Number of `store` calls.
    pub fn total_stores(&self) -> (n: u64)
        ensures
            n == self.view().1,
    {
        self.inner.total_stores()
    }

    /// No grid in the self-memory shows the other agent.
    pub proof fn law_no_other_stored(&self)
        requires
            self.wf(),
        ensures
            all_stripped(self.view().0, 2),
    {
    }
}

} // verus!
