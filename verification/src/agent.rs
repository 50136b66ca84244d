//! Stage0Agent: the learner's integer state — its experience memory, the
//! rolling hit windows of its two prediction paths, its action counts — and
//! the dual-path predictions. Path A recalls the outcome of the nearest stored
//! experience; Path B predicts the most common outcome of the action.
use vstd::prelude::*;
use std::collections::VecDeque;
use rand::rngs::StdRng;
use crate::grid::{Grid, GridModel};
use crate::memory::{
    ExperienceMemory, MemoryModel, TupleModel, can_store, common_answer, comparable_for,
    exact_answer, outcome_totals_fit, pair_matches, pair_max, pair_total, retrieve_answer,
    store_model,
};
use crate::random::{draw_below, seeded_rng};

verus! {

/// The stage-0 agent: experience memory, episode count, rolling hit windows
/// of both prediction paths, and how often each action was taken.
pub struct Stage0Agent {
    pub memory: ExperienceMemory,
    pub episode_count: u64,
    pub rng: StdRng,
    n_actions: usize,
    accuracy_window: usize,
    warmup_episodes: u64,
    path_a_hits: Vec<VecDeque<bool>>,
    path_b_hits: Vec<VecDeque<bool>>,
    action_counts: Vec<u64>,
}

/// A rolling window after recording `hit`: the oldest entry leaves once the
/// window holds `w` entries.
pub open spec fn roll(s: Seq<bool>, w: int, hit: bool) -> Seq<bool> {
    (if s.len() >= w && s.len() > 0 { s.drop_first() } else { s }).push(hit)
}

/// Number of hits in a window.
pub open spec fn hits_of(s: Seq<bool>) -> nat
    decreases s.len(),
{
    if s.len() == 0 {
        0
    } else {
        hits_of(s.drop_last()) + (if s.last() { 1nat } else { 0nat })
    }
}

/// Total hits over the first `n` windows.
pub open spec fn total_hits(ws: Seq<Seq<bool>>, n: int) -> nat
    decreases n,
{
    if n <= 0 {
        0
    } else {
        total_hits(ws, n - 1) + hits_of(ws[n - 1])
    }
}

/// Total length of the first `n` windows.
pub open spec fn total_len(ws: Seq<Seq<bool>>, n: int) -> nat
    decreases n,
{
    if n <= 0 {
        0
    } else {
        total_len(ws, n - 1) + ws[n - 1].len()
    }
}

/// The abstract value of each rolling window.
pub open spec fn deques_view(v: Seq<VecDeque<bool>>) -> Seq<Seq<bool>> {
    v.map_values(|d: VecDeque<bool>| d@)
}

/// The largest length a window reaches.
pub open spec fn window_cap(w: int) -> int {
    if w > 1 { w } else { 1 }
}

/// A window holds no more hits than entries.
pub proof fn lemma_hits_bound(s: Seq<bool>)
    ensures
        hits_of(s) <= s.len(),
    decreases s.len(),
{
    if s.len() > 0 {
        lemma_hits_bound(s.drop_last());
    }
}

/// Over the first `n` windows, hits are at most entries, and entries at most `n * cap`.
pub proof fn lemma_totals_bound(ws: Seq<Seq<bool>>, n: int, cap: int)
    requires
        0 <= n <= ws.len(),
        cap >= 0,
        forall|i: int| 0 <= i < ws.len() ==> (#[trigger] ws[i]).len() <= cap,
    ensures
        total_hits(ws, n) <= total_len(ws, n),
        total_len(ws, n) <= n * cap,
    decreases n,
{
    if n > 0 {
        lemma_totals_bound(ws, n - 1, cap);
        lemma_hits_bound(ws[n - 1]);
        assert((n - 1) * cap + cap == n * cap) by (nonlinear_arith);
    }
}

/// Rolling accuracy never exceeds one: a path never has more hits than
/// observations, in any window or over all windows.
pub proof fn law_hits_at_most_observations(ws: Seq<Seq<bool>>, n: int)
    ensures
        total_hits(ws, n) <= total_len(ws, n),
    decreases n,
{
    if n > 0 {
        law_hits_at_most_observations(ws, n - 1);
        lemma_hits_bound(ws[n - 1]);
    }
}

impl Stage0Agent {
    /// The experience memory's contents.
    pub closed spec fn memory_model(&self) -> MemoryModel {
        self.memory.view()
    }

    /// Number of recorded experiences.
    pub closed spec fn episodes_model(&self) -> u64 {
        self.episode_count
    }

    /// Number of actions.
    pub closed spec fn n_actions_model(&self) -> usize {
        self.n_actions
    }

    /// Length of the rolling accuracy windows.
    pub closed spec fn window_model(&self) -> usize {
        self.accuracy_window
    }

    /// Number of warmup episodes.
    pub closed spec fn warmup_model(&self) -> u64 {
        self.warmup_episodes
    }

    /// Path A's rolling hit windows, one per action.
    pub closed spec fn windows_a(&self) -> Seq<Seq<bool>> {
        deques_view(self.path_a_hits@)
    }

    /// Path B's rolling hit windows, one per action.
    pub closed spec fn windows_b(&self) -> Seq<Seq<bool>> {
        deques_view(self.path_b_hits@)
    }

    /// How often each action has been recorded.
    pub closed spec fn counts_model(&self) -> Seq<u64> {
        self.action_counts@
    }

    /// The agent's invariant: a well-formed memory counting its episodes; one
    /// window and one counter per action, each counter at most the episode
    /// count and each window within its length; and room for all windows.
    pub closed spec fn wf(&self) -> bool {
        &&& self.memory.wf()
        &&& self.memory_model().1 == self.episode_count
        &&& self.path_a_hits@.len() == self.n_actions
        &&& self.path_b_hits@.len() == self.n_actions
        &&& self.action_counts@.len() == self.n_actions
        &&& forall|i: int| 0 <= i < self.n_actions ==> #[trigger] self.action_counts@[i] <= self.episode_count
        &&& forall|i: int| 0 <= i < self.n_actions ==> (#[trigger] self.windows_a()[i]).len() <= window_cap(self.accuracy_window as int)
        &&& forall|i: int| 0 <= i < self.n_actions ==> (#[trigger] self.windows_b()[i]).len() <= window_cap(self.accuracy_window as int)
        &&& self.n_actions * window_cap(self.accuracy_window as int) <= usize::MAX
    }

    /// A fresh agent: empty memory and windows, zero counts, the generator seeded by `seed`.
    pub fn new(n_actions: usize, accuracy_window: usize, warmup_episodes: u64, seed: u64) -> (ag: Stage0Agent)
        requires
            n_actions * window_cap(accuracy_window as int) <= usize::MAX,
        ensures
            ag.wf(),
            ag.memory_model() == (Seq::<crate::memory::TupleModel>::empty(), 0u64),
            ag.episodes_model() == 0,
            ag.n_actions_model() == n_actions,
            ag.window_model() == accuracy_window,
            ag.warmup_model() == warmup_episodes,
            ag.windows_a() == Seq::new(n_actions as nat, |i: int| Seq::<bool>::empty()),
            ag.windows_b() == Seq::new(n_actions as nat, |i: int| Seq::<bool>::empty()),
            ag.counts_model() == Seq::new(n_actions as nat, |i: int| 0u64),
    {
        let mut a: Vec<VecDeque<bool>> = Vec::new();
        let mut b: Vec<VecDeque<bool>> = Vec::new();
        let mut c: Vec<u64> = Vec::new();
        let mut i: usize = 0;
        while i < n_actions
            invariant
                i <= n_actions,
                a@.len() == i,
                b@.len() == i,
                c@.len() == i,
                forall|j: int| 0 <= j < i ==> (#[trigger] a@[j])@ == Seq::<bool>::empty(),
                forall|j: int| 0 <= j < i ==> (#[trigger] b@[j])@ == Seq::<bool>::empty(),
                forall|j: int| 0 <= j < i ==> #[trigger] c@[j] == 0,
            decreases n_actions - i,
        {
            a.push(VecDeque::with_capacity(accuracy_window));
            b.push(VecDeque::with_capacity(accuracy_window));
            c.push(0);
            i += 1;
        }
        let ag = Stage0Agent {
            memory: ExperienceMemory::new(),
            episode_count: 0,
            rng: seeded_rng(seed),
            n_actions,
            accuracy_window,
            warmup_episodes,
            path_a_hits: a,
            path_b_hits: b,
            action_counts: c,
        };
        ag
    }

    /// A well-formed agent keeps one window for each path and one counter per
    /// action, every window no longer than the accuracy window (at least one).
    pub proof fn lemma_shape(&self)
        requires
            self.wf(),
        ensures
            self.windows_a().len() == self.n_actions_model(),
            self.windows_b().len() == self.n_actions_model(),
            self.counts_model().len() == self.n_actions_model(),
            forall|i: int| 0 <= i < self.n_actions_model() ==> (#[trigger] self.windows_a()[i]).len()
                <= window_cap(self.window_model() as int),
            forall|i: int| 0 <= i < self.n_actions_model() ==> (#[trigger] self.windows_b()[i]).len()
                <= window_cap(self.window_model() as int),
    {
    }

    /// Whether the agent is still in its warm-up (uniformly random actions).
    pub fn in_warmup(&self) -> (w: bool)
        ensures
            w == (self.episodes_model() < self.warmup_model()),
    {
        self.episode_count < self.warmup_episodes
    }

    /// A warm-up action: drawn uniformly among the actions.
    pub fn random_action(&mut self) -> (a: u8)
        requires
            old(self).wf(),
            0 < old(self).n_actions_model() <= 255,
        ensures
            a < old(self).n_actions_model(),
            final(self).memory_model() == old(self).memory_model(),
            final(self).episodes_model() == old(self).episodes_model(),
            final(self).wf(),
            final(self).n_actions_model() == old(self).n_actions_model(),
            final(self).window_model() == old(self).window_model(),
            final(self).warmup_model() == old(self).warmup_model(),
            final(self).windows_a() == old(self).windows_a(),
            final(self).windows_b() == old(self).windows_b(),
            final(self).counts_model() == old(self).counts_model(),
    {
        let a = draw_below(&mut self.rng, self.n_actions as u8);
        assert(self.windows_a() == old(self).windows_a());
        assert(self.windows_b() == old(self).windows_b());
        a
    }

    /// Familiarity of each action in `state`: how often it was taken there.
    pub fn familiarity_scores(&self, state: &Grid) -> (f: Vec<u32>)
        requires
            self.wf(),
            self.n_actions_model() <= 256,
            forall|a: int| 0 <= a < self.n_actions_model() ==> #[trigger] pair_total(self.memory_model().0, a as u8, state@) <= u32::MAX,
        ensures
            f@.len() == self.n_actions_model(),
            forall|a: int| 0 <= a < self.n_actions_model() ==> #[trigger] f@[a] == pair_total(self.memory_model().0, a as u8, state@),
    {
        let mut f: Vec<u32> = Vec::new();
        let mut a: usize = 0;
        while a < self.n_actions
            invariant
                self.wf(),
                self.n_actions_model() <= 256,
                forall|x: int| 0 <= x < self.n_actions_model() ==> #[trigger] pair_total(self.memory_model().0, x as u8, state@) <= u32::MAX,
                a <= self.n_actions,
                f@.len() == a,
                forall|x: int| 0 <= x < a ==> #[trigger] f@[x] == pair_total(self.memory_model().0, x as u8, state@),
            decreases self.n_actions - a,
        {
            let v = self.memory.familiarity(a as u8, state);
            f.push(v);
            a += 1;
        }
        f
    }

    /// Path A prediction: memory recall, exact first, then nearest.
    pub fn predict_path_a(&self, action: u8, state: &Grid) -> (p: Option<Grid>)
        requires
            self.wf(),
            exact_answer(self.memory_model().0, action, state@) is None ==> comparable_for(
                self.memory_model().0,
                action,
                state@,
            ),
        ensures
            opt_grid(p) == retrieve_answer(self.memory_model().0, action, state@),
    {
        match self.memory.retrieve(action, state) {
            Some(g) => Some(g.clone()),
            None => None,
        }
    }

    /// The agent's model of one step, as the planner uses it: Path A recall.
    pub fn predict_for_planning(&self, action: u8, state: &Grid) -> (p: Option<Grid>)
        requires
            self.wf(),
            exact_answer(self.memory_model().0, action, state@) is None ==> comparable_for(
                self.memory_model().0,
                action,
                state@,
            ),
        ensures
            opt_grid(p) == retrieve_answer(self.memory_model().0, action, state@),
    {
        self.predict_path_a(action, state)
    }

    /// Path B prediction: the most common outcome of this action.
    pub fn predict_path_b(&self, action: u8) -> (p: Option<Grid>)
        requires
            self.wf(),
            outcome_totals_fit(self.memory_model().0, action),
        ensures
            opt_grid(p) == common_answer(self.memory_model().0, action),
    {
        match self.memory.most_common_outcome(action) {
            Some(g) => Some(g.clone()),
            None => None,
        }
    }

    /// Record an experience: store it, count the action, and roll both paths'
    /// hit windows for that action. Actions outside the agent's range are
    /// stored but not counted.
    pub fn record(&mut self, action: u8, state_before: Grid, state_after: Grid, path_a_hit: bool, path_b_hit: bool)
        requires
            old(self).wf(),
            old(self).episodes_model() < u64::MAX,
            can_store(old(self).memory_model(), action, state_before@, state_after@),
        ensures
            final(self).wf(),
            final(self).memory_model() == store_model(old(self).memory_model(), action, state_before@, state_after@),
            final(self).episodes_model() == old(self).episodes_model() + 1,
            final(self).n_actions_model() == old(self).n_actions_model(),
            final(self).window_model() == old(self).window_model(),
            final(self).warmup_model() == old(self).warmup_model(),
            final(self).windows_a().len() == final(self).n_actions_model(),
            final(self).windows_b().len() == final(self).n_actions_model(),
            final(self).counts_model().len() == final(self).n_actions_model(),
            (action as int) < old(self).n_actions_model() ==> {
                &&& final(self).counts_model() == old(self).counts_model().update(action as int, (old(self).counts_model()[action as int] + 1) as u64)
                &&& final(self).windows_a() == old(self).windows_a().update(action as int, roll(old(self).windows_a()[action as int], old(self).window_model() as int, path_a_hit))
                &&& final(self).windows_b() == old(self).windows_b().update(action as int, roll(old(self).windows_b()[action as int], old(self).window_model() as int, path_b_hit))
            },
            (action as int) >= old(self).n_actions_model() ==> {
                &&& final(self).counts_model() == old(self).counts_model()
                &&& final(self).windows_a() == old(self).windows_a()
                &&& final(self).windows_b() == old(self).windows_b()
            },
    {
        self.memory.store(action, state_before, state_after);
        let a = action as usize;
        if a < self.n_actions {
            let c = self.action_counts[a];
            self.action_counts[a] = c + 1;
            let window = self.accuracy_window;
            let ghost wa = self.windows_a()[a as int];
            if self.path_a_hits[a].len() >= window {
                self.path_a_hits[a].pop_front();
            }
            self.path_a_hits[a].push_back(path_a_hit);
            let ghost wb = self.windows_b()[a as int];
            if self.path_b_hits[a].len() >= window {
                self.path_b_hits[a].pop_front();
            }
            self.path_b_hits[a].push_back(path_b_hit);
            proof {
                assert(self.windows_a() =~= old(self).windows_a().update(a as int, roll(wa, window as int, path_a_hit)));
                assert(self.windows_b() =~= old(self).windows_b().update(a as int, roll(wb, window as int, path_b_hit)));
            }
        } else {
            assert(self.windows_a() == old(self).windows_a());
            assert(self.windows_b() == old(self).windows_b());
        }
        self.episode_count += 1;
    }

    /// Path A's rolling accuracy over all actions, as (hits, observations).
    pub fn path_a_tally(&self) -> (t: (usize, usize))
        requires
            self.wf(),
        ensures
            t.0 == total_hits(self.windows_a(), self.n_actions_model() as int),
            t.1 == total_len(self.windows_a(), self.n_actions_model() as int),
    {
        assert forall|i: int| 0 <= i < self.path_a_hits@.len() implies (#[trigger] deques_view(self.path_a_hits@)[i]).len() <= window_cap(self.accuracy_window as int) by {
            assert(self.windows_a()[i].len() <= window_cap(self.accuracy_window as int));
        }
        tally(&self.path_a_hits, self.accuracy_window)
    }

    /// Path B's rolling accuracy over all actions, as (hits, observations).
    pub fn path_b_tally(&self) -> (t: (usize, usize))
        requires
            self.wf(),
        ensures
            t.0 == total_hits(self.windows_b(), self.n_actions_model() as int),
            t.1 == total_len(self.windows_b(), self.n_actions_model() as int),
    {
        assert forall|i: int| 0 <= i < self.path_b_hits@.len() implies (#[trigger] deques_view(self.path_b_hits@)[i]).len() <= window_cap(self.accuracy_window as int) by {
            assert(self.windows_b()[i].len() <= window_cap(self.accuracy_window as int));
        }
        tally(&self.path_b_hits, self.accuracy_window)
    }

    /// Path A's rolling accuracy per action, as (hits, observations).
    pub fn path_a_tally_per_action(&self) -> (t: Vec<(usize, usize)>)
        requires
            self.wf(),
        ensures
            t@.len() == self.n_actions_model(),
            forall|i: int| 0 <= i < t@.len() ==> #[trigger] t@[i] == (hits_of(self.windows_a()[i]) as usize, self.windows_a()[i].len() as usize),
    {
        tally_each(&self.path_a_hits, self.accuracy_window)
    }

    /// Path B's rolling accuracy per action, as (hits, observations).
    pub fn path_b_tally_per_action(&self) -> (t: Vec<(usize, usize)>)
        requires
            self.wf(),
        ensures
            t@.len() == self.n_actions_model(),
            forall|i: int| 0 <= i < t@.len() ==> #[trigger] t@[i] == (hits_of(self.windows_b()[i]) as usize, self.windows_b()[i].len() as usize),
    {
        tally_each(&self.path_b_hits, self.accuracy_window)
    }

    /// Prediction confidence of every distinct `(action, state_before)` pair in
    /// memory, as (highest outcome count, total count), in order of first appearance.
    pub fn confidence_tallies(&self) -> (t: Vec<(u32, u32)>)
        requires
            self.wf(),
            forall|i: int| 0 <= i < self.memory_model().0.len() ==> pair_total(
                self.memory_model().0,
                (#[trigger] self.memory_model().0[i]).0,
                self.memory_model().0[i].1,
            ) <= u32::MAX,
        ensures
            t@ == confidence_seq(self.memory_model().0, self.memory_model().0.len() as int),
    {
        let ghost s = self.memory.view().0;
        let tuples = self.memory.iter_tuples();
        let n = tuples.len();
        let mut t: Vec<(u32, u32)> = Vec::new();
        let mut i: usize = 0;
        while i < n
            invariant
                self.wf(),
                s == self.memory.view().0,
                tuples@.map_values(|x: crate::memory::ExperienceTuple| x@) == s,
                forall|k: int| 0 <= k < s.len() ==> pair_total(s, (#[trigger] s[k]).0, s[k].1) <= u32::MAX,
                n == s.len(),
                i <= n,
                t@ == confidence_seq(s, i as int),
            decreases n - i,
        {
            let x = &tuples[i];
            let mut seen = false;
            let mut j: usize = 0;
            while j < i
                invariant
                    tuples@.map_values(|x: crate::memory::ExperienceTuple| x@) == s,
                    n == s.len(),
                    i < n,
                    j <= i,
                    x@ == s[i as int],
                    seen == !(forall|k: int| 0 <= k < j ==> !pair_matches(#[trigger] s[k], s[i as int].0, s[i as int].1)),
                decreases i - j,
            {
                let y = &tuples[j];
                assert(y@ == s[j as int]);
                if y.action == x.action && y.state_before.equals(&x.state_before) {
                    seen = true;
                }
                j += 1;
            }
            if !seen {
                let tally = self.memory.prediction_tally(x.action, &x.state_before);
                t.push(tally);
            }
            i += 1;
        }
        t
    }

    /// How often each action has been recorded.
    pub fn action_counts(&self) -> (c: &Vec<u64>)
        ensures
            c@ == self.counts_model(),
    {
        &self.action_counts
    }

    /// Number of actions the agent chooses among.
    pub fn n_actions(&self) -> (n: usize)
        ensures
            n == self.n_actions_model(),
    {
        self.n_actions
    }
}

/// Tuple `i` is the first stored tuple of its `(action, state_before)` pair.
pub open spec fn first_of_pair(s: Seq<TupleModel>, i: int) -> bool {
    forall|j: int| 0 <= j < i ==> !pair_matches(#[trigger] s[j], s[i].0, s[i].1)
}

/// (highest outcome count, total count) for each distinct `(action, state_before)`
/// pair among the first `n` tuples, in order of first appearance.
pub open spec fn confidence_seq(s: Seq<TupleModel>, n: int) -> Seq<(u32, u32)>
    decreases n,
{
    if n <= 0 {
        Seq::empty()
    } else {
        let prev = confidence_seq(s, n - 1);
        if first_of_pair(s, n - 1) {
            prev.push((pair_max(s, s[n - 1].0, s[n - 1].1) as u32, pair_total(s, s[n - 1].0, s[n - 1].1) as u32))
        } else {
            prev
        }
    }
}

/// The abstract value of an optional grid.
pub open spec fn opt_grid(p: Option<Grid>) -> Option<GridModel> {
    match p {
        Some(g) => Some(g@),
        None => None,
    }
}

/// Number of hits in a window.
fn count_hits(d: &VecDeque<bool>) -> (h: usize)
    ensures
        h == hits_of(d@),
{
    let n = d.len();
    let mut h: usize = 0;
    let mut k: usize = 0;
    while k < n
        invariant
            n == d@.len(),
            k <= n,
            h == hits_of(d@.take(k as int)),
        decreases n - k,
    {
        proof {
            assert(d@.take(k + 1).drop_last() =~= d@.take(k as int));
            lemma_hits_bound(d@.take(k as int));
        }
        if d[k] {
            h += 1;
        }
        k += 1;
    }
    assert(d@.take(n as int) =~= d@);
    h
}

/// Total hits and total length over all windows.
fn tally(ws: &Vec<VecDeque<bool>>, window: usize) -> (t: (usize, usize))
    requires
        forall|i: int| 0 <= i < ws@.len() ==> (#[trigger] deques_view(ws@)[i]).len() <= window_cap(window as int),
        ws@.len() * window_cap(window as int) <= usize::MAX,
    ensures
        t.0 == total_hits(deques_view(ws@), ws@.len() as int),
        t.1 == total_len(deques_view(ws@), ws@.len() as int),
{
    let ghost v = deques_view(ws@);
    let n = ws.len();
    let mut hits: usize = 0;
    let mut len: usize = 0;
    let mut i: usize = 0;
    proof {
        lemma_totals_bound(v, n as int, window_cap(window as int));
    }
    while i < n
        invariant
            n == ws@.len(),
            v == deques_view(ws@),
            forall|j: int| 0 <= j < v.len() ==> (#[trigger] v[j]).len() <= window_cap(window as int),
            n * window_cap(window as int) <= usize::MAX,
            i <= n,
            hits == total_hits(v, i as int),
            len == total_len(v, i as int),
        decreases n - i,
    {
        proof {
            lemma_totals_bound(v, i + 1, window_cap(window as int));
            assert((i + 1) * window_cap(window as int) <= n * window_cap(window as int)) by (nonlinear_arith)
                requires i + 1 <= n, window_cap(window as int) >= 0;
        }
        let h = count_hits(&ws[i]);
        hits += h;
        len += ws[i].len();
        i += 1;
    }
    (hits, len)
}

/// Hits and length of each window.
fn tally_each(ws: &Vec<VecDeque<bool>>, window: usize) -> (t: Vec<(usize, usize)>)
    ensures
        t@.len() == ws@.len(),
        forall|i: int| 0 <= i < t@.len() ==> #[trigger] t@[i] == (hits_of(deques_view(ws@)[i]) as usize, deques_view(ws@)[i].len() as usize),
{
    let n = ws.len();
    let mut t: Vec<(usize, usize)> = Vec::new();
    let mut i: usize = 0;
    while i < n
        invariant
            n == ws@.len(),
            i <= n,
            t@.len() == i,
            forall|j: int| 0 <= j < i ==> #[trigger] t@[j] == (hits_of(deques_view(ws@)[j]) as usize, deques_view(ws@)[j].len() as usize),
        decreases n - i,
    {
        let h = count_hits(&ws[i]);
        proof {
            lemma_hits_bound(ws[i as int]@);
        }
        t.push((h, ws[i].len()));
        i += 1;
    }
    t
}

} // verus!
