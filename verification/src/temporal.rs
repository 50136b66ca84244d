//! TemporalMemory: stores (context, action, state_before, state_after) tuples,
//! where the context is the last K (action, state) pairs. With K = 0 it
//! behaves as the plain experience memory.
use vstd::prelude::*;
use crate::grid::{Grid, GridModel, abs_diff, hamming};
use crate::memory::{
    MemoryModel, TupleModel, approx_answer, approx_choice, can_store, comparable, exact_answer,
    exact_choice, is_approx_choice, is_exact_choice, law_store_keeps_inv, memory_inv, opt_model,
    memory_run, retrieve_answer, store_model, sum_counts, triple_matches,
};

verus! {

/// A context: (action, state) pairs, oldest first.
pub type ContextModel = Seq<(u8, GridModel)>;

/// A stored temporal experience: (context, action, state_before, state_after, count).
pub type TemporalModel = (ContextModel, u8, GridModel, GridModel, u32);

/// One experience with the context in which it happened.
#[derive(Debug, Clone)]
pub struct TemporalTuple {
    pub context: Vec<(u8, Grid)>,
    pub action: u8,
    pub state_before: Grid,
    pub state_after: Grid,
    pub count: u32,
}

/// The abstract value of a context.
pub open spec fn ctx_model(c: Seq<(u8, Grid)>) -> ContextModel {
    c.map_values(|p: (u8, Grid)| (p.0, p.1@))
}

impl View for TemporalTuple {
    type V = TemporalModel;

    open spec fn view(&self) -> TemporalModel {
        (ctx_model(self.context@), self.action, self.state_before@, self.state_after@, self.count)
    }
}

/// A memory of experiences in context, keeping the last `context_len` steps of each context.
pub struct TemporalMemory {
    tuples: Vec<TemporalTuple>,
    total_stores: u64,
    context_len: usize,
}

/// The last `k` entries of a context (all of it if it is shorter).
pub open spec fn ctx_suffix(c: ContextModel, k: int) -> ContextModel {
    if c.len() <= k {
        c
    } else {
        c.subrange(c.len() - k, c.len() as int)
    }
}

/// Distance over the first `n` aligned steps of two contexts: 25 per action
/// mismatch plus the Hamming distance of the states.
pub open spec fn ctx_steps_dist(a: ContextModel, b: ContextModel, n: int) -> int
    decreases n,
{
    if n <= 0 {
        0
    } else {
        ctx_steps_dist(a, b, n - 1) + (if a[n - 1].0 != b[n - 1].0 { 25int } else { 0int }) + hamming(
            a[n - 1].1,
            b[n - 1].1,
        )
    }
}

/// The shorter of two context lengths.
pub open spec fn min_len(a: ContextModel, b: ContextModel) -> int {
    if a.len() <= b.len() { a.len() as int } else { b.len() as int }
}

/// Distance between two contexts: aligned steps from the start, plus 25 per
/// step by which their lengths differ.
pub open spec fn context_distance_model(a: ContextModel, b: ContextModel) -> int {
    ctx_steps_dist(a, b, min_len(a, b)) + abs_diff(a.len() as int, b.len() as int) * 25
}

/// `context_distance` is defined: the aligned states can be compared and the
/// distance fits in a `usize`.
pub open spec fn ctx_comparable(a: ContextModel, b: ContextModel) -> bool {
    &&& forall|i: int| 0 <= i < min_len(a, b) ==> comparable(#[trigger] a[i].1, b[i].1)
    &&& context_distance_model(a, b) <= usize::MAX
}

/// The tuple records exactly this context, action, state before and state after.
pub open spec fn t_matches_all(t: TemporalModel, ctx: ContextModel, action: u8, before: GridModel, after: GridModel) -> bool {
    t.0 == ctx && t.1 == action && t.2 == before && t.3 == after
}

/// The tuple records this context, action and state before.
pub open spec fn t_matches_key(t: TemporalModel, ctx: ContextModel, action: u8, before: GridModel) -> bool {
    t.0 == ctx && t.1 == action && t.2 == before
}

/// Sum of the counts of all tuples.
pub open spec fn t_sum_counts(s: Seq<TemporalModel>) -> nat
    decreases s.len(),
{
    if s.len() == 0 {
        0
    } else {
        t_sum_counts(s.drop_last()) + s.last().4 as nat
    }
}

/// Positive counts, no duplicate tuples, counts summing to the store count,
/// and every stored context no longer than the window.
pub open spec fn temporal_inv(s: Seq<TemporalModel>, total: u64, k: usize) -> bool {
    &&& forall|i: int| 0 <= i < s.len() ==> #[trigger] s[i].4 >= 1
    &&& forall|i: int| 0 <= i < s.len() ==> (#[trigger] s[i]).0.len() <= k
    &&& forall|i: int, j: int|
        #![trigger s[i], s[j]]
        0 <= i < j < s.len() ==> !t_matches_all(s[i], s[j].0, s[j].1, s[j].2, s[j].3)
    &&& t_sum_counts(s) == total
}

/// The tuples after one store with the (already cut) context `ctx`.
pub open spec fn t_store_model(s: Seq<TemporalModel>, ctx: ContextModel, action: u8, before: GridModel, after: GridModel) -> Seq<TemporalModel> {
    if exists|i: int| 0 <= i < s.len() && t_matches_all(s[i], ctx, action, before, after) {
        let i = choose|i: int| 0 <= i < s.len() && t_matches_all(s[i], ctx, action, before, after);
        s.update(i, (ctx, action, before, after, (s[i].4 + 1) as u32))
    } else {
        s.push((ctx, action, before, after, 1u32))
    }
}

/// `store` cannot overflow: the store counter and the count of the matching tuple have room.
pub open spec fn t_can_store(s: Seq<TemporalModel>, total: u64, ctx: ContextModel, action: u8, before: GridModel, after: GridModel) -> bool {
    &&& total < u64::MAX
    &&& forall|i: int|
        0 <= i < s.len() && t_matches_all(s[i], ctx, action, before, after) ==> #[trigger] s[i].4
            < u32::MAX
}

/// Tuple `i` is the exact-match answer: it matches the key, has the highest
/// count among matches, and is the last one with that count.
pub open spec fn t_is_exact_choice(s: Seq<TemporalModel>, ctx: ContextModel, action: u8, before: GridModel, i: int) -> bool {
    &&& 0 <= i < s.len()
    &&& t_matches_key(s[i], ctx, action, before)
    &&& forall|j: int| 0 <= j < s.len() && t_matches_key(s[j], ctx, action, before) ==> #[trigger] s[j].4 <= s[i].4
    &&& forall|j: int| i < j < s.len() && t_matches_key(s[j], ctx, action, before) ==> #[trigger] s[j].4 < s[i].4
}

/// Approximate score of tuple `t` against a query: state distance plus context distance.
pub open spec fn t_score(t: TemporalModel, ctx: ContextModel, query: GridModel) -> int {
    hamming(t.2, query) + context_distance_model(t.0, ctx)
}

/// Tuple `i` is the approximate answer: same action, lowest score, first among equals.
pub open spec fn t_is_approx_choice(s: Seq<TemporalModel>, ctx: ContextModel, action: u8, query: GridModel, i: int) -> bool {
    &&& 0 <= i < s.len()
    &&& s[i].1 == action
    &&& forall|j: int| 0 <= j < s.len() && s[j].1 == action ==> t_score(s[i], ctx, query) <= t_score(#[trigger] s[j], ctx, query)
    &&& forall|j: int| 0 <= j < i && s[j].1 == action ==> t_score(s[i], ctx, query) < t_score(#[trigger] s[j], ctx, query)
}

/// What temporal retrieval answers for the (already cut) context `ctx`:
/// the exact match with the highest count (last among equals), else the tuple
/// with the same action and lowest score (first among equals).
pub open spec fn t_retrieve_answer(s: Seq<TemporalModel>, ctx: ContextModel, action: u8, query: GridModel) -> Option<GridModel> {
    if exists|i: int| t_is_exact_choice(s, ctx, action, query, i) {
        Some(s[choose|i: int| t_is_exact_choice(s, ctx, action, query, i)].3)
    } else if exists|i: int| t_is_approx_choice(s, ctx, action, query, i) {
        Some(s[choose|i: int| t_is_approx_choice(s, ctx, action, query, i)].3)
    } else {
        None
    }
}

/// The approximate scores of all tuples with `action` can be computed.
pub open spec fn t_scorable(s: Seq<TemporalModel>, ctx: ContextModel, action: u8, query: GridModel) -> bool {
    forall|i: int|
        0 <= i < s.len() && #[trigger] s[i].1 == action ==> {
            &&& comparable(s[i].2, query)
            &&& ctx_comparable(s[i].0, ctx)
            &&& t_score(s[i], ctx, query) <= usize::MAX
        }
}

proof fn lemma_ctx_steps_mono(a: ContextModel, b: ContextModel, n: int, m: int)
    requires
        0 <= n <= m,
    ensures
        ctx_steps_dist(a, b, n) <= ctx_steps_dist(a, b, m),
    decreases m,
{
    if n < m {
        lemma_ctx_steps_mono(a, b, n, m - 1);
    }
}

proof fn lemma_ctx_steps_nonneg(a: ContextModel, b: ContextModel, n: int)
    ensures
        ctx_steps_dist(a, b, n) >= 0,
    decreases n,
{
    if n > 0 {
        lemma_ctx_steps_nonneg(a, b, n - 1);
    }
}

/// Distance between two context sequences. Action mismatch = 25, state
/// distance = Hamming, length mismatch = 25 per missing step.
pub fn context_distance(a: &[(u8, Grid)], b: &[(u8, Grid)]) -> (d: usize)
    requires
        ctx_comparable(ctx_model(a@), ctx_model(b@)),
    ensures
        d == context_distance_model(ctx_model(a@), ctx_model(b@)),
{
    let ghost am = ctx_model(a@);
    let ghost bm = ctx_model(b@);
    let len = if a.len() <= b.len() { a.len() } else { b.len() };
    let mut dist: usize = 0;
    let mut i: usize = 0;
    proof {
        lemma_ctx_steps_nonneg(am, bm, min_len(am, bm));
    }
    while i < len
        invariant
            am == ctx_model(a@),
            bm == ctx_model(b@),
            len == min_len(am, bm),
            ctx_comparable(am, bm),
            i <= len,
            dist == ctx_steps_dist(am, bm, i as int),
        decreases len - i,
    {
        proof {
            lemma_ctx_steps_mono(am, bm, i + 1, len as int);
            lemma_ctx_steps_nonneg(am, bm, i as int);
            assert(comparable(am[i as int].1, bm[i as int].1));
        }
        if a[i].0 != b[i].0 {
            dist += 25;
        }
        let h = a[i].1.hamming_distance(&b[i].1);
        dist += h;
        i += 1;
    }
    let diff = if a.len() >= b.len() { a.len() - b.len() } else { b.len() - a.len() };
    dist + diff * 25
}

proof fn lemma_ctx_steps_self(a: ContextModel, n: int)
    ensures
        ctx_steps_dist(a, a, n) == 0,
    decreases n,
{
    if n > 0 {
        lemma_ctx_steps_self(a, n - 1);
        crate::grid::law_hamming_self_zero(a[n - 1].1);
    }
}

proof fn lemma_ctx_steps_symmetric(a: ContextModel, b: ContextModel, n: int)
    ensures
        ctx_steps_dist(a, b, n) == ctx_steps_dist(b, a, n),
    decreases n,
{
    if n > 0 {
        lemma_ctx_steps_symmetric(a, b, n - 1);
        crate::grid::law_hamming_symmetric(a[n - 1].1, b[n - 1].1);
    }
}

/// A context is at distance 0 from itself.
pub proof fn law_context_distance_self_zero(c: ContextModel)
    ensures
        context_distance_model(c, c) == 0,
{
    lemma_ctx_steps_self(c, c.len() as int);
}

/// Context distance is symmetric.
pub proof fn law_context_distance_symmetric(a: ContextModel, b: ContextModel)
    ensures
        context_distance_model(a, b) == context_distance_model(b, a),
{
    lemma_ctx_steps_symmetric(a, b, min_len(a, b));
}

proof fn lemma_ctx_steps_extend(a: ContextModel, b: ContextModel, x: (u8, GridModel), y: (u8, GridModel), n: int)
    requires
        0 <= n <= a.len(),
        n <= b.len(),
    ensures
        ctx_steps_dist(a.push(x), b.push(y), n) == ctx_steps_dist(a, b, n),
    decreases n,
{
    if n > 0 {
        lemma_ctx_steps_extend(a, b, x, y, n - 1);
        assert(a.push(x)[n - 1] == a[n - 1]);
        assert(b.push(y)[n - 1] == b[n - 1]);
    }
}

proof fn lemma_ctx_steps_extend_one(a: ContextModel, b: ContextModel, x: (u8, GridModel), n: int)
    requires
        0 <= n <= a.len(),
        n <= b.len(),
    ensures
        ctx_steps_dist(a.push(x), b, n) == ctx_steps_dist(a, b, n),
    decreases n,
{
    if n > 0 {
        lemma_ctx_steps_extend_one(a, b, x, n - 1);
        assert(a.push(x)[n - 1] == a[n - 1]);
    }
}

/// Context distance adds up step by step: extending two contexts of equal
/// length by one step each adds 25 if the steps' actions differ plus the
/// Hamming distance of their states; extending only the one that is not
/// shorter adds 25 for the missing step.
pub proof fn law_context_distance_adds_steps(a: ContextModel, b: ContextModel, x: (u8, GridModel), y: (u8, GridModel))
    ensures
        a.len() == b.len() ==> context_distance_model(a.push(x), b.push(y)) == context_distance_model(a, b) + (if x.0
            != y.0 { 25int } else { 0int }) + hamming(x.1, y.1),
        a.len() >= b.len() ==> context_distance_model(a.push(x), b) == context_distance_model(a, b) + 25,
{
    if a.len() == b.len() {
        let n = a.len() as int;
        lemma_ctx_steps_extend(a, b, x, y, n);
        assert(a.push(x)[n] == x && b.push(y)[n] == y);
        assert(min_len(a.push(x), b.push(y)) == n + 1);
    }
    if a.len() >= b.len() {
        lemma_ctx_steps_extend_one(a, b, x, b.len() as int);
    }
}

proof fn lemma_t_sum_update(s: Seq<TemporalModel>, i: int, t: TemporalModel)
    requires
        0 <= i < s.len(),
    ensures
        t_sum_counts(s.update(i, t)) + s[i].4 == t_sum_counts(s) + t.4,
    decreases s.len(),
{
    let u = s.update(i, t);
    if i == s.len() - 1 {
        assert(u.drop_last() =~= s.drop_last());
    } else {
        assert(u.drop_last() =~= s.drop_last().update(i, t));
        lemma_t_sum_update(s.drop_last(), i, t);
    }
}

proof fn lemma_t_exact_unique(s: Seq<TemporalModel>, ctx: ContextModel, action: u8, before: GridModel, i: int, j: int)
    requires
        t_is_exact_choice(s, ctx, action, before, i),
        t_is_exact_choice(s, ctx, action, before, j),
    ensures
        i == j,
{
    if i < j {
        assert(s[j].4 < s[i].4);
        assert(s[i].4 <= s[j].4);
    } else if j < i {
        assert(s[i].4 < s[j].4);
        assert(s[j].4 <= s[i].4);
    }
}

proof fn lemma_t_approx_unique(s: Seq<TemporalModel>, ctx: ContextModel, action: u8, query: GridModel, i: int, j: int)
    requires
        t_is_approx_choice(s, ctx, action, query, i),
        t_is_approx_choice(s, ctx, action, query, j),
    ensures
        i == j,
{
    if i < j {
        assert(t_score(s[j], ctx, query) < t_score(s[i], ctx, query));
        assert(t_score(s[i], ctx, query) <= t_score(s[j], ctx, query));
    } else if j < i {
        assert(t_score(s[i], ctx, query) < t_score(s[j], ctx, query));
        assert(t_score(s[j], ctx, query) <= t_score(s[i], ctx, query));
    }
}

/// A copy of the last `k` entries of a context.
fn cut_context(context: &[(u8, Grid)], k: usize) -> (c: Vec<(u8, Grid)>)
    ensures
        ctx_model(c@) == ctx_suffix(ctx_model(context@), k as int),
{
    let n = context.len();
    let start = if n <= k { 0 } else { n - k };
    let mut c: Vec<(u8, Grid)> = Vec::new();
    let mut i = start;
    while i < n
        invariant
            n == context@.len(),
            start <= i <= n,
            start == (if n <= k { 0 } else { n - k }),
            ctx_model(c@) == ctx_model(context@).subrange(start as int, i as int),
        decreases n - i,
    {
        let g = context[i].1.clone();
        assert(g@ == context@[i as int].1@);
        let ghost old_c = c@;
        assert(ctx_model(old_c).len() == old_c.len());
        assert(ctx_model(old_c).len() == i - start);
        c.push((context[i].0, g));
        assert(c@ == old_c.push((context@[i as int].0, g)));
        i += 1;
        assert forall|j: int| 0 <= j < c@.len() implies #[trigger] ctx_model(c@)[j] == ctx_model(
            context@,
        ).subrange(start as int, i as int)[j] by {
            assert(c@.len() == old_c.len() + 1);
            assert(old_c.len() == i - 1 - start);
            if j < old_c.len() {
                assert(c@[j] == old_c[j]);
                assert(ctx_model(old_c)[j] == ctx_model(context@).subrange(start as int, i - 1)[j]);
            } else {
                assert(c@[j] == (context@[i - 1].0, g));
                assert(ctx_model(c@)[j] == (context@[i - 1].0, g@));
            }
        }
        assert(ctx_model(c@) =~= ctx_model(context@).subrange(start as int, i as int));
    }
    assert(ctx_model(context@).subrange(0, n as int) =~= ctx_model(context@));
    c
}

/// Whether two contexts are equal, step by step.
fn same_context(a: &Vec<(u8, Grid)>, b: &Vec<(u8, Grid)>) -> (eq: bool)
    ensures
        eq == (ctx_model(a@) == ctx_model(b@)),
{
    if a.len() != b.len() {
        assert(ctx_model(a@).len() != ctx_model(b@).len());
        return false;
    }
    let n = a.len();
    let mut i: usize = 0;
    while i < n
        invariant
            n == a@.len(),
            n == b@.len(),
            i <= n,
            forall|j: int| 0 <= j < i ==> #[trigger] ctx_model(a@)[j] == ctx_model(b@)[j],
        decreases n - i,
    {
        if a[i].0 != b[i].0 || !a[i].1.equals(&b[i].1) {
            assert(ctx_model(a@)[i as int] != ctx_model(b@)[i as int]);
            return false;
        }
        i += 1;
    }
    assert(ctx_model(a@) =~= ctx_model(b@));
    true
}

/// The tuples with their contexts left out.
pub open spec fn without_context(s: Seq<TemporalModel>) -> Seq<TupleModel> {
    s.map_values(|t: TemporalModel| (t.1, t.2, t.3, t.4))
}

proof fn lemma_sum_without_context(s: Seq<TemporalModel>)
    ensures
        sum_counts(without_context(s)) == t_sum_counts(s),
    decreases s.len(),
{
    if s.len() > 0 {
        assert(without_context(s).drop_last() =~= without_context(s.drop_last()));
        lemma_sum_without_context(s.drop_last());
    }
}

/// With a window of 0 the temporal memory is the experience memory: its
/// tuples, contexts left out, satisfy the experience memory's invariant; a
/// store is possible and changes them exactly as an experience-memory store;
/// and retrieval gives the same answer, whatever context is passed.
pub proof fn law_window_zero_is_experience_memory(
    s: Seq<TemporalModel>,
    total: u64,
    context: ContextModel,
    action: u8,
    before: GridModel,
    after: GridModel,
    query: GridModel,
)
    requires
        temporal_inv(s, total, 0),
    ensures
        memory_inv((without_context(s), total)),
        t_can_store(s, total, ctx_suffix(context, 0), action, before, after) == can_store(
            (without_context(s), total),
            action,
            before,
            after,
        ),
        without_context(t_store_model(s, ctx_suffix(context, 0), action, before, after))
            == store_model((without_context(s), total), action, before, after).0,
        t_retrieve_answer(s, ctx_suffix(context, 0), action, query) == retrieve_answer(
            without_context(s),
            action,
            query,
        ),
{
    let w = without_context(s);
    let e = ctx_suffix(context, 0);
    assert(e =~= Seq::<(u8, GridModel)>::empty());
    assert forall|i: int| 0 <= i < s.len() implies (#[trigger] s[i]).0 =~= e by {
        assert(s[i].0.len() <= 0);
    }
    lemma_sum_without_context(s);
    assert forall|i: int, j: int|
        #![trigger w[i], w[j]]
        0 <= i < j < w.len() implies !triple_matches(w[i], w[j].0, w[j].1, w[j].2) by {
        assert(!t_matches_all(s[i], s[j].0, s[j].1, s[j].2, s[j].3));
        assert(s[i].0 == s[j].0);
    }
    assert forall|i: int| 0 <= i < w.len() implies #[trigger] w[i].3 >= 1 by {
        assert(s[i].4 >= 1);
    }
    // Matching a tuple is the same question with and without the empty contexts.
    assert forall|i: int| 0 <= i < s.len() implies (t_matches_all(#[trigger] s[i], e, action, before, after)
        <==> triple_matches(w[i], action, before, after)) by {
        assert(s[i].0 == e);
    }
    // The store.
    let ts = t_store_model(s, e, action, before, after);
    let ms = store_model((w, total), action, before, after).0;
    if exists|i: int| 0 <= i < s.len() && t_matches_all(s[i], e, action, before, after) {
        let i = choose|i: int| 0 <= i < s.len() && t_matches_all(s[i], e, action, before, after);
        assert(triple_matches(w[i], action, before, after));
        let k = choose|k: int| 0 <= k < w.len() && triple_matches(w[k], action, before, after);
        if k != i {
            assert(t_matches_all(s[k], e, action, before, after));
            if i < k {
                assert(!t_matches_all(s[i], s[k].0, s[k].1, s[k].2, s[k].3));
            } else {
                assert(!t_matches_all(s[k], s[i].0, s[i].1, s[i].2, s[i].3));
            }
        }
        assert(without_context(ts) =~= ms);
    } else {
        assert(!exists|k: int| 0 <= k < w.len() && triple_matches(w[k], action, before, after)) by {
            if exists|k: int| 0 <= k < w.len() && triple_matches(w[k], action, before, after) {
                let k = choose|k: int| 0 <= k < w.len() && triple_matches(w[k], action, before, after);
                assert(t_matches_all(s[k], e, action, before, after));
            }
        }
        assert(without_context(ts) =~= ms);
    }
    // The answers: exact choices and approximate choices are the same indices.
    assert(context_distance_model(e, e) == 0) by {
        assert(min_len(e, e) == 0);
    }
    assert forall|k: int| t_is_exact_choice(s, e, action, query, k) <==> is_exact_choice(w, action, query, k) by {
        assert forall|j: int| 0 <= j < s.len() implies (t_matches_key(#[trigger] s[j], e, action, query)
            <==> crate::memory::pair_matches(w[j], action, query)) by {
            assert(s[j].0 == e);
        }
        if t_is_exact_choice(s, e, action, query, k) {
            assert forall|j: int| 0 <= j < w.len() && crate::memory::pair_matches(w[j], action, query)
                implies #[trigger] w[j].3 <= w[k].3 by {
                assert(t_matches_key(s[j], e, action, query));
            }
            assert forall|j: int| k < j < w.len() && crate::memory::pair_matches(w[j], action, query)
                implies #[trigger] w[j].3 < w[k].3 by {
                assert(t_matches_key(s[j], e, action, query));
            }
        }
        if is_exact_choice(w, action, query, k) {
            assert(s[k].0 == e);
            assert forall|j: int| 0 <= j < s.len() && t_matches_key(s[j], e, action, query)
                implies #[trigger] s[j].4 <= s[k].4 by {
                assert(crate::memory::pair_matches(w[j], action, query));
                assert(w[j].3 <= w[k].3);
            }
            assert forall|j: int| k < j < s.len() && t_matches_key(s[j], e, action, query)
                implies #[trigger] s[j].4 < s[k].4 by {
                assert(crate::memory::pair_matches(w[j], action, query));
                assert(w[j].3 < w[k].3);
            }
        }
    }
    assert forall|k: int| t_is_approx_choice(s, e, action, query, k) <==> is_approx_choice(w, action, query, k) by {
        assert forall|j: int| 0 <= j < s.len() implies #[trigger] t_score(s[j], e, query) == hamming(w[j].1, query) by {
            assert(s[j].0 == e);
        }
        if t_is_approx_choice(s, e, action, query, k) {
            assert forall|j: int| 0 <= j < w.len() && w[j].0 == action implies hamming(w[k].1, query)
                <= hamming(#[trigger] w[j].1, query) by {
                assert(t_score(s[k], e, query) <= t_score(s[j], e, query));
            }
            assert forall|j: int| 0 <= j < k && w[j].0 == action implies hamming(w[k].1, query)
                < hamming(#[trigger] w[j].1, query) by {
                assert(t_score(s[k], e, query) < t_score(s[j], e, query));
            }
        }
        if is_approx_choice(w, action, query, k) {
            assert forall|j: int| 0 <= j < s.len() && s[j].1 == action implies t_score(s[k], e, query)
                <= t_score(#[trigger] s[j], e, query) by {
                assert(hamming(w[k].1, query) <= hamming(w[j].1, query));
            }
            assert forall|j: int| 0 <= j < k && s[j].1 == action implies t_score(s[k], e, query)
                < t_score(#[trigger] s[j], e, query) by {
                assert(hamming(w[k].1, query) < hamming(w[j].1, query));
            }
        }
    }
    if exists|k: int| t_is_exact_choice(s, e, action, query, k) {
        let k1 = choose|k: int| t_is_exact_choice(s, e, action, query, k);
        assert(is_exact_choice(w, action, query, k1));
        let k2 = choose|k: int| is_exact_choice(w, action, query, k);
        assert(t_is_exact_choice(s, e, action, query, k2));
        lemma_t_exact_unique(s, e, action, query, k1, k2);
        assert(exact_choice(w, action, query) == Some(k1));
        assert(exact_answer(w, action, query) == Some(s[k1].3));
    } else {
        assert(!exists|k: int| is_exact_choice(w, action, query, k)) by {
            if exists|k: int| is_exact_choice(w, action, query, k) {
                let k = choose|k: int| is_exact_choice(w, action, query, k);
                assert(t_is_exact_choice(s, e, action, query, k));
            }
        }
        if exists|k: int| t_is_approx_choice(s, e, action, query, k) {
            let k1 = choose|k: int| t_is_approx_choice(s, e, action, query, k);
            assert(is_approx_choice(w, action, query, k1));
            let k2 = choose|k: int| is_approx_choice(w, action, query, k);
            assert(t_is_approx_choice(s, e, action, query, k2));
            lemma_t_approx_unique(s, e, action, query, k1, k2);
            assert(approx_choice(w, action, query) == Some(k1));
            assert(approx_answer(w, action, query) == Some(s[k1].3));
        } else {
            assert(!exists|k: int| is_approx_choice(w, action, query, k)) by {
                if exists|k: int| is_approx_choice(w, action, query, k) {
                    let k = choose|k: int| is_approx_choice(w, action, query, k);
                    assert(t_is_approx_choice(s, e, action, query, k));
                }
            }
        }
    }
}

/// A call of `store`: the context passed, the action, and the states before and after.
pub type StoreCall = (ContextModel, u8, GridModel, GridModel);

/// The tuples and the store count of a temporal memory with window `k`,
/// created empty and then given `calls` in order.
pub open spec fn temporal_run(k: usize, calls: Seq<StoreCall>) -> (Seq<TemporalModel>, u64)
    decreases calls.len(),
{
    if calls.len() == 0 {
        (Seq::empty(), 0)
    } else {
        let prev = temporal_run(k, calls.drop_last());
        let c = calls.last();
        (t_store_model(prev.0, ctx_suffix(c.0, k as int), c.1, c.2, c.3), (prev.1 + 1) as u64)
    }
}

/// The calls with their contexts left out.
pub open spec fn calls_without_context(calls: Seq<StoreCall>) -> Seq<(u8, GridModel, GridModel)> {
    calls.map_values(|c: StoreCall| (c.1, c.2, c.3))
}

/// With empty contexts, the experience memory's invariant is the temporal one.
proof fn lemma_empty_contexts_inv(s: Seq<TemporalModel>, total: u64)
    requires
        forall|i: int| 0 <= i < s.len() ==> (#[trigger] s[i]).0.len() == 0,
        memory_inv((without_context(s), total)),
    ensures
        temporal_inv(s, total, 0),
{
    let w = without_context(s);
    lemma_sum_without_context(s);
    assert forall|i: int| 0 <= i < s.len() implies #[trigger] s[i].4 >= 1 by {
        assert(w[i].3 >= 1);
    }
    assert forall|i: int, j: int|
        #![trigger s[i], s[j]]
        0 <= i < j < s.len() implies !t_matches_all(s[i], s[j].0, s[j].1, s[j].2, s[j].3) by {
        assert(!triple_matches(w[i], w[j].0, w[j].1, w[j].2));
    }
}

/// Over any sequence of calls that the experience memory can take, a
/// temporal memory of window 0 holds the same tuples and store count as an
/// experience memory given the same calls without their contexts, and answers
/// every retrieval, with any context, as that memory does.
pub proof fn law_window_zero_runs_as_experience_memory(calls: Seq<StoreCall>)
    requires
        forall|i: int|
            0 <= i < calls.len() ==> can_store(
                memory_run(calls_without_context(calls).take(i)),
                (#[trigger] calls[i]).1,
                calls[i].2,
                calls[i].3,
            ),
    ensures
        temporal_inv(temporal_run(0, calls).0, temporal_run(0, calls).1, 0),
        without_context(temporal_run(0, calls).0) == memory_run(calls_without_context(calls)).0,
        temporal_run(0, calls).1 == memory_run(calls_without_context(calls)).1,
        forall|context: ContextModel, action: u8, query: GridModel|
            #[trigger] t_retrieve_answer(temporal_run(0, calls).0, ctx_suffix(context, 0), action, query)
                == retrieve_answer(memory_run(calls_without_context(calls)).0, action, query),
    decreases calls.len(),
{
    let t = temporal_run(0, calls);
    let m = memory_run(calls_without_context(calls));
    if calls.len() == 0 {
        assert(without_context(t.0) =~= m.0);
        lemma_empty_contexts_inv(t.0, t.1);
    } else {
        let prev = calls.drop_last();
        let wc = calls_without_context(calls);
        assert(calls_without_context(prev) =~= wc.drop_last());
        assert forall|i: int| 0 <= i < prev.len() implies can_store(
            memory_run(calls_without_context(prev).take(i)),
            (#[trigger] prev[i]).1,
            prev[i].2,
            prev[i].3,
        ) by {
            assert(calls_without_context(prev).take(i) =~= wc.take(i));
            assert(prev[i] == calls[i]);
        }
        law_window_zero_runs_as_experience_memory(prev);
        let tp = temporal_run(0, prev);
        let mp = memory_run(calls_without_context(prev));
        let c = calls.last();
        assert(wc.take(calls.len() - 1) =~= calls_without_context(prev));
        assert(can_store(mp, c.1, c.2, c.3));
        assert(m == store_model(mp, c.1, c.2, c.3));
        law_window_zero_is_experience_memory(tp.0, tp.1, c.0, c.1, c.2, c.3, c.2);
        assert(mp == (without_context(tp.0), tp.1));
        law_store_keeps_inv(mp, c.1, c.2, c.3);
        let e = ctx_suffix(c.0, 0);
        assert(e =~= Seq::<(u8, GridModel)>::empty());
        assert forall|i: int| 0 <= i < t.0.len() implies (#[trigger] t.0[i]).0.len() == 0 by {
            if exists|k: int| 0 <= k < tp.0.len() && t_matches_all(tp.0[k], e, c.1, c.2, c.3) {
                let k = choose|k: int| 0 <= k < tp.0.len() && t_matches_all(tp.0[k], e, c.1, c.2, c.3);
                if i != k {
                    assert(t.0[i] == tp.0[i]);
                    assert(tp.0[i].0.len() <= 0);
                }
            } else {
                if i < tp.0.len() {
                    assert(t.0[i] == tp.0[i]);
                    assert(tp.0[i].0.len() <= 0);
                }
            }
        }
        lemma_empty_contexts_inv(t.0, t.1);
        assert forall|context: ContextModel, action: u8, query: GridModel|
            #[trigger] t_retrieve_answer(t.0, ctx_suffix(context, 0), action, query) == retrieve_answer(
                m.0,
                action,
                query,
            ) by {
            law_window_zero_is_experience_memory(t.0, t.1, context, action, query, query, query);
        }
    }
}

impl TemporalMemory {
    /// The tuples, in storage order.
    pub closed spec fn tuples_model(&self) -> Seq<TemporalModel> {
        self.tuples@.map_values(|t: TemporalTuple| t@)
    }

    /// Number of `store` calls.
    pub closed spec fn stores_model(&self) -> u64 {
        self.total_stores
    }

    /// The context window K.
    pub closed spec fn window(&self) -> usize {
        self.context_len
    }

    /// The memory's invariant holds.
    pub closed spec fn wf(&self) -> bool {
        temporal_inv(self.tuples_model(), self.total_stores, self.context_len)
    }

    /// An empty memory with a context window of `context_len` steps.
    pub fn new(context_len: usize) -> (m: TemporalMemory)
        ensures
            m.wf(),
            m.tuples_model() == Seq::<TemporalModel>::empty(),
            m.stores_model() == 0,
            m.window() == context_len,
    {
        let m = TemporalMemory { tuples: Vec::new(), total_stores: 0, context_len };
        assert(m.tuples_model() =~= Seq::<TemporalModel>::empty());
        m
    }

    /// Store an experience with the last K steps of `context`. Deduplicates on exact match.
    pub fn store(&mut self, context: &[(u8, Grid)], action: u8, state_before: Grid, state_after: Grid)
        requires
            old(self).wf(),
            t_can_store(
                old(self).tuples_model(),
                old(self).stores_model(),
                ctx_suffix(ctx_model(context@), old(self).window() as int),
                action,
                state_before@,
                state_after@,
            ),
        ensures
            final(self).wf(),
            final(self).window() == old(self).window(),
            final(self).stores_model() == old(self).stores_model() + 1,
            final(self).tuples_model() == t_store_model(
                old(self).tuples_model(),
                ctx_suffix(ctx_model(context@), old(self).window() as int),
                action,
                state_before@,
                state_after@,
            ),
    {
        let ghost s = self.tuples_model();
        self.total_stores += 1;
        let ctx = cut_context(context, self.context_len);
        let ghost cm = ctx_model(ctx@);
        let n = self.tuples.len();
        let mut i: usize = 0;
        while i < n
            invariant
                n == self.tuples@.len(),
                i <= n,
                self.tuples@ == old(self).tuples@,
                self.total_stores == old(self).total_stores + 1,
                self.context_len == old(self).context_len,
                s == old(self).tuples_model(),
                old(self).wf(),
                cm == ctx_model(ctx@),
                cm == ctx_suffix(ctx_model(context@), old(self).window() as int),
                t_can_store(s, old(self).stores_model(), cm, action, state_before@, state_after@),
                forall|j: int| 0 <= j < i ==> !t_matches_all(#[trigger] s[j], cm, action, state_before@, state_after@),
            decreases n - i,
        {
            if self.tuples[i].action == action && self.tuples[i].state_before.equals(&state_before)
                && self.tuples[i].state_after.equals(&state_after) && same_context(
                &self.tuples[i].context,
                &ctx,
            ) {
                assert(t_matches_all(s[i as int], cm, action, state_before@, state_after@));
                let c = self.tuples[i].count;
                assert(c == s[i as int].4);
                self.tuples[i].count = c + 1;
                proof {
                    let k = choose|k: int|
                        0 <= k < s.len() && t_matches_all(s[k], cm, action, state_before@, state_after@);
                    if k != i {
                        if k < i {
                            assert(!t_matches_all(s[k], s[i as int].0, s[i as int].1, s[i as int].2, s[i as int].3));
                        } else {
                            assert(!t_matches_all(s[i as int], s[k].0, s[k].1, s[k].2, s[k].3));
                        }
                    }
                    let t = (cm, action, state_before@, state_after@, (c + 1) as u32);
                    assert(self.tuples_model() =~= s.update(i as int, t));
                    lemma_t_sum_update(s, i as int, t);
                    let u = self.tuples_model();
                    assert forall|a: int, b: int|
                        #![trigger u[a], u[b]]
                        0 <= a < b < u.len() implies !t_matches_all(u[a], u[b].0, u[b].1, u[b].2, u[b].3) by {
                        assert(!t_matches_all(s[a], s[b].0, s[b].1, s[b].2, s[b].3));
                    }
                    assert forall|a: int| 0 <= a < u.len() implies (#[trigger] u[a]).0.len() <= self.context_len by {
                        assert(s[a].0.len() <= self.context_len);
                    }
                }
                return;
            }
            i += 1;
        }
        let t = TemporalTuple {
            context: ctx,
            action,
            state_before,
            state_after,
            count: 1,
        };
        self.tuples.push(t);
        proof {
            let tm = (cm, action, state_before@, state_after@, 1u32);
            let u = self.tuples_model();
            assert(u =~= s.push(tm));
            assert(s.push(tm).drop_last() =~= s);
            assert forall|a: int, b: int|
                #![trigger u[a], u[b]]
                0 <= a < b < u.len() implies !t_matches_all(u[a], u[b].0, u[b].1, u[b].2, u[b].3) by {
                if b < s.len() {
                    assert(!t_matches_all(s[a], s[b].0, s[b].1, s[b].2, s[b].3));
                }
            }
            assert forall|a: int| 0 <= a < u.len() implies (#[trigger] u[a]).0.len() <= self.context_len by {
                if a < s.len() {
                    assert(s[a].0.len() <= self.context_len);
                }
            }
        }
    }

    /// Retrieve: exact context match first (highest count, last among equals),
    /// then the same-action tuple with the lowest state + context distance.
    pub fn retrieve(&self, context: &[(u8, Grid)], action: u8, state_before: &Grid) -> (r: Option<&Grid>)
        requires
            self.wf(),
            !(exists|i: int| t_is_exact_choice(
                self.tuples_model(),
                ctx_suffix(ctx_model(context@), self.window() as int),
                action,
                state_before@,
                i,
            )) ==> t_scorable(
                self.tuples_model(),
                ctx_suffix(ctx_model(context@), self.window() as int),
                action,
                state_before@,
            ),
        ensures
            opt_model(r) == t_retrieve_answer(
                self.tuples_model(),
                ctx_suffix(ctx_model(context@), self.window() as int),
                action,
                state_before@,
            ),
    {
        let ghost s = self.tuples_model();
        let ghost q = state_before@;
        let ctx = cut_context(context, self.context_len);
        let ghost cm = ctx_model(ctx@);
        let n = self.tuples.len();
        let mut best: Option<usize> = None;
        let mut i: usize = 0;
        while i < n
            invariant
                n == s.len(),
                s == self.tuples_model(),
                cm == ctx_model(ctx@),
                q == state_before@,
                i <= n,
                match best {
                    None => forall|j: int| 0 <= j < i ==> !t_matches_key(#[trigger] s[j], cm, action, q),
                    Some(b) => {
                        &&& b < i
                        &&& t_matches_key(s[b as int], cm, action, q)
                        &&& forall|j: int| 0 <= j < i && t_matches_key(s[j], cm, action, q) ==> #[trigger] s[j].4 <= s[b as int].4
                        &&& forall|j: int| b < j < i && t_matches_key(s[j], cm, action, q) ==> #[trigger] s[j].4 < s[b as int].4
                    },
                },
            decreases n - i,
        {
            let t = &self.tuples[i];
            if t.action == action && t.state_before.equals(state_before) && same_context(&t.context, &ctx) {
                match best {
                    None => {
                        best = Some(i);
                    },
                    Some(b) => {
                        if t.count >= self.tuples[b].count {
                            best = Some(i);
                        }
                    },
                }
            }
            i += 1;
        }
        if let Some(b) = best {
            proof {
                assert(t_is_exact_choice(s, cm, action, q, b as int));
                let k = choose|k: int| t_is_exact_choice(s, cm, action, q, k);
                lemma_t_exact_unique(s, cm, action, q, b as int, k);
            }
            return Some(&self.tuples[b].state_after);
        }
        proof {
            if exists|k: int| t_is_exact_choice(s, cm, action, q, k) {
                let k = choose|k: int| t_is_exact_choice(s, cm, action, q, k);
                assert(!t_matches_key(s[k], cm, action, q));
            }
        }
        let mut abest: Option<(usize, usize)> = None;
        let mut i: usize = 0;
        while i < n
            invariant
                n == s.len(),
                s == self.tuples_model(),
                cm == ctx_model(ctx@),
                q == state_before@,
                t_scorable(s, cm, action, q),
                i <= n,
                match abest {
                    None => forall|j: int| 0 <= j < i ==> #[trigger] s[j].1 != action,
                    Some((b, d)) => {
                        &&& b < i
                        &&& s[b as int].1 == action
                        &&& d == t_score(s[b as int], cm, q)
                        &&& forall|j: int| 0 <= j < i && s[j].1 == action ==> t_score(s[b as int], cm, q) <= t_score(#[trigger] s[j], cm, q)
                        &&& forall|j: int| 0 <= j < b && s[j].1 == action ==> t_score(s[b as int], cm, q) < t_score(#[trigger] s[j], cm, q)
                    },
                },
            decreases n - i,
        {
            let t = &self.tuples[i];
            if t.action == action {
                assert(s[i as int].1 == action);
                let hd = t.state_before.hamming_distance(state_before);
                let cd = context_distance(t.context.as_slice(), ctx.as_slice());
                let d = hd + cd;
                match abest {
                    None => {
                        abest = Some((i, d));
                    },
                    Some((b, bd)) => {
                        if d < bd {
                            abest = Some((i, d));
                        }
                    },
                }
            }
            i += 1;
        }
        match abest {
            None => {
                proof {
                    if exists|k: int| t_is_approx_choice(s, cm, action, q, k) {
                        let k = choose|k: int| t_is_approx_choice(s, cm, action, q, k);
                        assert(s[k].1 == action);
                    }
                }
                None
            },
            Some((b, _)) => {
                proof {
                    assert(t_is_approx_choice(s, cm, action, q, b as int));
                    let k = choose|k: int| t_is_approx_choice(s, cm, action, q, k);
                    lemma_t_approx_unique(s, cm, action, q, b as int, k);
                }
                Some(&self.tuples[b].state_after)
            },
        }
    }

    /// Number of distinct experiences.
    pub fn unique_count(&self) -> (n: usize)
        ensures
            n == self.tuples_model().len(),
    {
        self.tuples.len()
    }

    /// Number of `store` calls.
    pub fn total_stores(&self) -> (n: u64)
        ensures
            n == self.stores_model(),
    {
        self.total_stores
    }
}

} // verus!
