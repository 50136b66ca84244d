//! ExperienceMemory: stores (action, state_before, state_after) tuples,
//! deduplicated with a count, and retrieves predictions by exact match,
//! nearest match (Hamming distance) or outcome frequency.
use vstd::prelude::*;
use crate::grid::{Grid, GridModel, covered, countable, hamming};

verus! {

/// A stored experience: (action, state_before, state_after, count).
pub type TupleModel = (u8, GridModel, GridModel, u32);

/// The tuples in insertion order, and the number of `store` calls.
pub type MemoryModel = (Seq<TupleModel>, u64);

/// One experience: the action, the states before and after, how often it
/// occurred, and whether the agent caused it.
#[derive(Debug, Clone)]
pub struct ExperienceTuple {
    pub action: u8,
    pub state_before: Grid,
    pub state_after: Grid,
    pub count: u32,
    pub self_caused: bool,
}

impl View for ExperienceTuple {
    type V = TupleModel;

    open spec fn view(&self) -> TupleModel {
        (self.action, self.state_before@, self.state_after@, self.count)
    }
}

/// The agent's memory of experiences, in storage order, with the number of `store` calls.
pub struct ExperienceMemory {
    tuples: Vec<ExperienceTuple>,
    total_stores: u64,
}

/// The tuple records `action` taken in `before` leading to `after`.
pub open spec fn triple_matches(t: TupleModel, action: u8, before: GridModel, after: GridModel) -> bool {
    t.0 == action && t.1 == before && t.2 == after
}

/// The tuple records `action` taken in `before`.
pub open spec fn pair_matches(t: TupleModel, action: u8, before: GridModel) -> bool {
    t.0 == action && t.1 == before
}

/// Sum of the counts of all tuples.
pub open spec fn sum_counts(s: Seq<TupleModel>) -> nat
    decreases s.len(),
{
    if s.len() == 0 {
        0
    } else {
        sum_counts(s.drop_last()) + s.last().3 as nat
    }
}

/// Sum of the counts of the tuples for `action` taken in `before`.
pub open spec fn pair_total(s: Seq<TupleModel>, action: u8, before: GridModel) -> nat
    decreases s.len(),
{
    if s.len() == 0 {
        0
    } else {
        pair_total(s.drop_last(), action, before) + (if pair_matches(s.last(), action, before) {
            s.last().3 as nat
        } else {
            0nat
        })
    }
}

/// Sum of the counts of the tuples for `action` that ended in `after`.
pub open spec fn outcome_total(s: Seq<TupleModel>, action: u8, after: GridModel) -> nat
    decreases s.len(),
{
    if s.len() == 0 {
        0
    } else {
        outcome_total(s.drop_last(), action, after) + (if s.last().0 == action && s.last().2
            == after {
            s.last().3 as nat
        } else {
            0nat
        })
    }
}

/// Highest count among the tuples for `action` taken in `before` (0 if none).
pub open spec fn pair_max(s: Seq<TupleModel>, action: u8, before: GridModel) -> nat
    decreases s.len(),
{
    if s.len() == 0 {
        0
    } else {
        let prev = pair_max(s.drop_last(), action, before);
        if pair_matches(s.last(), action, before) && s.last().3 > prev {
            s.last().3 as nat
        } else {
            prev
        }
    }
}

/// Number of tuples for `action`.
pub open spec fn action_count(s: Seq<TupleModel>, action: u8) -> nat
    decreases s.len(),
{
    if s.len() == 0 {
        0
    } else {
        action_count(s.drop_last(), action) + (if s.last().0 == action { 1nat } else { 0nat })
    }
}

/// Every tuple has a positive count, no two tuples record the same triple,
/// and the counts add up to the number of `store` calls.
pub open spec fn memory_inv(m: MemoryModel) -> bool {
    &&& forall|i: int| 0 <= i < m.0.len() ==> #[trigger] m.0[i].3 >= 1
    &&& forall|i: int, j: int|
        #![trigger m.0[i], m.0[j]]
        0 <= i < j < m.0.len() ==> !triple_matches(m.0[i], m.0[j].0, m.0[j].1, m.0[j].2)
    &&& sum_counts(m.0) == m.1
}

/// The memory after one `store`: the count of a matching tuple goes up by one,
/// or a new tuple with count 1 is appended.
pub open spec fn store_model(m: MemoryModel, action: u8, before: GridModel, after: GridModel) -> MemoryModel {
    if exists|i: int| 0 <= i < m.0.len() && triple_matches(m.0[i], action, before, after) {
        let i = choose|i: int| 0 <= i < m.0.len() && triple_matches(m.0[i], action, before, after);
        (m.0.update(i, (action, before, after, (m.0[i].3 + 1) as u32)), (m.1 + 1) as u64)
    } else {
        (m.0.push((action, before, after, 1u32)), (m.1 + 1) as u64)
    }
}

/// `store` cannot overflow: the store counter and the count of the matching tuple have room.
pub open spec fn can_store(m: MemoryModel, action: u8, before: GridModel, after: GridModel) -> bool {
    &&& m.1 < u64::MAX
    &&& forall|i: int|
        0 <= i < m.0.len() && triple_matches(m.0[i], action, before, after) ==> #[trigger] m.0[i].3
            < u32::MAX
}

/// Tuple `i` is the exact-match answer: it matches `(action, before)`, has the
/// highest count among matches, and is the last one with that count.
pub open spec fn is_exact_choice(s: Seq<TupleModel>, action: u8, before: GridModel, i: int) -> bool {
    &&& 0 <= i < s.len()
    &&& pair_matches(s[i], action, before)
    &&& forall|j: int| 0 <= j < s.len() && pair_matches(s[j], action, before) ==> #[trigger] s[j].3 <= s[i].3
    &&& forall|j: int| i < j < s.len() && pair_matches(s[j], action, before) ==> #[trigger] s[j].3 < s[i].3
}

/// Index of the exact-match answer, if any tuple matches `(action, before)`.
pub open spec fn exact_choice(s: Seq<TupleModel>, action: u8, before: GridModel) -> Option<int> {
    if exists|i: int| is_exact_choice(s, action, before, i) {
        Some(choose|i: int| is_exact_choice(s, action, before, i))
    } else {
        None
    }
}

/// Tuple `i` is the approximate-match answer: same action, smallest Hamming
/// distance of its `state_before` to `query`, first among equals.
pub open spec fn is_approx_choice(s: Seq<TupleModel>, action: u8, query: GridModel, i: int) -> bool {
    &&& 0 <= i < s.len()
    &&& s[i].0 == action
    &&& forall|j: int|
        0 <= j < s.len() && s[j].0 == action ==> hamming(s[i].1, query) <= hamming(#[trigger] s[j].1, query)
    &&& forall|j: int|
        0 <= j < i && s[j].0 == action ==> hamming(s[i].1, query) < hamming(#[trigger] s[j].1, query)
}

/// Index of the approximate-match answer, if any tuple has `action`.
pub open spec fn approx_choice(s: Seq<TupleModel>, action: u8, query: GridModel) -> Option<int> {
    if exists|i: int| is_approx_choice(s, action, query, i) {
        Some(choose|i: int| is_approx_choice(s, action, query, i))
    } else {
        None
    }
}

/// Tuple `i` is the most-common-outcome answer: it has `action`, its outcome has the
/// highest total count for `action`, and it is the first tuple with such an outcome.
pub open spec fn is_common_choice(s: Seq<TupleModel>, action: u8, i: int) -> bool {
    &&& 0 <= i < s.len()
    &&& s[i].0 == action
    &&& forall|j: int|
        0 <= j < s.len() && s[j].0 == action ==> outcome_total(s, action, #[trigger] s[j].2)
            <= outcome_total(s, action, s[i].2)
    &&& forall|j: int|
        0 <= j < i && s[j].0 == action ==> outcome_total(s, action, #[trigger] s[j].2) < outcome_total(
            s,
            action,
            s[i].2,
        )
}

/// Index of the most-common-outcome answer, if any tuple has `action`.
pub open spec fn common_choice(s: Seq<TupleModel>, action: u8) -> Option<int> {
    if exists|i: int| is_common_choice(s, action, i) {
        Some(choose|i: int| is_common_choice(s, action, i))
    } else {
        None
    }
}

/// The outcome a chosen index points to.
pub open spec fn outcome_of(s: Seq<TupleModel>, choice: Option<int>) -> Option<GridModel> {
    match choice {
        Some(i) => Some(s[i].2),
        None => None,
    }
}

/// What exact retrieval answers.
pub open spec fn exact_answer(s: Seq<TupleModel>, action: u8, before: GridModel) -> Option<GridModel> {
    outcome_of(s, exact_choice(s, action, before))
}

/// What approximate retrieval answers.
pub open spec fn approx_answer(s: Seq<TupleModel>, action: u8, query: GridModel) -> Option<GridModel> {
    outcome_of(s, approx_choice(s, action, query))
}

/// What combined retrieval answers: exact first, then approximate.
pub open spec fn retrieve_answer(s: Seq<TupleModel>, action: u8, query: GridModel) -> Option<GridModel> {
    match exact_answer(s, action, query) {
        Some(g) => Some(g),
        None => approx_answer(s, action, query),
    }
}

/// What the frequency path answers.
pub open spec fn common_answer(s: Seq<TupleModel>, action: u8) -> Option<GridModel> {
    outcome_of(s, common_choice(s, action))
}

/// The abstract value of an optional grid reference.
pub open spec fn opt_model(r: Option<&Grid>) -> Option<GridModel> {
    match r {
        Some(g) => Some(g@),
        None => None,
    }
}

/// Every state of `action` that approximate retrieval compares with `query` can be compared.
pub open spec fn comparable_for(s: Seq<TupleModel>, action: u8, query: GridModel) -> bool {
    forall|i: int|
        0 <= i < s.len() && #[trigger] s[i].0 == action ==> comparable(s[i].1, query)
}

/// `hamming_distance` is defined on the pair: grids of equal dimensions cover
/// their cells and have a countable number of them.
pub open spec fn comparable(a: GridModel, b: GridModel) -> bool {
    a.0 == b.0 && a.1 == b.1 ==> covered(a) && covered(b) && countable(a)
}

/// The counts of each outcome group of `action` fit in a `u32`.
pub open spec fn outcome_totals_fit(s: Seq<TupleModel>, action: u8) -> bool {
    forall|i: int|
        0 <= i < s.len() && #[trigger] s[i].0 == action ==> outcome_total(s, action, s[i].2)
            <= u32::MAX
}

/// Replacing a tuple changes the sum of counts by the difference of their counts.
pub proof fn lemma_sum_update(s: Seq<TupleModel>, i: int, t: TupleModel)
    requires
        0 <= i < s.len(),
    ensures
        sum_counts(s.update(i, t)) + s[i].3 == sum_counts(s) + t.3,
    decreases s.len(),
{
    let u = s.update(i, t);
    if i == s.len() - 1 {
        assert(u.drop_last() =~= s.drop_last());
    } else {
        assert(u.drop_last() =~= s.drop_last().update(i, t));
        lemma_sum_update(s.drop_last(), i, t);
    }
}

/// Appending a tuple adds its count to the sum.
pub proof fn lemma_sum_push(s: Seq<TupleModel>, t: TupleModel)
    ensures
        sum_counts(s.push(t)) == sum_counts(s) + t.3,
{
    assert(s.push(t).drop_last() =~= s);
}

proof fn lemma_exact_unique(s: Seq<TupleModel>, action: u8, before: GridModel, i: int, j: int)
    requires
        is_exact_choice(s, action, before, i),
        is_exact_choice(s, action, before, j),
    ensures
        i == j,
{
    if i < j {
        assert(s[j].3 < s[i].3);
        assert(s[i].3 <= s[j].3);
    } else if j < i {
        assert(s[j].3 <= s[i].3);
    }
}

proof fn lemma_approx_unique(s: Seq<TupleModel>, action: u8, query: GridModel, i: int, j: int)
    requires
        is_approx_choice(s, action, query, i),
        is_approx_choice(s, action, query, j),
    ensures
        i == j,
{
    if i < j {
        assert(hamming(s[i].1, query) <= hamming(s[j].1, query));
    } else if j < i {
        assert(hamming(s[j].1, query) <= hamming(s[i].1, query));
    }
}

proof fn lemma_common_unique(s: Seq<TupleModel>, action: u8, i: int, j: int)
    requires
        is_common_choice(s, action, i),
        is_common_choice(s, action, j),
    ensures
        s[i].2 == s[j].2,
{
    if i < j {
        assert(outcome_total(s, action, s[i].2) < outcome_total(s, action, s[j].2));
        assert(outcome_total(s, action, s[j].2) <= outcome_total(s, action, s[i].2));
    }
}

/// An outcome total over a prefix is at most the total over the whole.
pub proof fn lemma_outcome_total_prefix(s: Seq<TupleModel>, action: u8, after: GridModel, n: int)
    requires
        0 <= n <= s.len(),
    ensures
        outcome_total(s.take(n), action, after) <= outcome_total(s, action, after),
    decreases s.len(),
{
    if n == s.len() {
        assert(s.take(n) =~= s);
    } else {
        assert(s.drop_last().take(n) =~= s.take(n));
        lemma_outcome_total_prefix(s.drop_last(), action, after, n);
    }
}

/// A pair total over a prefix is at most the total over the whole.
pub proof fn lemma_pair_total_prefix(s: Seq<TupleModel>, action: u8, before: GridModel, n: int)
    requires
        0 <= n <= s.len(),
    ensures
        pair_total(s.take(n), action, before) <= pair_total(s, action, before),
    decreases s.len(),
{
    if n == s.len() {
        assert(s.take(n) =~= s);
    } else {
        assert(s.drop_last().take(n) =~= s.take(n));
        lemma_pair_total_prefix(s.drop_last(), action, before, n);
    }
}

/// No more tuples have an action than there are tuples.
pub proof fn lemma_action_count_bound(s: Seq<TupleModel>, action: u8)
    ensures
        action_count(s, action) <= s.len(),
    decreases s.len(),
{
    if s.len() > 0 {
        lemma_action_count_bound(s.drop_last(), action);
    }
}

proof fn lemma_sum_at_least_len(s: Seq<TupleModel>)
    requires
        forall|i: int| 0 <= i < s.len() ==> #[trigger] s[i].3 >= 1,
    ensures
        sum_counts(s) >= s.len(),
    decreases s.len(),
{
    if s.len() > 0 {
        lemma_sum_at_least_len(s.drop_last());
    }
}

proof fn lemma_pair_total_update(s: Seq<TupleModel>, i: int, t: TupleModel, action: u8, before: GridModel)
    requires
        0 <= i < s.len(),
    ensures
        pair_total(s.update(i, t), action, before) + (if pair_matches(s[i], action, before) { s[i].3 as int } else { 0 })
            == pair_total(s, action, before) + (if pair_matches(t, action, before) { t.3 as int } else { 0 }),
    decreases s.len(),
{
    let u = s.update(i, t);
    if i == s.len() - 1 {
        assert(u.drop_last() =~= s.drop_last());
    } else {
        assert(u.drop_last() =~= s.drop_last().update(i, t));
        lemma_pair_total_update(s.drop_last(), i, t, action, before);
    }
}

/// Two matches of one triple in a memory are the same tuple.
proof fn lemma_triple_unique(m: MemoryModel, action: u8, before: GridModel, after: GridModel, i: int, j: int)
    requires
        memory_inv(m),
        0 <= i < m.0.len(),
        0 <= j < m.0.len(),
        triple_matches(m.0[i], action, before, after),
        triple_matches(m.0[j], action, before, after),
    ensures
        i == j,
{
    if i < j {
        assert(!triple_matches(m.0[i], m.0[j].0, m.0[j].1, m.0[j].2));
    } else if j < i {
        assert(!triple_matches(m.0[j], m.0[i].0, m.0[i].1, m.0[i].2));
    }
}

/// Storing keeps the memory invariant.
pub proof fn law_store_keeps_inv(m: MemoryModel, action: u8, before: GridModel, after: GridModel)
    requires
        memory_inv(m),
        can_store(m, action, before, after),
    ensures
        memory_inv(store_model(m, action, before, after)),
{
    let n = store_model(m, action, before, after);
    if exists|i: int| 0 <= i < m.0.len() && triple_matches(m.0[i], action, before, after) {
        let i = choose|i: int| 0 <= i < m.0.len() && triple_matches(m.0[i], action, before, after);
        let t = (action, before, after, (m.0[i].3 + 1) as u32);
        lemma_sum_update(m.0, i, t);
        assert forall|a: int, b: int|
            #![trigger n.0[a], n.0[b]]
            0 <= a < b < n.0.len() implies !triple_matches(n.0[a], n.0[b].0, n.0[b].1, n.0[b].2) by {
            assert(!triple_matches(m.0[a], m.0[b].0, m.0[b].1, m.0[b].2));
        }
    } else {
        let t = (action, before, after, 1u32);
        lemma_sum_push(m.0, t);
        assert forall|a: int, b: int|
            #![trigger n.0[a], n.0[b]]
            0 <= a < b < n.0.len() implies !triple_matches(n.0[a], n.0[b].0, n.0[b].1, n.0[b].2) by {
            if b < m.0.len() {
                assert(!triple_matches(m.0[a], m.0[b].0, m.0[b].1, m.0[b].2));
            }
        }
    }
}

/// Consolidation never exceeds one: a memory holds no more unique tuples
/// than it has had `store` calls.
pub proof fn law_unique_at_most_stores(m: MemoryModel)
    requires
        memory_inv(m),
    ensures
        m.0.len() <= m.1,
{
    lemma_sum_at_least_len(m.0);
}

/// Every `store` counts once toward the familiarity of its `(action, state_before)`.
pub proof fn law_store_adds_familiarity(m: MemoryModel, action: u8, before: GridModel, after: GridModel)
    requires
        memory_inv(m),
        can_store(m, action, before, after),
    ensures
        pair_total(store_model(m, action, before, after).0, action, before) == pair_total(m.0, action, before) + 1,
{
    if exists|i: int| 0 <= i < m.0.len() && triple_matches(m.0[i], action, before, after) {
        let i = choose|i: int| 0 <= i < m.0.len() && triple_matches(m.0[i], action, before, after);
        lemma_pair_total_update(m.0, i, (action, before, after, (m.0[i].3 + 1) as u32), action, before);
    } else {
        assert(m.0.push((action, before, after, 1u32)).drop_last() =~= m.0);
    }
}

/// Storing an experience that is already stored adds no tuple: memory deduplicates.
pub proof fn law_store_dedups(m: MemoryModel, action: u8, before: GridModel, after: GridModel)
    requires
        memory_inv(m),
        can_store(m, action, before, after),
    ensures
        ({
            let once = store_model(m, action, before, after);
            store_model(once, action, before, after).0.len() == once.0.len()
        }),
{
    let once = store_model(m, action, before, after);
    if exists|i: int| 0 <= i < m.0.len() && triple_matches(m.0[i], action, before, after) {
        let i = choose|i: int| 0 <= i < m.0.len() && triple_matches(m.0[i], action, before, after);
        assert(triple_matches(once.0[i], action, before, after));
    } else {
        assert(triple_matches(once.0[m.0.len() as int], action, before, after));
    }
}

/// Read after write: once an experience is stored, exact retrieval for its
/// `(action, state_before)` returns its outcome, provided every earlier
/// experience of that pair had the same outcome (a deterministic world).
pub proof fn law_exact_recalls_stored(m: MemoryModel, action: u8, before: GridModel, after: GridModel)
    requires
        memory_inv(m),
        can_store(m, action, before, after),
        forall|i: int| 0 <= i < m.0.len() && pair_matches(m.0[i], action, before) ==> #[trigger] m.0[i].2 == after,
    ensures
        exact_answer(store_model(m, action, before, after).0, action, before) == Some(after),
{
    let n = store_model(m, action, before, after).0;
    let k: int = if exists|i: int| 0 <= i < m.0.len() && triple_matches(m.0[i], action, before, after) {
        choose|i: int| 0 <= i < m.0.len() && triple_matches(m.0[i], action, before, after)
    } else {
        m.0.len() as int
    };
    assert(triple_matches(n[k], action, before, after));
    assert forall|j: int| 0 <= j < n.len() && pair_matches(n[j], action, before) implies j == k by {
        if j != k {
            assert(j < m.0.len());
            assert(n[j] == m.0[j]);
            if k < m.0.len() {
                lemma_triple_unique(m, action, before, after, j, k);
            }
        }
    }
    assert(is_exact_choice(n, action, before, k));
    let c = choose|c: int| is_exact_choice(n, action, before, c);
    lemma_exact_unique(n, action, before, k, c);
}

/// Storing an experience of one action leaves retrieval for every other action
/// unchanged: actions are isolated from each other.
pub proof fn law_store_isolates_actions(
    m: MemoryModel,
    action: u8,
    before: GridModel,
    after: GridModel,
    other: u8,
    query: GridModel,
)
    requires
        memory_inv(m),
        can_store(m, action, before, after),
        other != action,
    ensures
        retrieve_answer(store_model(m, action, before, after).0, other, query) == retrieve_answer(m.0, other, query),
{
    let s1 = m.0;
    let s2 = store_model(m, action, before, after).0;
    assert(s1.len() <= s2.len());
    assert forall|k: int| 0 <= k < s2.len() && s2[k].0 == other implies
        k < s1.len() && #[trigger] s2[k] == s1[k] by {
        if exists|i: int| 0 <= i < s1.len() && triple_matches(s1[i], action, before, after) {
        } else {
            assert(s2 == s1.push((action, before, after, 1u32)));
        }
    }
    assert forall|k: int| 0 <= k < s1.len() && s1[k].0 == other implies #[trigger] s2[k] == s1[k] by {
        if exists|i: int| 0 <= i < s1.len() && triple_matches(s1[i], action, before, after) {
            let i = choose|i: int| 0 <= i < s1.len() && triple_matches(s1[i], action, before, after);
            assert(s2 == s1.update(i, (action, before, after, (s1[i].3 + 1) as u32)));
        }
    }
    assert forall|k: int| is_exact_choice(s1, other, query, k) <==> is_exact_choice(s2, other, query, k) by {
        if is_exact_choice(s1, other, query, k) {
            assert forall|j: int| 0 <= j < s2.len() && pair_matches(s2[j], other, query) implies #[trigger] s2[j].3 <= s2[k].3 by {
                assert(s2[j] == s1[j]);
            }
            assert forall|j: int| k < j < s2.len() && pair_matches(s2[j], other, query) implies #[trigger] s2[j].3 < s2[k].3 by {
                assert(s2[j] == s1[j]);
            }
        }
        if is_exact_choice(s2, other, query, k) {
            assert forall|j: int| 0 <= j < s1.len() && pair_matches(s1[j], other, query) implies #[trigger] s1[j].3 <= s1[k].3 by {
                assert(s2[j] == s1[j]);
            }
            assert forall|j: int| k < j < s1.len() && pair_matches(s1[j], other, query) implies #[trigger] s1[j].3 < s1[k].3 by {
                assert(s2[j] == s1[j]);
            }
        }
    }
    assert forall|k: int| is_approx_choice(s1, other, query, k) <==> is_approx_choice(s2, other, query, k) by {
        if is_approx_choice(s1, other, query, k) {
            assert forall|j: int| 0 <= j < s2.len() && s2[j].0 == other implies hamming(s2[k].1, query) <= hamming(#[trigger] s2[j].1, query) by {
                assert(s2[j] == s1[j]);
            }
            assert forall|j: int| 0 <= j < k && s2[j].0 == other implies hamming(s2[k].1, query) < hamming(#[trigger] s2[j].1, query) by {
            }
        }
        if is_approx_choice(s2, other, query, k) {
            assert(s2[k] == s1[k]);
            assert forall|j: int| 0 <= j < s1.len() && s1[j].0 == other implies hamming(s1[k].1, query) <= hamming(#[trigger] s1[j].1, query) by {
                assert(s2[j] == s1[j]);
            }
            assert forall|j: int| 0 <= j < k && s1[j].0 == other implies hamming(s1[k].1, query) < hamming(#[trigger] s1[j].1, query) by {
                assert(s2[j] == s1[j]);
            }
        }
    }
    if exists|k: int| is_exact_choice(s1, other, query, k) {
        let k1 = choose|k: int| is_exact_choice(s1, other, query, k);
        let k2 = choose|k: int| is_exact_choice(s2, other, query, k);
        lemma_exact_unique(s2, other, query, k1, k2);
        assert(s2[k1] == s1[k1]);
    }
    if exists|k: int| is_approx_choice(s1, other, query, k) {
        let k1 = choose|k: int| is_approx_choice(s1, other, query, k);
        let k2 = choose|k: int| is_approx_choice(s2, other, query, k);
        lemma_approx_unique(s2, other, query, k1, k2);
        assert(s2[k1] == s1[k1]);
    }
}

/// Among the indices below `n` that satisfy `p`, if there is one, a first one
/// with the least `f`.
proof fn lemma_first_min(n: int, p: spec_fn(int) -> bool, f: spec_fn(int) -> int)
    requires
        n >= 0,
        exists|j: int| 0 <= j < n && #[trigger] p(j),
    ensures
        exists|k: int|
            0 <= k < n && #[trigger] p(k) && (forall|j: int| 0 <= j < n && #[trigger] p(j) ==> f(k) <= f(j)) && (forall|j: int|
                0 <= j < k && #[trigger] p(j) ==> f(k) < f(j)),
    decreases n,
{
    if exists|j: int| 0 <= j < n - 1 && #[trigger] p(j) {
        lemma_first_min(n - 1, p, f);
        let k = choose|k: int|
            0 <= k < n - 1 && #[trigger] p(k) && (forall|j: int| 0 <= j < n - 1 && #[trigger] p(j) ==> f(k) <= f(j)) && (forall|j: int|
                0 <= j < k && #[trigger] p(j) ==> f(k) < f(j));
        if p(n - 1) && f(n - 1) < f(k) {
            assert(forall|j: int| 0 <= j < n && #[trigger] p(j) ==> f(n - 1) <= f(j));
        } else {
            assert(forall|j: int| 0 <= j < n && #[trigger] p(j) ==> f(k) <= f(j));
        }
    } else {
        assert(p(n - 1));
        assert(forall|j: int| 0 <= j < n && #[trigger] p(j) ==> j == n - 1);
    }
}

/// Among the indices below `n` that satisfy `p`, if there is one, a last one
/// with the greatest `f`.
proof fn lemma_last_max(n: int, p: spec_fn(int) -> bool, f: spec_fn(int) -> int)
    requires
        n >= 0,
        exists|j: int| 0 <= j < n && #[trigger] p(j),
    ensures
        exists|k: int|
            0 <= k < n && #[trigger] p(k) && (forall|j: int| 0 <= j < n && #[trigger] p(j) ==> f(j) <= f(k)) && (forall|j: int|
                k < j < n && #[trigger] p(j) ==> f(j) < f(k)),
    decreases n,
{
    if exists|j: int| 0 <= j < n - 1 && #[trigger] p(j) {
        lemma_last_max(n - 1, p, f);
        let k = choose|k: int|
            0 <= k < n - 1 && #[trigger] p(k) && (forall|j: int| 0 <= j < n - 1 && #[trigger] p(j) ==> f(j) <= f(k)) && (forall|j: int|
                k < j < n - 1 && #[trigger] p(j) ==> f(j) < f(k));
        if p(n - 1) && f(n - 1) >= f(k) {
            assert(forall|j: int| 0 <= j < n && #[trigger] p(j) ==> f(j) <= f(n - 1));
        } else {
            assert(forall|j: int| 0 <= j < n && #[trigger] p(j) ==> f(j) <= f(k));
        }
    } else {
        assert(p(n - 1));
        assert(forall|j: int| 0 <= j < n && #[trigger] p(j) ==> j == n - 1);
    }
}

/// Recall answers whenever there is relevant experience, and only then: exact
/// recall when the action was taken in that very state, nearest recall, the
/// combined recall and the frequency path whenever the action was taken at all.
pub proof fn law_recall_answers_when_experienced(s: Seq<TupleModel>, action: u8, before: GridModel)
    ensures
        exact_answer(s, action, before) is Some <==> exists|i: int|
            0 <= i < s.len() && pair_matches(#[trigger] s[i], action, before),
        approx_answer(s, action, before) is Some <==> exists|i: int| 0 <= i < s.len() && #[trigger] s[i].0 == action,
        retrieve_answer(s, action, before) is Some <==> exists|i: int| 0 <= i < s.len() && #[trigger] s[i].0 == action,
        common_answer(s, action) is Some <==> exists|i: int| 0 <= i < s.len() && #[trigger] s[i].0 == action,
{
    let n = s.len() as int;
    if exists|i: int| 0 <= i < s.len() && pair_matches(#[trigger] s[i], action, before) {
        let p = |j: int| pair_matches(s[j], action, before);
        let f = |j: int| s[j].3 as int;
        let w = choose|i: int| 0 <= i < s.len() && pair_matches(#[trigger] s[i], action, before);
        assert(p(w));
        lemma_last_max(n, p, f);
        let k = choose|k: int|
            0 <= k < n && #[trigger] p(k) && (forall|j: int| 0 <= j < n && #[trigger] p(j) ==> f(j) <= f(k)) && (forall|j: int|
                k < j < n && #[trigger] p(j) ==> f(j) < f(k));
        assert forall|j: int| 0 <= j < s.len() && pair_matches(s[j], action, before) implies #[trigger] s[j].3
            <= s[k].3 by {
            assert(p(j));
        }
        assert forall|j: int| k < j < s.len() && pair_matches(s[j], action, before) implies #[trigger] s[j].3
            < s[k].3 by {
            assert(p(j));
        }
        assert(is_exact_choice(s, action, before, k));
    }
    if exists|i: int| 0 <= i < s.len() && #[trigger] s[i].0 == action {
        let p = |j: int| s[j].0 == action;
        let f = |j: int| hamming(s[j].1, before);
        let w = choose|i: int| 0 <= i < s.len() && #[trigger] s[i].0 == action;
        assert(p(w));
        lemma_first_min(n, p, f);
        let k = choose|k: int|
            0 <= k < n && #[trigger] p(k) && (forall|j: int| 0 <= j < n && #[trigger] p(j) ==> f(k) <= f(j)) && (forall|j: int|
                0 <= j < k && #[trigger] p(j) ==> f(k) < f(j));
        assert forall|j: int| 0 <= j < s.len() && s[j].0 == action implies hamming(s[k].1, before) <= hamming(
            #[trigger] s[j].1,
            before,
        ) by {
            assert(p(j));
        }
        assert forall|j: int| 0 <= j < k && s[j].0 == action implies hamming(s[k].1, before) < hamming(
            #[trigger] s[j].1,
            before,
        ) by {
            assert(p(j));
        }
        assert(is_approx_choice(s, action, before, k));
        let g = |j: int| -(outcome_total(s, action, s[j].2) as int);
        lemma_first_min(n, p, g);
        let c = choose|k: int|
            0 <= k < n && #[trigger] p(k) && (forall|j: int| 0 <= j < n && #[trigger] p(j) ==> g(k) <= g(j)) && (forall|j: int|
                0 <= j < k && #[trigger] p(j) ==> g(k) < g(j));
        assert forall|j: int| 0 <= j < s.len() && s[j].0 == action implies outcome_total(s, action, #[trigger] s[j].2)
            <= outcome_total(s, action, s[c].2) by {
            assert(p(j));
        }
        assert forall|j: int| 0 <= j < c && s[j].0 == action implies outcome_total(s, action, #[trigger] s[j].2)
            < outcome_total(s, action, s[c].2) by {
            assert(p(j));
        }
        assert(is_common_choice(s, action, c));
    }
}

/// An experience memory created empty and then given `calls` in order.
pub open spec fn memory_run(calls: Seq<(u8, GridModel, GridModel)>) -> MemoryModel
    decreases calls.len(),
{
    if calls.len() == 0 {
        (Seq::empty(), 0)
    } else {
        let c = calls.last();
        store_model(memory_run(calls.drop_last()), c.0, c.1, c.2)
    }
}

/// The confidence tally's first part is the highest count among the tuples
/// of the pair: no matching tuple has a higher count, some matching tuple has
/// exactly that count, and it is 0 when none matches.
pub proof fn law_tally_max_is_highest(s: Seq<TupleModel>, action: u8, before: GridModel)
    ensures
        forall|i: int| 0 <= i < s.len() && pair_matches(s[i], action, before) ==> #[trigger] s[i].3 <= pair_max(
            s,
            action,
            before,
        ),
        (exists|i: int| 0 <= i < s.len() && #[trigger] pair_matches(s[i], action, before)) ==> exists|i: int|
            0 <= i < s.len() && #[trigger] pair_matches(s[i], action, before) && s[i].3 == pair_max(s, action, before),
        !(exists|i: int| 0 <= i < s.len() && #[trigger] pair_matches(s[i], action, before)) ==> pair_max(
            s,
            action,
            before,
        ) == 0,
    decreases s.len(),
{
    if s.len() > 0 {
        let p = s.drop_last();
        law_tally_max_is_highest(p, action, before);
        let n = s.len() - 1;
        assert forall|i: int| 0 <= i < s.len() && pair_matches(s[i], action, before) implies #[trigger] s[i].3
            <= pair_max(s, action, before) by {
            if i < n {
                assert(s[i] == p[i]);
            }
        }
        if exists|i: int| 0 <= i < s.len() && #[trigger] pair_matches(s[i], action, before) {
            if exists|i: int| 0 <= i < p.len() && #[trigger] pair_matches(p[i], action, before) {
                let i = choose|i: int| 0 <= i < p.len() && #[trigger] pair_matches(p[i], action, before) && p[i].3
                    == pair_max(p, action, before);
                assert(s[i] == p[i]);
                if pair_matches(s[n], action, before) && s[n].3 > pair_max(p, action, before) {
                    assert(pair_matches(s[n], action, before) && s[n].3 == pair_max(s, action, before));
                } else {
                    assert(pair_matches(s[i], action, before) && s[i].3 == pair_max(s, action, before));
                }
            } else {
                let i = choose|i: int| 0 <= i < s.len() && #[trigger] pair_matches(s[i], action, before);
                if i < n {
                    assert(s[i] == p[i]);
                    assert(pair_matches(p[i], action, before));
                }
                assert(pair_matches(s[n], action, before));
                assert(s[n].3 >= 1 || s[n].3 == 0);
                if s[n].3 > 0 {
                    assert(s[n].3 == pair_max(s, action, before));
                } else {
                    assert(pair_max(s, action, before) == 0);
                }
                assert(pair_matches(s[n], action, before) && s[n].3 == pair_max(s, action, before));
            }
        } else {
            assert forall|i: int| 0 <= i < p.len() implies !#[trigger] pair_matches(p[i], action, before) by {
                assert(s[i] == p[i]);
            }
            assert(!pair_matches(s[n], action, before));
        }
    }
}

/// Outcome totals of `other` only see tuples of `other`: sequences that agree
/// on those tuples give the same totals.
proof fn lemma_outcome_total_other(s1: Seq<TupleModel>, s2: Seq<TupleModel>, other: u8, g: GridModel)
    requires
        s1.len() <= s2.len() <= s1.len() + 1,
        forall|k: int| 0 <= k < s1.len() && (s1[k].0 == other || s2[k].0 == other) ==> #[trigger] s2[k] == s1[k],
        forall|k: int| s1.len() <= k < s2.len() ==> #[trigger] s2[k].0 != other,
    ensures
        outcome_total(s2, other, g) == outcome_total(s1, other, g),
    decreases s2.len(),
{
    if s2.len() == s1.len() + 1 {
        let d2 = s2.drop_last();
        assert(s2.last() == s2[s2.len() - 1]);
        assert forall|k: int| 0 <= k < s1.len() && (s1[k].0 == other || d2[k].0 == other) implies #[trigger] d2[k]
            == s1[k] by {
            assert(d2[k] == s2[k]);
        }
        lemma_outcome_total_other(s1, d2, other, g);
    } else if s2.len() > 0 {
        let d1 = s1.drop_last();
        let d2 = s2.drop_last();
        assert forall|k: int| 0 <= k < d1.len() && (d1[k].0 == other || d2[k].0 == other) implies #[trigger] d2[k]
            == d1[k] by {
            assert(d2[k] == s2[k] && d1[k] == s1[k]);
        }
        lemma_outcome_total_other(d1, d2, other, g);
        let n = s1.len() - 1;
        assert(s1.last() == s1[n] && s2.last() == s2[n]);
        if s1[n].0 == other || s2[n].0 == other {
            assert(s2[n] == s1[n]);
        }
    }
}

/// The frequency path is per action: storing an experience of one action
/// changes no outcome total of another action, and so leaves that action's
/// most common outcome as it was.
pub proof fn law_store_keeps_other_common(
    m: MemoryModel,
    action: u8,
    before: GridModel,
    after: GridModel,
    other: u8,
    outcome: GridModel,
)
    requires
        can_store(m, action, before, after),
        other != action,
    ensures
        outcome_total(store_model(m, action, before, after).0, other, outcome) == outcome_total(m.0, other, outcome),
        common_answer(store_model(m, action, before, after).0, other) == common_answer(m.0, other),
{
    let s1 = m.0;
    let s2 = store_model(m, action, before, after).0;
    if exists|i: int| 0 <= i < s1.len() && triple_matches(s1[i], action, before, after) {
        let i = choose|i: int| 0 <= i < s1.len() && triple_matches(s1[i], action, before, after);
        assert(s2 == s1.update(i, (action, before, after, (s1[i].3 + 1) as u32)));
    } else {
        assert(s2 == s1.push((action, before, after, 1u32)));
    }
    assert(s1.len() <= s2.len() <= s1.len() + 1);
    assert forall|k: int| 0 <= k < s1.len() && (s1[k].0 == other || s2[k].0 == other) implies #[trigger] s2[k]
        == s1[k] by {
        if exists|i: int| 0 <= i < s1.len() && triple_matches(s1[i], action, before, after) {
            let i = choose|i: int| 0 <= i < s1.len() && triple_matches(s1[i], action, before, after);
            assert(s2 == s1.update(i, (action, before, after, (s1[i].3 + 1) as u32)));
        }
    }
    assert forall|k: int| s1.len() <= k < s2.len() implies #[trigger] s2[k].0 != other by {
        assert(s2 == s1.push((action, before, after, 1u32)));
    }
    assert forall|g: GridModel| #[trigger] outcome_total(s2, other, g) == outcome_total(s1, other, g) by {
        lemma_outcome_total_other(s1, s2, other, g);
    }
    assert forall|k: int| is_common_choice(s1, other, k) <==> is_common_choice(s2, other, k) by {
        if is_common_choice(s1, other, k) {
            assert(s2[k] == s1[k]);
            assert forall|j: int| 0 <= j < s2.len() && s2[j].0 == other implies outcome_total(s2, other, #[trigger] s2[j].2)
                <= outcome_total(s2, other, s2[k].2) by {
                assert(s2[j] == s1[j]);
            }
            assert forall|j: int| 0 <= j < k && s2[j].0 == other implies outcome_total(s2, other, #[trigger] s2[j].2)
                < outcome_total(s2, other, s2[k].2) by {
                assert(s2[j] == s1[j]);
            }
        }
        if is_common_choice(s2, other, k) {
            assert(s2[k] == s1[k]);
            assert forall|j: int| 0 <= j < s1.len() && s1[j].0 == other implies outcome_total(s1, other, #[trigger] s1[j].2)
                <= outcome_total(s1, other, s1[k].2) by {
                assert(s2[j] == s1[j]);
            }
            assert forall|j: int| 0 <= j < k && s1[j].0 == other implies outcome_total(s1, other, #[trigger] s1[j].2)
                < outcome_total(s1, other, s1[k].2) by {
                assert(s2[j] == s1[j]);
            }
        }
    }
    if exists|k: int| is_common_choice(s1, other, k) {
        let k1 = choose|k: int| is_common_choice(s1, other, k);
        let k2 = choose|k: int| is_common_choice(s2, other, k);
        assert(is_common_choice(s2, other, k1));
        lemma_common_unique(s2, other, k1, k2);
        assert(s2[k1] == s1[k1]);
    } else {
        if exists|k: int| is_common_choice(s2, other, k) {
            let k2 = choose|k: int| is_common_choice(s2, other, k);
            assert(is_common_choice(s1, other, k2));
        }
    }
}

impl ExperienceMemory {
    /// The tuples in storage order and the number of `store` calls.
    pub closed spec fn view(&self) -> MemoryModel {
        (self.tuples@.map_values(|t: ExperienceTuple| t@), self.total_stores)
    }

    /// The memory's invariant holds, and every tuple is tagged self-caused.
    pub closed spec fn wf(&self) -> bool {
        &&& memory_inv(self.view())
        &&& forall|i: int| 0 <= i < self.tuples@.len() ==> #[trigger] self.tuples@[i].self_caused
    }

    /// A well-formed memory satisfies the memory invariant.
    pub proof fn lemma_inv(&self)
        requires
            self.wf(),
        ensures
            memory_inv(self.view()),
    {
    }

    /// An empty memory.
    pub fn new() -> (m: ExperienceMemory)
        ensures
            m.wf(),
            m.view() == (Seq::<TupleModel>::empty(), 0u64),
    {
        let m = ExperienceMemory { tuples: Vec::new(), total_stores: 0 };
        m
    }

    /// Store an experience. Deduplicates: if an exact match exists, its count goes up.
    pub fn store(&mut self, action: u8, state_before: Grid, state_after: Grid)
        requires
            old(self).wf(),
            can_store(old(self).view(), action, state_before@, state_after@),
        ensures
            final(self).wf(),
            final(self).view() == store_model(old(self).view(), action, state_before@, state_after@),
    {
        let ghost m = self.view();
        self.total_stores += 1;
        let n = self.tuples.len();
        let mut i: usize = 0;
        while i < n
            invariant
                n == self.tuples@.len(),
                i <= n,
                self.tuples@ == old(self).tuples@,
                self.total_stores == old(self).total_stores + 1,
                m == old(self).view(),
                memory_inv(m),
                old(self).wf(),
                can_store(m, action, state_before@, state_after@),
                forall|j: int| 0 <= j < i ==> !triple_matches(#[trigger] m.0[j], action, state_before@, state_after@),
            decreases n - i,
        {
            if self.tuples[i].action == action && self.tuples[i].state_before.equals(&state_before)
                && self.tuples[i].state_after.equals(&state_after) {
                let c = self.tuples[i].count;
                assert(c == m.0[i as int].3);
                self.tuples[i].count = c + 1;
                proof {
                    let k = choose|k: int|
                        0 <= k < m.0.len() && triple_matches(m.0[k], action, state_before@, state_after@);
                    let t = (action, state_before@, state_after@, (c + 1) as u32);
                    assert(self.view().0 =~= m.0.update(i as int, t));
                    lemma_sum_update(m.0, i as int, t);
                }
                return;
            }
            i += 1;
        }
        let t = ExperienceTuple {
            action,
            state_before,
            state_after,
            count: 1,
            self_caused: true,
        };
        self.tuples.push(t);
        proof {
            let tm = (action, state_before@, state_after@, 1u32);
            assert(self.view().0 =~= m.0.push(tm));
            lemma_sum_push(m.0, tm);
        }
    }

    /// Retrieve by exact match on `(action, state_before)`: the outcome of the
    /// highest-count matching tuple (the last one among equals).
    pub fn retrieve_exact(&self, action: u8, state_before: &Grid) -> (r: Option<&Grid>)
        requires
            self.wf(),
        ensures
            opt_model(r) == exact_answer(self.view().0, action, state_before@),
    {
        let ghost s = self.view().0;
        let n = self.tuples.len();
        let mut best: Option<usize> = None;
        let mut i: usize = 0;
        while i < n
            invariant
                n == s.len(),
                s == self.view().0,
                i <= n,
                match best {
                    None => forall|j: int| 0 <= j < i ==> !pair_matches(#[trigger] s[j], action, state_before@),
                    Some(b) => {
                        &&& b < i
                        &&& pair_matches(s[b as int], action, state_before@)
                        &&& forall|j: int| 0 <= j < i && pair_matches(s[j], action, state_before@) ==> #[trigger] s[j].3 <= s[b as int].3
                        &&& forall|j: int| b < j < i && pair_matches(s[j], action, state_before@) ==> #[trigger] s[j].3 < s[b as int].3
                    },
                },
            decreases n - i,
        {
            let t = &self.tuples[i];
            if t.action == action && t.state_before.equals(state_before) {
                match best {
                    None => {
                        best = Some(i);
                    },
                    Some(b) => {
                        if t.count >= self.tuples[b].count {
                            best = Some(i);
                        }
                    },
                }
            }
            i += 1;
        }
        match best {
            None => {
                proof {
                    if exists|k: int| is_exact_choice(s, action, state_before@, k) {
                        let k = choose|k: int| is_exact_choice(s, action, state_before@, k);
                        assert(!pair_matches(s[k], action, state_before@));
                    }
                }
                None
            },
            Some(b) => {
                proof {
                    let k = choose|k: int| is_exact_choice(s, action, state_before@, k);
                    lemma_exact_unique(s, action, state_before@, b as int, k);
                }
                Some(&self.tuples[b].state_after)
            },
        }
    }

    /// Retrieve by approximate match: among tuples with `action`, the outcome of
    /// the one whose `state_before` is nearest (Hamming) to the query, first among equals.
    /// `None` if no tuple has this action.
    pub fn retrieve_approximate(&self, action: u8, state_before: &Grid) -> (r: Option<&Grid>)
        requires
            self.wf(),
            comparable_for(self.view().0, action, state_before@),
        ensures
            opt_model(r) == approx_answer(self.view().0, action, state_before@),
    {
        let ghost s = self.view().0;
        let ghost q = state_before@;
        let n = self.tuples.len();
        let mut best: Option<(usize, usize)> = None;
        let mut i: usize = 0;
        while i < n
            invariant
                n == s.len(),
                s == self.view().0,
                q == state_before@,
                comparable_for(s, action, q),
                i <= n,
                match best {
                    None => forall|j: int| 0 <= j < i ==> #[trigger] s[j].0 != action,
                    Some((b, d)) => {
                        &&& b < i
                        &&& s[b as int].0 == action
                        &&& d == hamming(s[b as int].1, q)
                        &&& forall|j: int| 0 <= j < i && s[j].0 == action ==> hamming(s[b as int].1, q) <= hamming(#[trigger] s[j].1, q)
                        &&& forall|j: int| 0 <= j < b && s[j].0 == action ==> hamming(s[b as int].1, q) < hamming(#[trigger] s[j].1, q)
                    },
                },
            decreases n - i,
        {
            let t = &self.tuples[i];
            if t.action == action {
                assert(s[i as int].0 == action);
                let d = t.state_before.hamming_distance(state_before);
                match best {
                    None => {
                        best = Some((i, d));
                    },
                    Some((b, bd)) => {
                        if d < bd {
                            best = Some((i, d));
                        }
                    },
                }
            }
            i += 1;
        }
        match best {
            None => {
                None
            },
            Some((b, _)) => {
                proof {
                    let k = choose|k: int| is_approx_choice(s, action, q, k);
                    lemma_approx_unique(s, action, q, b as int, k);
                }
                Some(&self.tuples[b].state_after)
            },
        }
    }

    /// Retrieve: exact match first, then the approximate fallback.
    pub fn retrieve(&self, action: u8, state_before: &Grid) -> (r: Option<&Grid>)
        requires
            self.wf(),
            exact_answer(self.view().0, action, state_before@) is None ==> comparable_for(
                self.view().0,
                action,
                state_before@,
            ),
        ensures
            opt_model(r) == retrieve_answer(self.view().0, action, state_before@),
    {
        match self.retrieve_exact(action, state_before) {
            Some(g) => Some(g),
            None => self.retrieve_approximate(action, state_before),
        }
    }

    /// The frequency path: the outcome with the highest total count for this
    /// action, whatever the state before (first such outcome in storage order).
    pub fn most_common_outcome(&self, action: u8) -> (r: Option<&Grid>)
        requires
            self.wf(),
            outcome_totals_fit(self.view().0, action),
        ensures
            opt_model(r) == common_answer(self.view().0, action),
    {
        let ghost s = self.view().0;
        let n = self.tuples.len();
        let mut best: Option<(usize, u32)> = None;
        let mut i: usize = 0;
        while i < n
            invariant
                n == s.len(),
                s == self.view().0,
                outcome_totals_fit(s, action),
                i <= n,
                match best {
                    None => forall|j: int| 0 <= j < i ==> #[trigger] s[j].0 != action,
                    Some((b, bt)) => {
                        &&& b < i
                        &&& s[b as int].0 == action
                        &&& bt == outcome_total(s, action, s[b as int].2)
                        &&& forall|j: int| 0 <= j < i && s[j].0 == action ==> outcome_total(s, action, #[trigger] s[j].2) <= bt
                        &&& forall|j: int| 0 <= j < b && s[j].0 == action ==> outcome_total(s, action, #[trigger] s[j].2) < bt
                    },
                },
            decreases n - i,
        {
            let t = &self.tuples[i];
            if t.action == action {
                let mut total: u32 = 0;
                let mut k: usize = 0;
                while k < n
                    invariant
                        n == s.len(),
                        s == self.view().0,
                        outcome_totals_fit(s, action),
                        i < n,
                        s[i as int].0 == action,
                        t@ == s[i as int],
                        k <= n,
                        total == outcome_total(s.take(k as int), action, s[i as int].2),
                    decreases n - k,
                {
                    let o = &self.tuples[k];
                    proof {
                        assert(s.take(k + 1).drop_last() =~= s.take(k as int));
                        lemma_outcome_total_prefix(s, action, s[i as int].2, k + 1);
                    }
                    if o.action == action && o.state_after.equals(&t.state_after) {
                        total = total + o.count;
                    }
                    k += 1;
                }
                assert(s.take(n as int) =~= s);
                match best {
                    None => {
                        best = Some((i, total));
                    },
                    Some((b, bt)) => {
                        if total > bt {
                            best = Some((i, total));
                        }
                    },
                }
            }
            i += 1;
        }
        match best {
            None => {
                None
            },
            Some((b, _)) => {
                proof {
                    let k = choose|k: int| is_common_choice(s, action, k);
                    lemma_common_unique(s, action, b as int, k);
                }
                Some(&self.tuples[b].state_after)
            },
        }
    }

    /// How many times has this exact `(action, state_before)` pair been seen?
    pub fn familiarity(&self, action: u8, state_before: &Grid) -> (f: u32)
        requires
            self.wf(),
            pair_total(self.view().0, action, state_before@) <= u32::MAX,
        ensures
            f == pair_total(self.view().0, action, state_before@),
    {
        let ghost s = self.view().0;
        let n = self.tuples.len();
        let mut total: u32 = 0;
        let mut k: usize = 0;
        while k < n
            invariant
                n == s.len(),
                s == self.view().0,
                pair_total(s, action, state_before@) <= u32::MAX,
                k <= n,
                total == pair_total(s.take(k as int), action, state_before@),
            decreases n - k,
        {
            let t = &self.tuples[k];
            proof {
                assert(s.take(k + 1).drop_last() =~= s.take(k as int));
                lemma_pair_total_prefix(s, action, state_before@, k + 1);
            }
            if t.action == action && t.state_before.equals(state_before) {
                total = total + t.count;
            }
            k += 1;
        }
        assert(s.take(n as int) =~= s);
        total
    }

    /// Prediction confidence for `(action, state_before)` as a fraction:
    /// (highest count of one outcome, total count). (0, 0) without data.
    pub fn prediction_tally(&self, action: u8, state_before: &Grid) -> (t: (u32, u32))
        requires
            self.wf(),
            pair_total(self.view().0, action, state_before@) <= u32::MAX,
        ensures
            t.0 == pair_max(self.view().0, action, state_before@),
            t.1 == pair_total(self.view().0, action, state_before@),
    {
        let ghost s = self.view().0;
        let n = self.tuples.len();
        let mut total: u32 = 0;
        let mut best: u32 = 0;
        let mut k: usize = 0;
        while k < n
            invariant
                n == s.len(),
                s == self.view().0,
                pair_total(s, action, state_before@) <= u32::MAX,
                k <= n,
                total == pair_total(s.take(k as int), action, state_before@),
                best == pair_max(s.take(k as int), action, state_before@),
            decreases n - k,
        {
            let t = &self.tuples[k];
            proof {
                assert(s.take(k + 1).drop_last() =~= s.take(k as int));
                lemma_pair_total_prefix(s, action, state_before@, k + 1);
            }
            if t.action == action && t.state_before.equals(state_before) {
                total = total + t.count;
                if t.count > best {
                    best = t.count;
                }
            }
            k += 1;
        }
        assert(s.take(n as int) =~= s);
        (best, total)
    }

    /// Number of unique tuples stored.
    pub fn unique_count(&self) -> (n: usize)
        ensures
            n == self.view().0.len(),
    {
        self.tuples.len()
    }

    /// Total `store` calls, duplicates included.
    pub fn total_stores(&self) -> (n: u64)
        ensures
            n == self.view().1,
    {
        self.total_stores
    }

    /// Number of unique tuples for a given action.
    pub fn count_for_action(&self, action: u8) -> (n: usize)
        ensures
            n == action_count(self.view().0, action),
    {
        let ghost s = self.view().0;
        let len = self.tuples.len();
        let mut n: usize = 0;
        let mut k: usize = 0;
        while k < len
            invariant
                len == s.len(),
                s == self.view().0,
                k <= len,
                n == action_count(s.take(k as int), action),
            decreases len - k,
        {
            proof {
                assert(s.take(k + 1).drop_last() =~= s.take(k as int));
                lemma_action_count_bound(s.take(k as int), action);
            }
            if self.tuples[k].action == action {
                n = n + 1;
            }
            k += 1;
        }
        assert(s.take(len as int) =~= s);
        n
    }

    /// All stored tuples, in storage order.
    pub fn iter_tuples(&self) -> (ts: &Vec<ExperienceTuple>)
        ensures
            ts@.map_values(|t: ExperienceTuple| t@) == self.view().0,
            self.wf() ==> forall|i: int| 0 <= i < ts@.len() ==> #[trigger] ts@[i].self_caused,
    {
        &self.tuples
    }
}

} // verus!
