//! RuleSet: symbolic compression of experience into movement rules
//! (action, at_edge) -> position delta. Rules are generative: a prediction
//! moves the marker of the current grid by the rule's delta, so rules also
//! predict states never seen before.
use vstd::prelude::*;
use crate::grid::{Grid, GridModel, find_color_model, lemma_cells_first_found, set_model};
use crate::memory::{
    ExperienceMemory, MemoryModel, TupleModel, can_store, law_store_keeps_inv, memory_inv, memory_run,
    store_model, triple_matches,
};
use crate::world::{
    ACTION_DOWN, ACTION_LEFT, ACTION_RIGHT, ACTION_UP, law_observe_shows_marker, move_defined,
    observe_model, step_pos,
};

verus! {

/// A movement rule: for an action, at the edge or not, the most likely
/// displacement of the marker, with its weight and the key's total weight.
#[derive(Debug, Clone)]
pub struct MovementRule {
    pub action: u8,
    pub at_edge: bool,
    pub delta_row: i32,
    pub delta_col: i32,
    pub count: u32,
    pub total: u32,
}

/// (action, at_edge, delta_row, delta_col, count, total)
pub type RuleModel = (u8, bool, i32, i32, u32, u32);

/// One observed move: (action, at_edge, delta_row, delta_col, weight).
pub type Obs = (u8, bool, i32, i32, u32);

impl View for MovementRule {
    type V = RuleModel;

    open spec fn view(&self) -> RuleModel {
        (self.action, self.at_edge, self.delta_row, self.delta_col, self.count, self.total)
    }
}

/// The rules extracted from experience, and the world size they apply to.
pub struct RuleSet {
    rules: Vec<MovementRule>,
    world_size: usize,
}

/// Whether the marker at `(row, col)` is against the edge it would move toward.
pub open spec fn edge_model(action: u8, row: int, col: int, size: int) -> bool {
    if action == ACTION_UP {
        row == 0
    } else if action == ACTION_DOWN {
        row == size - 1
    } else if action == ACTION_LEFT {
        col == 0
    } else if action == ACTION_RIGHT {
        col == size - 1
    } else {
        false
    }
}

/// Whether the marker at `(row, col)` is against the edge the action moves toward.
pub fn is_at_edge(action: u8, row: usize, col: usize, size: usize) -> (e: bool)
    requires
        move_defined(action, size as int),
    ensures
        e == edge_model(action, row as int, col as int, size as int),
{
    match action {
        ACTION_UP => row == 0,
        ACTION_DOWN => row == size - 1,
        ACTION_LEFT => col == 0,
        ACTION_RIGHT => col == size - 1,
        _ => false,
    }
}

/// The move that an experience shows, weighted by `w`, if both grids show the marker.
pub open spec fn obs_of(action: u8, before: GridModel, after: GridModel, w: u32, size: int) -> Option<Obs> {
    match (find_color_model(before, 1), find_color_model(after, 1)) {
        (Some((rb, cb)), Some((ra, ca))) => Some(
            (action, edge_model(action, rb, cb, size), (ra - rb) as i32, (ca - cb) as i32, w),
        ),
        _ => None,
    }
}

/// Reading an experience's move cannot fail: marker positions fit in an `i32`
/// and the edge test is defined.
pub open spec fn obs_defined(action: u8, before: GridModel, after: GridModel, size: int) -> bool {
    match (find_color_model(before, 1), find_color_model(after, 1)) {
        (Some((rb, cb)), Some((ra, ca))) => {
            &&& rb <= i32::MAX && cb <= i32::MAX && ra <= i32::MAX && ca <= i32::MAX
            &&& move_defined(action, size)
        },
        _ => true,
    }
}

/// The moves shown by stored experiences, weighted by their counts.
pub open spec fn memory_obs(s: Seq<TupleModel>, size: int) -> Seq<Obs>
    decreases s.len(),
{
    if s.len() == 0 {
        Seq::empty()
    } else {
        let prev = memory_obs(s.drop_last(), size);
        let t = s.last();
        match obs_of(t.0, t.1, t.2, t.3, size) {
            Some(o) => prev.push(o),
            None => prev,
        }
    }
}

/// The moves shown by raw experiences, each of weight 1.
pub open spec fn raw_obs(s: Seq<(u8, GridModel, GridModel)>, size: int) -> Seq<Obs>
    decreases s.len(),
{
    if s.len() == 0 {
        Seq::empty()
    } else {
        let prev = raw_obs(s.drop_last(), size);
        let t = s.last();
        match obs_of(t.0, t.1, t.2, 1u32, size) {
            Some(o) => prev.push(o),
            None => prev,
        }
    }
}

/// Total weight of the moves with key `(action, edge)`.
pub open spec fn key_total(obs: Seq<Obs>, action: u8, edge: bool) -> nat
    decreases obs.len(),
{
    if obs.len() == 0 {
        0
    } else {
        key_total(obs.drop_last(), action, edge) + (if obs.last().0 == action && obs.last().1
            == edge {
            obs.last().4 as nat
        } else {
            0nat
        })
    }
}

/// Total weight of the moves with key `(action, edge)` and delta `(dr, dc)`.
pub open spec fn delta_total(obs: Seq<Obs>, action: u8, edge: bool, dr: i32, dc: i32) -> nat
    decreases obs.len(),
{
    if obs.len() == 0 {
        0
    } else {
        delta_total(obs.drop_last(), action, edge, dr, dc) + (if obs.last().0 == action
            && obs.last().1 == edge && obs.last().2 == dr && obs.last().3 == dc {
            obs.last().4 as nat
        } else {
            0nat
        })
    }
}

/// The observation has key `(action, edge)`.
pub open spec fn obs_has_key(o: Obs, action: u8, edge: bool) -> bool {
    o.0 == action && o.1 == edge
}

/// Rule `r` is the maximum-likelihood rule for its key: its delta was observed,
/// no delta of that key weighs more, and its count and total are the weights.
pub open spec fn rule_fits(obs: Seq<Obs>, r: RuleModel) -> bool {
    &&& exists|i: int|
        0 <= i < obs.len() && obs_has_key(#[trigger] obs[i], r.0, r.1) && obs[i].2 == r.2 && obs[i].3
            == r.3
    &&& r.4 == delta_total(obs, r.0, r.1, r.2, r.3)
    &&& r.5 == key_total(obs, r.0, r.1)
    &&& forall|i: int|
        0 <= i < obs.len() && obs_has_key(#[trigger] obs[i], r.0, r.1) ==> delta_total(
            obs,
            r.0,
            r.1,
            obs[i].2,
            obs[i].3,
        ) <= r.4
}

/// The rules summarize the observations: one maximum-likelihood rule per
/// observed key, and no other rule.
pub open spec fn rules_summarize(obs: Seq<Obs>, rules: Seq<RuleModel>) -> bool {
    &&& all_rules_fit(obs, rules)
    &&& all_keys_ruled(obs, rules)
    &&& rule_keys_unique(rules)
}

/// Every rule is the maximum-likelihood rule for its key.
pub open spec fn all_rules_fit(obs: Seq<Obs>, rules: Seq<RuleModel>) -> bool {
    forall|i: int| 0 <= i < rules.len() ==> rule_fits(obs, #[trigger] rules[i])
}

/// Every observed key has a rule.
pub open spec fn all_keys_ruled(obs: Seq<Obs>, rules: Seq<RuleModel>) -> bool {
    forall|i: int| 0 <= i < obs.len() ==> key_ruled(rules, (#[trigger] obs[i]).0, obs[i].1)
}

/// Some rule has key `(action, edge)`.
pub open spec fn key_ruled(rules: Seq<RuleModel>, action: u8, edge: bool) -> bool {
    exists|j: int| 0 <= j < rules.len() && rules[j].0 == action && rules[j].1 == edge
}

/// No two rules share a key.
pub open spec fn rule_keys_unique(rules: Seq<RuleModel>) -> bool {
    forall|i: int, j: int|
        #![trigger rules[i], rules[j]]
        0 <= i < j < rules.len() ==> !(rules[i].0 == rules[j].0 && rules[i].1 == rules[j].1)
}

/// Every observed key's total weight fits in a `u32`, and every weight is positive.
pub open spec fn obs_fit(obs: Seq<Obs>) -> bool {
    &&& forall|i: int| 0 <= i < obs.len() ==> key_total(obs, (#[trigger] obs[i]).0, obs[i].1) <= u32::MAX
    &&& forall|i: int| 0 <= i < obs.len() ==> (#[trigger] obs[i]).4 >= 1
}

/// The abstract value of each rule.
pub open spec fn rules_view(rules: Seq<MovementRule>) -> Seq<RuleModel> {
    rules.map_values(|r: MovementRule| r@)
}

/// Rule `i` is the first rule for `(action, edge)`.
pub open spec fn is_first_rule(rules: Seq<RuleModel>, action: u8, edge: bool, i: int) -> bool {
    &&& 0 <= i < rules.len()
    &&& rules[i].0 == action && rules[i].1 == edge
    &&& forall|j: int| 0 <= j < i ==> !(#[trigger] rules[j].0 == action && rules[j].1 == edge)
}

/// Index of the first rule for `(action, edge)`, if any.
pub open spec fn first_rule(rules: Seq<RuleModel>, action: u8, edge: bool) -> Option<int> {
    if exists|i: int| is_first_rule(rules, action, edge, i) {
        Some(choose|i: int| is_first_rule(rules, action, edge, i))
    } else {
        None
    }
}

/// `v` raised to at least `lo`, then lowered to at most `hi`.
pub open spec fn clamp(v: int, lo: int, hi: int) -> int {
    let m = if v > lo { v } else { lo };
    if m < hi { m } else { hi }
}

/// Where a prediction moves the marker: (row, col, new_row, new_col), or
/// `None` if the grid has no marker or no rule applies.
pub open spec fn predict_target(rules: Seq<RuleModel>, size: int, action: u8, g: GridModel) -> Option<(int, int, int, int)> {
    match find_color_model(g, 1) {
        None => None,
        Some((r, c)) => match first_rule(rules, action, edge_model(action, r, c, size)) {
            None => None,
            Some(i) => Some(
                (r, c, clamp(r + rules[i].2, 0, size - 1), clamp(c + rules[i].3, 0, size - 1)),
            ),
        },
    }
}

/// The predicted grid: the marker cleared from its cell and placed at the target.
pub open spec fn predict_model(rules: Seq<RuleModel>, size: int, action: u8, g: GridModel) -> Option<GridModel> {
    match predict_target(rules, size, action, g) {
        None => None,
        Some((r, c, nr, nc)) => Some(set_model(set_model(g, r, c, 0), nr, nc, 1)),
    }
}

/// Writing at `(r, c)` cannot fail: inside `width x height` the cell exists.
pub open spec fn settable(g: GridModel, r: int, c: int) -> bool {
    (0 <= r < g.1 && 0 <= c < g.0) ==> r < g.2.len() && c < g.2[r].len()
}

/// `predict` cannot fail on this grid: the edge test is defined and, where a
/// rule applies, the size and positions fit in an `i32`, the moved position
/// does not overflow, and the target cell can be written.
pub open spec fn predict_defined(rules: Seq<RuleModel>, size: int, action: u8, g: GridModel) -> bool {
    match find_color_model(g, 1) {
        None => true,
        Some((r, c)) => {
            &&& move_defined(action, size)
            &&& match first_rule(rules, action, edge_model(action, r, c, size)) {
                None => true,
                Some(i) => {
                    &&& 1 <= size <= i32::MAX
                    &&& r <= i32::MAX && c <= i32::MAX
                    &&& r + rules[i].2 <= i32::MAX
                    &&& c + rules[i].3 <= i32::MAX
                    &&& settable(g, clamp(r + rules[i].2, 0, size - 1), clamp(c + rules[i].3, 0, size - 1))
                },
            }
        },
    }
}

/// How the world moves the marker for `action`: one cell in its direction,
/// nothing against the edge or for an unknown action.
pub open spec fn world_delta(action: u8, edge: bool) -> (int, int) {
    if edge {
        (0, 0)
    } else if action == ACTION_UP {
        (-1, 0)
    } else if action == ACTION_DOWN {
        (1, 0)
    } else if action == ACTION_LEFT {
        (0, -1)
    } else if action == ACTION_RIGHT {
        (0, 1)
    } else {
        (0, 0)
    }
}

/// Clearing a cell that was just written restores a background cell.
proof fn lemma_set_back(g: GridModel, r: int, c: int)
    requires
        0 <= r < g.1,
        0 <= c < g.0,
        r < g.2.len(),
        c < g.2[r].len(),
        g.2[r][c] == 0,
    ensures
        set_model(set_model(g, r, c, 1), r, c, 0) == g,
{
    let h = set_model(set_model(g, r, c, 1), r, c, 0);
    assert(h.2[r] =~= g.2[r]);
}

/// Rules generalize: a rule whose delta is the world's own predicts the
/// world's next observation from any marker position on the board, seen
/// before or not.
pub proof fn law_rule_predicts_world(rules: Seq<RuleModel>, size: usize, action: u8, r: int, c: int)
    requires
        0 <= r < size,
        0 <= c < size,
        first_rule(rules, action, edge_model(action, r, c, size as int)) matches Some(i) && (
        rules[i].2 as int, rules[i].3 as int) == world_delta(action, edge_model(action, r, c, size as int)),
    ensures
        predict_model(rules, size as int, action, observe_model(size, r, c)) == Some(
            observe_model(size, step_pos((r, c), action, size as int).0, step_pos((r, c), action, size as int).1),
        ),
{
    law_observe_shows_marker(size, r, c);
    let f = crate::grid::filled_model(size, size, 0);
    lemma_set_back(f, r, c);
}

/// An experience of the world shows the world's own move: the marker's
/// displacement between two observations is `world_delta` of the action and
/// of whether the marker was against that edge.
pub proof fn law_world_experience_shows_world_delta(size: usize, action: u8, r: int, c: int, w: u32)
    requires
        0 <= r < size,
        0 <= c < size,
    ensures
        ({
            let p = step_pos((r, c), action, size as int);
            let e = edge_model(action, r, c, size as int);
            obs_of(action, observe_model(size, r, c), observe_model(size, p.0, p.1), w, size as int)
                matches Some(o) && o.0 == action && o.1 == e && (o.2 as int, o.3 as int)
                == world_delta(action, e) && o.4 == w
        }),
{
    let p = step_pos((r, c), action, size as int);
    law_observe_shows_marker(size, r, c);
    law_observe_shows_marker(size, p.0, p.1);
}

proof fn lemma_single_delta_total(obs: Seq<Obs>, a: u8, e: bool)
    requires
        forall|i: int| 0 <= i < obs.len() ==> ((#[trigger] obs[i]).2 as int, obs[i].3 as int)
            == world_delta(obs[i].0, obs[i].1),
    ensures
        ({
            let d = world_delta(a, e);
            delta_total(obs, a, e, d.0 as i32, d.1 as i32) == key_total(obs, a, e)
        }),
    decreases obs.len(),
{
    if obs.len() > 0 {
        lemma_single_delta_total(obs.drop_last(), a, e);
    }
}

/// Learned from the world, rules are exact: when every observed move is the
/// world's own, every extracted rule carries the world's delta for its key,
/// with full confidence (its count is its key's total).
pub proof fn law_world_rules_exact(obs: Seq<Obs>, rules: Seq<RuleModel>)
    requires
        forall|i: int| 0 <= i < obs.len() ==> ((#[trigger] obs[i]).2 as int, obs[i].3 as int)
            == world_delta(obs[i].0, obs[i].1),
        rules_summarize(obs, rules),
    ensures
        forall|j: int| 0 <= j < rules.len() ==> ((#[trigger] rules[j]).2 as int, rules[j].3 as int)
            == world_delta(rules[j].0, rules[j].1) && rules[j].4 == rules[j].5,
{
    assert forall|j: int| 0 <= j < rules.len() implies ((#[trigger] rules[j]).2 as int, rules[j].3 as int)
        == world_delta(rules[j].0, rules[j].1) && rules[j].4 == rules[j].5 by {
        let q = rules[j];
        lemma_single_delta_total(obs, q.0, q.1);
    }
}

proof fn lemma_delta_le_key(obs: Seq<Obs>, a: u8, e: bool, dr: i32, dc: i32)
    ensures
        delta_total(obs, a, e, dr, dc) <= key_total(obs, a, e),
    decreases obs.len(),
{
    if obs.len() > 0 {
        lemma_delta_le_key(obs.drop_last(), a, e, dr, dc);
    }
}

proof fn lemma_key_prefix(obs: Seq<Obs>, a: u8, e: bool, n: int)
    requires
        0 <= n <= obs.len(),
    ensures
        key_total(obs.take(n), a, e) <= key_total(obs, a, e),
    decreases obs.len(),
{
    if n == obs.len() {
        assert(obs.take(n) =~= obs);
    } else {
        assert(obs.drop_last().take(n) =~= obs.take(n));
        lemma_key_prefix(obs.drop_last(), a, e, n);
    }
}

proof fn lemma_delta_prefix(obs: Seq<Obs>, a: u8, e: bool, dr: i32, dc: i32, n: int)
    requires
        0 <= n <= obs.len(),
    ensures
        delta_total(obs.take(n), a, e, dr, dc) <= delta_total(obs, a, e, dr, dc),
    decreases obs.len(),
{
    if n == obs.len() {
        assert(obs.take(n) =~= obs);
    } else {
        assert(obs.drop_last().take(n) =~= obs.take(n));
        lemma_delta_prefix(obs.drop_last(), a, e, dr, dc, n);
    }
}

proof fn lemma_delta_positive(obs: Seq<Obs>, i: int)
    requires
        0 <= i < obs.len(),
        obs[i].4 >= 1,
    ensures
        delta_total(obs, obs[i].0, obs[i].1, obs[i].2, obs[i].3) >= 1,
    decreases obs.len(),
{
    if i < obs.len() - 1 {
        lemma_delta_positive(obs.drop_last(), i);
    }
}

proof fn lemma_key_observed(obs: Seq<Obs>, a: u8, e: bool)
    requires
        key_total(obs, a, e) > 0,
    ensures
        exists|i: int| 0 <= i < obs.len() && obs_has_key(#[trigger] obs[i], a, e),
    decreases obs.len(),
{
    if obs.last().0 == a && obs.last().1 == e {
    } else {
        lemma_key_observed(obs.drop_last(), a, e);
    }
}

proof fn lemma_delta_observed(obs: Seq<Obs>, a: u8, e: bool, dr: i32, dc: i32)
    requires
        delta_total(obs, a, e, dr, dc) > 0,
    ensures
        exists|i: int| 0 <= i < obs.len() && obs_has_key(#[trigger] obs[i], a, e) && obs[i].2 == dr && obs[i].3 == dc,
    decreases obs.len(),
{
    let l = obs.last();
    if l.0 == a && l.1 == e && l.2 == dr && l.3 == dc {
    } else {
        lemma_delta_observed(obs.drop_last(), a, e, dr, dc);
        let i = choose|i: int| 0 <= i < obs.drop_last().len() && obs_has_key(obs.drop_last()[i], a, e)
            && obs.drop_last()[i].2 == dr && obs.drop_last()[i].3 == dc;
    }
}

/// Some rule in `rules` has the key, count and total of `q`.
pub open spec fn has_rule_like(rules: Seq<RuleModel>, q: RuleModel) -> bool {
    exists|j: int|
        0 <= j < rules.len() && rules[j].0 == q.0 && rules[j].1 == q.1 && rules[j].4 == q.4 && rules[j].5 == q.5
}

/// Each rule of `r1` has a rule in `r2` for the same key, with the same count
/// and the same total.
pub open spec fn rules_correspond(r1: Seq<RuleModel>, r2: Seq<RuleModel>) -> bool {
    forall|i: int| 0 <= i < r1.len() ==> #[trigger] has_rule_like(r2, r1[i])
}

/// Rules depend only on how much weight each observed move carries: two
/// observation sequences that weigh every key and every (key, delta) alike
/// give rules for the same keys, with the same counts and totals. (Which of
/// two equally heavy deltas a rule keeps is not fixed.)
pub proof fn law_rules_follow_weights(obs1: Seq<Obs>, obs2: Seq<Obs>, r1: Seq<RuleModel>, r2: Seq<RuleModel>)
    requires
        forall|i: int| 0 <= i < obs1.len() ==> (#[trigger] obs1[i]).4 >= 1,
        forall|i: int| 0 <= i < obs2.len() ==> (#[trigger] obs2[i]).4 >= 1,
        rules_summarize(obs1, r1),
        rules_summarize(obs2, r2),
        forall|a: u8, e: bool| #[trigger] key_total(obs1, a, e) == key_total(obs2, a, e),
        forall|a: u8, e: bool, dr: i32, dc: i32|
            #[trigger] delta_total(obs1, a, e, dr, dc) == delta_total(obs2, a, e, dr, dc),
    ensures
        rules_correspond(r1, r2),
{
    assert forall|i: int| 0 <= i < r1.len() implies #[trigger] has_rule_like(r2, r1[i]) by {
        let r = r1[i];
        let x = choose|x: int| 0 <= x < obs1.len() && obs_has_key(obs1[x], r.0, r.1) && obs1[x].2 == r.2 && obs1[x].3 == r.3;
        lemma_delta_positive(obs1, x);
        lemma_delta_le_key(obs1, r.0, r.1, r.2, r.3);
        lemma_key_observed(obs2, r.0, r.1);
        let y = choose|y: int| 0 <= y < obs2.len() && obs_has_key(obs2[y], r.0, r.1);
        let j = choose|j: int| 0 <= j < r2.len() && r2[j].0 == obs2[y].0 && r2[j].1 == obs2[y].1;
        let q = r2[j];
        // r's delta weighs the same in obs2, so q's count is at least r's
        lemma_delta_observed(obs2, r.0, r.1, r.2, r.3);
        // q's delta weighs the same in obs1, so r's count is at least q's
        let w = choose|w: int| 0 <= w < obs2.len() && obs_has_key(obs2[w], q.0, q.1) && obs2[w].2 == q.2 && obs2[w].3 == q.3;
        lemma_delta_positive(obs2, w);
        lemma_delta_observed(obs1, q.0, q.1, q.2, q.3);
    }
}

/// The move has key `(action, edge)` and, if `d` names one, that delta.
pub open spec fn obs_sel(o: Obs, action: u8, edge: bool, d: Option<(i32, i32)>) -> bool {
    o.0 == action && o.1 == edge && match d {
        Some(x) => o.2 == x.0 && o.3 == x.1,
        None => true,
    }
}

/// Total weight of the moves that `obs_sel` picks.
pub open spec fn sel_total(obs: Seq<Obs>, action: u8, edge: bool, d: Option<(i32, i32)>) -> nat
    decreases obs.len(),
{
    if obs.len() == 0 {
        0
    } else {
        sel_total(obs.drop_last(), action, edge, d) + (if obs_sel(obs.last(), action, edge, d) {
            obs.last().4 as nat
        } else {
            0nat
        })
    }
}

/// The weight that a stored tuple gives the picked moves.
pub open spec fn tuple_w(t: TupleModel, size: int, action: u8, edge: bool, d: Option<(i32, i32)>) -> nat {
    match obs_of(t.0, t.1, t.2, t.3, size) {
        Some(o) => if obs_sel(o, action, edge, d) { t.3 as nat } else { 0 },
        None => 0,
    }
}

/// Total weight that stored tuples give the picked moves.
pub open spec fn tuple_total(s: Seq<TupleModel>, size: int, action: u8, edge: bool, d: Option<(i32, i32)>) -> nat
    decreases s.len(),
{
    if s.len() == 0 {
        0
    } else {
        tuple_total(s.drop_last(), size, action, edge, d) + tuple_w(s.last(), size, action, edge, d)
    }
}

/// A key's total is the total of the moves picked by that key.
proof fn lemma_sel_key(obs: Seq<Obs>, action: u8, edge: bool)
    ensures
        key_total(obs, action, edge) == sel_total(obs, action, edge, None),
    decreases obs.len(),
{
    if obs.len() > 0 {
        lemma_sel_key(obs.drop_last(), action, edge);
    }
}

/// A delta's total is the total of the moves picked by that key and delta.
proof fn lemma_sel_delta(obs: Seq<Obs>, action: u8, edge: bool, dr: i32, dc: i32)
    ensures
        delta_total(obs, action, edge, dr, dc) == sel_total(obs, action, edge, Some((dr, dc))),
    decreases obs.len(),
{
    if obs.len() > 0 {
        lemma_sel_delta(obs.drop_last(), action, edge, dr, dc);
    }
}

/// The picked moves of stored tuples weigh what the tuples give them.
proof fn lemma_memory_obs_total(s: Seq<TupleModel>, size: int, action: u8, edge: bool, d: Option<(i32, i32)>)
    ensures
        sel_total(memory_obs(s, size), action, edge, d) == tuple_total(s, size, action, edge, d),
    decreases s.len(),
{
    if s.len() > 0 {
        lemma_memory_obs_total(s.drop_last(), size, action, edge, d);
        let prev = memory_obs(s.drop_last(), size);
        let t = s.last();
        if let Some(o) = obs_of(t.0, t.1, t.2, t.3, size) {
            assert(prev.push(o).drop_last() =~= prev);
        }
    }
}

/// Replacing a tuple changes the total by the difference of the two weights.
proof fn lemma_tuple_total_update(s: Seq<TupleModel>, i: int, t: TupleModel, size: int, action: u8, edge: bool, d: Option<(i32, i32)>)
    requires
        0 <= i < s.len(),
    ensures
        tuple_total(s.update(i, t), size, action, edge, d) + tuple_w(s[i], size, action, edge, d)
            == tuple_total(s, size, action, edge, d) + tuple_w(t, size, action, edge, d),
    decreases s.len(),
{
    let u = s.update(i, t);
    if i == s.len() - 1 {
        assert(u.drop_last() =~= s.drop_last());
    } else {
        assert(u.drop_last() =~= s.drop_last().update(i, t));
        lemma_tuple_total_update(s.drop_last(), i, t, size, action, edge, d);
    }
}

/// Every store that the calls make is possible.
pub open spec fn run_storable(calls: Seq<(u8, GridModel, GridModel)>) -> bool {
    forall|i: int|
        0 <= i < calls.len() ==> can_store(memory_run(calls.take(i)), (#[trigger] calls[i]).0, calls[i].1, calls[i].2)
}

/// A memory given raw experiences keeps its invariant and weighs every
/// picked move as the raw experiences do.
proof fn lemma_run_weights(calls: Seq<(u8, GridModel, GridModel)>, size: int, action: u8, edge: bool, d: Option<(i32, i32)>)
    requires
        run_storable(calls),
    ensures
        memory_inv(memory_run(calls)),
        tuple_total(memory_run(calls).0, size, action, edge, d) == sel_total(raw_obs(calls, size), action, edge, d),
    decreases calls.len(),
{
    if calls.len() == 0 {
    } else {
        let prev = calls.drop_last();
        assert forall|i: int| 0 <= i < prev.len() implies can_store(
            memory_run(prev.take(i)),
            (#[trigger] prev[i]).0,
            prev[i].1,
            prev[i].2,
        ) by {
            assert(prev.take(i) =~= calls.take(i));
            assert(prev[i] == calls[i]);
        }
        lemma_run_weights(prev, size, action, edge, d);
        let mp = memory_run(prev);
        let c = calls.last();
        assert(calls.take(calls.len() - 1) =~= prev);
        assert(calls[calls.len() - 1] == c);
        assert(can_store(mp, c.0, c.1, c.2));
        law_store_keeps_inv(mp, c.0, c.1, c.2);
        let ro = raw_obs(prev, size);
        if let Some(o) = obs_of(c.0, c.1, c.2, 1u32, size) {
            assert(ro.push(o).drop_last() =~= ro);
        }
        if exists|i: int| 0 <= i < mp.0.len() && triple_matches(mp.0[i], c.0, c.1, c.2) {
            let i = choose|i: int| 0 <= i < mp.0.len() && triple_matches(mp.0[i], c.0, c.1, c.2);
            let t = (c.0, c.1, c.2, (mp.0[i].3 + 1) as u32);
            lemma_tuple_total_update(mp.0, i, t, size, action, edge, d);
        } else {
            let t = (c.0, c.1, c.2, 1u32);
            assert(mp.0.push(t).drop_last() =~= mp.0);
        }
    }
}

/// Stored tuples with positive counts show moves of positive weight.
proof fn lemma_memory_obs_positive(s: Seq<TupleModel>, size: int)
    requires
        forall|i: int| 0 <= i < s.len() ==> #[trigger] s[i].3 >= 1,
    ensures
        forall|i: int| 0 <= i < memory_obs(s, size).len() ==> (#[trigger] memory_obs(s, size)[i]).4 >= 1,
    decreases s.len(),
{
    if s.len() > 0 {
        lemma_memory_obs_positive(s.drop_last(), size);
        let prev = memory_obs(s.drop_last(), size);
        let t = s.last();
        assert(t == s[s.len() - 1]);
        if let Some(o) = obs_of(t.0, t.1, t.2, t.3, size) {
            let m = prev.push(o);
            assert forall|i: int| 0 <= i < m.len() implies (#[trigger] m[i]).4 >= 1 by {
                if i < prev.len() {
                    assert(m[i] == prev[i]);
                }
            }
        }
    }
}

/// Raw experiences show moves of weight one.
proof fn lemma_raw_obs_unit(calls: Seq<(u8, GridModel, GridModel)>, size: int)
    ensures
        forall|i: int| 0 <= i < raw_obs(calls, size).len() ==> (#[trigger] raw_obs(calls, size)[i]).4 == 1,
    decreases calls.len(),
{
    if calls.len() > 0 {
        lemma_raw_obs_unit(calls.drop_last(), size);
        let prev = raw_obs(calls.drop_last(), size);
        let t = calls.last();
        if let Some(o) = obs_of(t.0, t.1, t.2, 1u32, size) {
            let m = prev.push(o);
            assert forall|i: int| 0 <= i < m.len() implies (#[trigger] m[i]).4 == 1 by {
                if i < prev.len() {
                    assert(m[i] == prev[i]);
                }
            }
        }
    }
}

/// Counting raw experiences once each weighs every move exactly as storing
/// them in a memory does: for every key, and every key with a delta, the
/// memory's observations and the raw ones carry the same total weight.
pub proof fn law_raw_and_memory_weigh_alike(calls: Seq<(u8, GridModel, GridModel)>, size: int)
    requires
        run_storable(calls),
    ensures
        memory_inv(memory_run(calls)),
        forall|a: u8, e: bool|
            #[trigger] key_total(memory_obs(memory_run(calls).0, size), a, e) == key_total(raw_obs(calls, size), a, e),
        forall|a: u8, e: bool, dr: i32, dc: i32|
            #[trigger] delta_total(memory_obs(memory_run(calls).0, size), a, e, dr, dc) == delta_total(
                raw_obs(calls, size),
                a,
                e,
                dr,
                dc,
            ),
{
    let m = memory_run(calls);
    lemma_run_weights(calls, size, 0, false, None);
    assert forall|a: u8, e: bool|
        #[trigger] key_total(memory_obs(m.0, size), a, e) == key_total(raw_obs(calls, size), a, e) by {
        lemma_run_weights(calls, size, a, e, None);
        lemma_memory_obs_total(m.0, size, a, e, None);
        lemma_sel_key(memory_obs(m.0, size), a, e);
        lemma_sel_key(raw_obs(calls, size), a, e);
    }
    assert forall|a: u8, e: bool, dr: i32, dc: i32|
        #[trigger] delta_total(memory_obs(m.0, size), a, e, dr, dc) == delta_total(raw_obs(calls, size), a, e, dr, dc) by {
        lemma_run_weights(calls, size, a, e, Some((dr, dc)));
        lemma_memory_obs_total(m.0, size, a, e, Some((dr, dc)));
        lemma_sel_delta(memory_obs(m.0, size), a, e, dr, dc);
        lemma_sel_delta(raw_obs(calls, size), a, e, dr, dc);
    }
}



/// No key's heaviest weight is reached by two different deltas.
pub open spec fn no_top_tie(obs: Seq<Obs>) -> bool {
    forall|x: int, y: int|
        #![trigger obs[x], obs[y]]
        0 <= x < obs.len() && 0 <= y < obs.len() && obs[x].0 == obs[y].0 && obs[x].1 == obs[y].1 && (obs[x].2
            != obs[y].2 || obs[x].3 != obs[y].3) && delta_total(obs, obs[x].0, obs[x].1, obs[x].2, obs[x].3)
            == delta_total(obs, obs[y].0, obs[y].1, obs[y].2, obs[y].3) ==> exists|z: int|
            0 <= z < obs.len() && obs_has_key(#[trigger] obs[z], obs[x].0, obs[x].1) && delta_total(
                obs,
                obs[z].0,
                obs[z].1,
                obs[z].2,
                obs[z].3,
            ) > delta_total(obs, obs[x].0, obs[x].1, obs[x].2, obs[x].3)
}

/// Some rule in `rules` is exactly `q`.
pub open spec fn has_rule(rules: Seq<RuleModel>, q: RuleModel) -> bool {
    exists|j: int| 0 <= j < rules.len() && rules[j] == q
}

/// Without top ties, a rule extracted from one of two equally weighted
/// observation sequences is also extracted from the other.
proof fn lemma_same_rule(obs1: Seq<Obs>, obs2: Seq<Obs>, r1: Seq<RuleModel>, r2: Seq<RuleModel>, i: int)
    requires
        forall|k: int| 0 <= k < obs1.len() ==> (#[trigger] obs1[k]).4 >= 1,
        forall|k: int| 0 <= k < obs2.len() ==> (#[trigger] obs2[k]).4 >= 1,
        rules_summarize(obs1, r1),
        rules_summarize(obs2, r2),
        forall|a: u8, e: bool| #[trigger] key_total(obs1, a, e) == key_total(obs2, a, e),
        forall|a: u8, e: bool, dr: i32, dc: i32|
            #[trigger] delta_total(obs1, a, e, dr, dc) == delta_total(obs2, a, e, dr, dc),
        no_top_tie(obs1),
        0 <= i < r1.len(),
    ensures
        has_rule(r2, r1[i]),
{
    law_rules_follow_weights(obs1, obs2, r1, r2);
    let r = r1[i];
    assert(has_rule_like(r2, r));
    let j = choose|j: int| 0 <= j < r2.len() && r2[j].0 == r.0 && r2[j].1 == r.1 && r2[j].4 == r.4 && r2[j].5 == r.5;
    let q = r2[j];
    assert(rule_fits(obs1, r));
    assert(rule_fits(obs2, q));
    if q.2 != r.2 || q.3 != r.3 {
        let x = choose|x: int| 0 <= x < obs1.len() && obs_has_key(#[trigger] obs1[x], r.0, r.1) && obs1[x].2 == r.2 && obs1[x].3 == r.3;
        assert(delta_total(obs1, q.0, q.1, q.2, q.3) == delta_total(obs2, q.0, q.1, q.2, q.3));
        let w = choose|w: int| 0 <= w < obs2.len() && obs_has_key(#[trigger] obs2[w], q.0, q.1) && obs2[w].2 == q.2 && obs2[w].3 == q.3;
        lemma_delta_positive(obs2, w);
        lemma_delta_observed(obs1, q.0, q.1, q.2, q.3);
        let y = choose|y: int| 0 <= y < obs1.len() && obs_has_key(#[trigger] obs1[y], q.0, q.1) && obs1[y].2 == q.2 && obs1[y].3 == q.3;
        assert(obs1[x].0 == obs1[y].0 && obs1[x].1 == obs1[y].1);
        let z = choose|z: int|
            0 <= z < obs1.len() && obs_has_key(#[trigger] obs1[z], obs1[x].0, obs1[x].1) && delta_total(
                obs1,
                obs1[z].0,
                obs1[z].1,
                obs1[z].2,
                obs1[z].3,
            ) > delta_total(obs1, obs1[x].0, obs1[x].1, obs1[x].2, obs1[x].3);
        assert(false);
    }
    assert(r2[j] == r);
}

/// Rule sets with unique keys that hold each other's rules are equally long.
proof fn lemma_same_rule_count(r1: Seq<RuleModel>, r2: Seq<RuleModel>)
    requires
        rule_keys_unique(r1),
        rule_keys_unique(r2),
        forall|i: int| 0 <= i < r1.len() ==> #[trigger] has_rule(r2, r1[i]),
        forall|j: int| 0 <= j < r2.len() ==> #[trigger] has_rule(r1, r2[j]),
    ensures
        r1.len() == r2.len(),
{
    assert forall|i: int, j: int| 0 <= i < r1.len() && 0 <= j < r1.len() && i != j implies r1[i] != r1[j] by {
        if i < j {
            assert(!(r1[i].0 == r1[j].0 && r1[i].1 == r1[j].1));
        } else {
            assert(!(r1[j].0 == r1[i].0 && r1[j].1 == r1[i].1));
        }
    }
    assert forall|i: int, j: int| 0 <= i < r2.len() && 0 <= j < r2.len() && i != j implies r2[i] != r2[j] by {
        if i < j {
            assert(!(r2[i].0 == r2[j].0 && r2[i].1 == r2[j].1));
        } else {
            assert(!(r2[j].0 == r2[i].0 && r2[j].1 == r2[i].1));
        }
    }
    assert forall|x: RuleModel| r1.to_set().contains(x) <==> r2.to_set().contains(x) by {
        if r1.contains(x) {
            let i = choose|i: int| 0 <= i < r1.len() && r1[i] == x;
            assert(has_rule(r2, r1[i]));
            let j = choose|j: int| 0 <= j < r2.len() && r2[j] == r1[i];
            assert(r2[j] == x);
        }
        if r2.contains(x) {
            let j = choose|j: int| 0 <= j < r2.len() && r2[j] == x;
            assert(has_rule(r1, r2[j]));
            let i = choose|i: int| 0 <= i < r1.len() && r1[i] == r2[j];
            assert(r1[i] == x);
        }
    }
    assert(r1.to_set() =~= r2.to_set());
    r1.unique_seq_to_set();
    r2.unique_seq_to_set();
}

/// Without ties at the top, raw and memory extraction give the same rules:
/// every rule of one is a rule of the other, both give as many rules, and
/// both predict alike.
pub proof fn law_raw_and_memory_extraction_same_rules(
    calls: Seq<(u8, GridModel, GridModel)>,
    size: int,
    from_memory: Seq<RuleModel>,
    from_raw: Seq<RuleModel>,
)
    requires
        run_storable(calls),
        no_top_tie(raw_obs(calls, size)),
        rules_summarize(memory_obs(memory_run(calls).0, size), from_memory),
        rules_summarize(raw_obs(calls, size), from_raw),
    ensures
        forall|i: int| 0 <= i < from_memory.len() ==> #[trigger] has_rule(from_raw, from_memory[i]),
        forall|j: int| 0 <= j < from_raw.len() ==> #[trigger] has_rule(from_memory, from_raw[j]),
        forall|action: u8, g: GridModel|
            #[trigger] predict_model(from_memory, size, action, g) == predict_model(from_raw, size, action, g),
        from_memory.len() == from_raw.len(),
{
    let mo = memory_obs(memory_run(calls).0, size);
    let ro = raw_obs(calls, size);
    law_raw_and_memory_weigh_alike(calls, size);
    lemma_memory_obs_positive(memory_run(calls).0, size);
    lemma_raw_obs_unit(calls, size);
    lemma_tie_transfer(ro, mo);
    assert forall|i: int| 0 <= i < from_memory.len() implies #[trigger] has_rule(from_raw, from_memory[i]) by {
        lemma_same_rule(mo, ro, from_memory, from_raw, i);
    }
    assert forall|j: int| 0 <= j < from_raw.len() implies #[trigger] has_rule(from_memory, from_raw[j]) by {
        lemma_same_rule(ro, mo, from_raw, from_memory, j);
    }
    assert forall|action: u8, g: GridModel|
        #[trigger] predict_model(from_memory, size, action, g) == predict_model(from_raw, size, action, g) by {
        if let Some((r, c)) = find_color_model(g, 1) {
            let e = edge_model(action, r, c, size);
            lemma_first_rule_same(from_memory, from_raw, action, e);
        }
    }
    lemma_same_rule_count(from_memory, from_raw);
}


/// Observations that weigh every delta alike share the absence of top ties.
proof fn lemma_tie_transfer(o1: Seq<Obs>, o2: Seq<Obs>)
    requires
        forall|k: int| 0 <= k < o1.len() ==> (#[trigger] o1[k]).4 >= 1,
        forall|k: int| 0 <= k < o2.len() ==> (#[trigger] o2[k]).4 >= 1,
        forall|a: u8, e: bool, dr: i32, dc: i32|
            #[trigger] delta_total(o1, a, e, dr, dc) == delta_total(o2, a, e, dr, dc),
        no_top_tie(o1),
    ensures
        no_top_tie(o2),
{
    assert forall|x: int, y: int|
        #![trigger o2[x], o2[y]]
        0 <= x < o2.len() && 0 <= y < o2.len() && o2[x].0 == o2[y].0 && o2[x].1 == o2[y].1 && (o2[x].2
            != o2[y].2 || o2[x].3 != o2[y].3) && delta_total(o2, o2[x].0, o2[x].1, o2[x].2, o2[x].3)
            == delta_total(o2, o2[y].0, o2[y].1, o2[y].2, o2[y].3) implies exists|z: int|
            0 <= z < o2.len() && obs_has_key(#[trigger] o2[z], o2[x].0, o2[x].1) && delta_total(
                o2,
                o2[z].0,
                o2[z].1,
                o2[z].2,
                o2[z].3,
            ) > delta_total(o2, o2[x].0, o2[x].1, o2[x].2, o2[x].3) by {
        let p = o2[x];
        let q = o2[y];
        lemma_delta_positive(o2, x);
        lemma_delta_positive(o2, y);
        assert(delta_total(o1, p.0, p.1, p.2, p.3) == delta_total(o2, p.0, p.1, p.2, p.3));
        assert(delta_total(o1, q.0, q.1, q.2, q.3) == delta_total(o2, q.0, q.1, q.2, q.3));
        lemma_delta_observed(o1, p.0, p.1, p.2, p.3);
        lemma_delta_observed(o1, q.0, q.1, q.2, q.3);
        let x1 = choose|w: int| 0 <= w < o1.len() && obs_has_key(#[trigger] o1[w], p.0, p.1) && o1[w].2 == p.2 && o1[w].3 == p.3;
        let y1 = choose|w: int| 0 <= w < o1.len() && obs_has_key(#[trigger] o1[w], q.0, q.1) && o1[w].2 == q.2 && o1[w].3 == q.3;
        assert(o1[x1].0 == o1[y1].0);
        let z1 = choose|z: int|
            0 <= z < o1.len() && obs_has_key(#[trigger] o1[z], o1[x1].0, o1[x1].1) && delta_total(
                o1,
                o1[z].0,
                o1[z].1,
                o1[z].2,
                o1[z].3,
            ) > delta_total(o1, o1[x1].0, o1[x1].1, o1[x1].2, o1[x1].3);
        let t = o1[z1];
        lemma_delta_positive(o1, z1);
        assert(delta_total(o2, t.0, t.1, t.2, t.3) == delta_total(o1, t.0, t.1, t.2, t.3));
        lemma_delta_observed(o2, t.0, t.1, t.2, t.3);
        let z = choose|w: int| 0 <= w < o2.len() && obs_has_key(#[trigger] o2[w], t.0, t.1) && o2[w].2 == t.2 && o2[w].3 == t.3;
        assert(delta_total(o2, o2[z].0, o2[z].1, o2[z].2, o2[z].3) > delta_total(o2, p.0, p.1, p.2, p.3));
    }
}

/// Rule sets with unique keys and the same rules find the same first rule.
proof fn lemma_first_rule_same(r1: Seq<RuleModel>, r2: Seq<RuleModel>, action: u8, edge: bool)
    requires
        rule_keys_unique(r1),
        rule_keys_unique(r2),
        forall|i: int| 0 <= i < r1.len() ==> #[trigger] has_rule(r2, r1[i]),
        forall|j: int| 0 <= j < r2.len() ==> #[trigger] has_rule(r1, r2[j]),
    ensures
        first_rule(r1, action, edge) is Some <==> first_rule(r2, action, edge) is Some,
        first_rule(r1, action, edge) is Some ==> r1[first_rule(r1, action, edge)->0] == r2[first_rule(r2, action, edge)->0],
{
    if exists|i: int| is_first_rule(r1, action, edge, i) {
        let i = choose|i: int| is_first_rule(r1, action, edge, i);
        assert(has_rule(r2, r1[i]));
        let j = choose|j: int| 0 <= j < r2.len() && r2[j] == r1[i];
        assert forall|k: int| 0 <= k < j implies !(#[trigger] r2[k].0 == action && r2[k].1 == edge) by {
            if r2[k].0 == action && r2[k].1 == edge {
                assert(!(r2[k].0 == r2[j].0 && r2[k].1 == r2[j].1));
            }
        }
        assert(is_first_rule(r2, action, edge, j));
        let j2 = choose|j: int| is_first_rule(r2, action, edge, j);
        if j2 != j {
            if j2 < j {
                assert(!(r2[j2].0 == action && r2[j2].1 == edge));
            } else {
                assert(!(r2[j].0 == action && r2[j].1 == edge));
            }
        }
    } else {
        if exists|j: int| is_first_rule(r2, action, edge, j) {
            let j = choose|j: int| is_first_rule(r2, action, edge, j);
            assert(has_rule(r1, r2[j]));
            let i = choose|i: int| 0 <= i < r1.len() && r1[i] == r2[j];
            assert forall|k: int| 0 <= k < i implies !(#[trigger] r1[k].0 == action && r1[k].1 == edge) by {
                if r1[k].0 == action && r1[k].1 == edge {
                    assert(!(r1[k].0 == r1[i].0 && r1[k].1 == r1[i].1));
                }
            }
            assert(is_first_rule(r1, action, edge, i));
        }
    }
}

/// Equally weighted observations give corresponding rules both ways.
proof fn lemma_correspond_from_weights(obs1: Seq<Obs>, obs2: Seq<Obs>, r1: Seq<RuleModel>, r2: Seq<RuleModel>)
    requires
        forall|i: int| 0 <= i < obs1.len() ==> (#[trigger] obs1[i]).4 >= 1,
        forall|i: int| 0 <= i < obs2.len() ==> (#[trigger] obs2[i]).4 >= 1,
        rules_summarize(obs1, r1),
        rules_summarize(obs2, r2),
        forall|a: u8, e: bool| #[trigger] key_total(obs1, a, e) == key_total(obs2, a, e),
        forall|a: u8, e: bool, dr: i32, dc: i32|
            #[trigger] delta_total(obs1, a, e, dr, dc) == delta_total(obs2, a, e, dr, dc),
    ensures
        rules_correspond(r1, r2),
        rules_correspond(r2, r1),
{
    law_rules_follow_weights(obs1, obs2, r1, r2);
    law_rules_follow_weights(obs2, obs1, r2, r1);
}


/// Extracting rules from raw experiences agrees with extracting them from a
/// memory given the same experiences: each rule of one has a rule of the
/// other for the same key, with the same count and the same total.
pub proof fn law_raw_and_memory_extraction_agree(
    calls: Seq<(u8, GridModel, GridModel)>,
    size: int,
    from_memory: Seq<RuleModel>,
    from_raw: Seq<RuleModel>,
)
    requires
        run_storable(calls),
        rules_summarize(memory_obs(memory_run(calls).0, size), from_memory),
        rules_summarize(raw_obs(calls, size), from_raw),
    ensures
        rules_correspond(from_memory, from_raw),
        rules_correspond(from_raw, from_memory),
{
    law_raw_and_memory_weigh_alike(calls, size);
    lemma_memory_obs_positive(memory_run(calls).0, size);
    lemma_raw_obs_unit(calls, size);
    lemma_correspond_from_weights(memory_obs(memory_run(calls).0, size), raw_obs(calls, size), from_memory, from_raw);
}

/// Total weight of the moves with key `(action, edge)`.
fn sum_key(obs: &Vec<Obs>, action: u8, edge: bool) -> (t: u32)
    requires
        key_total(obs@, action, edge) <= u32::MAX,
    ensures
        t == key_total(obs@, action, edge),
{
    let n = obs.len();
    let mut t: u32 = 0;
    let mut k: usize = 0;
    while k < n
        invariant
            n == obs@.len(),
            key_total(obs@, action, edge) <= u32::MAX,
            k <= n,
            t == key_total(obs@.take(k as int), action, edge),
        decreases n - k,
    {
        proof {
            assert(obs@.take(k + 1).drop_last() =~= obs@.take(k as int));
            lemma_key_prefix(obs@, action, edge, k + 1);
        }
        let o = obs[k];
        if o.0 == action && o.1 == edge {
            t = t + o.4;
        }
        k += 1;
    }
    assert(obs@.take(n as int) =~= obs@);
    t
}

/// Total weight of the moves with key `(action, edge)` and delta `(dr, dc)`.
fn sum_delta(obs: &Vec<Obs>, action: u8, edge: bool, dr: i32, dc: i32) -> (t: u32)
    requires
        key_total(obs@, action, edge) <= u32::MAX,
    ensures
        t == delta_total(obs@, action, edge, dr, dc),
{
    let n = obs.len();
    let mut t: u32 = 0;
    let mut k: usize = 0;
    proof {
        lemma_delta_le_key(obs@, action, edge, dr, dc);
    }
    while k < n
        invariant
            n == obs@.len(),
            delta_total(obs@, action, edge, dr, dc) <= u32::MAX,
            k <= n,
            t == delta_total(obs@.take(k as int), action, edge, dr, dc),
        decreases n - k,
    {
        proof {
            assert(obs@.take(k + 1).drop_last() =~= obs@.take(k as int));
            lemma_delta_prefix(obs@, action, edge, dr, dc, k + 1);
        }
        let o = obs[k];
        if o.0 == action && o.1 == edge && o.2 == dr && o.3 == dc {
            t = t + o.4;
        }
        k += 1;
    }
    assert(obs@.take(n as int) =~= obs@);
    t
}

/// One maximum-likelihood rule per observed key, in order of first observation.
/// The tallies are scans over the observations rather than hash maps: a key
/// (action, edge, delta row, delta column) spans more bits than a `u64`, so
/// it cannot serve as an integer map key, and the order in which a hash map
/// is walked would leave the rules' order and tie-breaks to chance.
fn summarize(obs: &Vec<Obs>) -> (rules: Vec<MovementRule>)
    requires
        obs_fit(obs@),
    ensures
        rules_summarize(obs@, rules_view(rules@)),
{
    let n = obs.len();
    let mut rules: Vec<MovementRule> = Vec::new();
    let mut i: usize = 0;
    while i < n
        invariant
            n == obs@.len(),
            obs_fit(obs@),
            i <= n,
            forall|x: int| 0 <= x < rules@.len() ==> rule_fits(obs@, #[trigger] rules_view(rules@)[x]),
            forall|x: int| 0 <= x < i ==> key_ruled(rules_view(rules@), (#[trigger] obs@[x]).0, obs@[x].1),
            forall|x: int, y: int|
                #![trigger rules_view(rules@)[x], rules_view(rules@)[y]]
                0 <= x < y < rules@.len() ==> !(rules_view(rules@)[x].0 == rules_view(rules@)[y].0
                    && rules_view(rules@)[x].1 == rules_view(rules@)[y].1),
        decreases n - i,
    {
        let o = obs[i];
        let a = o.0;
        let e = o.1;
        let mut seen = false;
        let m = rules.len();
        let mut k: usize = 0;
        while k < m
            invariant
                m == rules@.len(),
                k <= m,
                !seen ==> forall|x: int| 0 <= x < k ==> !(#[trigger] rules_view(rules@)[x].0 == a && rules_view(rules@)[x].1 == e),
                seen ==> exists|x: int| 0 <= x < m && #[trigger] rules_view(rules@)[x].0 == a && rules_view(rules@)[x].1 == e,
            decreases m - k,
        {
            if rules[k].action == a && rules[k].at_edge == e {
                assert(rules_view(rules@)[k as int].0 == a);
                seen = true;
            }
            k += 1;
        }
        if !seen {
            let total = sum_key(obs, a, e);
            let mut best_dr: i32 = 0;
            let mut best_dc: i32 = 0;
            let mut best_count: u32 = 0;
            let mut j: usize = 0;
            while j < n
                invariant
                    n == obs@.len(),
                    obs_fit(obs@),
                    key_total(obs@, a, e) <= u32::MAX,
                    j <= n,
                    best_count == 0 ==> forall|y: int| 0 <= y < j ==> !obs_has_key(#[trigger] obs@[y], a, e),
                    best_count > 0 ==> {
                        &&& exists|y: int| 0 <= y < j && obs_has_key(#[trigger] obs@[y], a, e) && obs@[y].2 == best_dr && obs@[y].3 == best_dc
                        &&& best_count == delta_total(obs@, a, e, best_dr, best_dc)
                    },
                    forall|y: int| 0 <= y < j && obs_has_key(#[trigger] obs@[y], a, e) ==> delta_total(obs@, a, e, obs@[y].2, obs@[y].3) <= best_count,
                decreases n - j,
            {
                let p = obs[j];
                if p.0 == a && p.1 == e {
                    let cnt = sum_delta(obs, a, e, p.2, p.3);
                    proof {
                        lemma_delta_positive(obs@, j as int);
                    }
                    if cnt > best_count {
                        best_dr = p.2;
                        best_dc = p.3;
                        best_count = cnt;
                    }
                }
                j += 1;
            }
            let rule = MovementRule {
                action: a,
                at_edge: e,
                delta_row: best_dr,
                delta_col: best_dc,
                count: best_count,
                total,
            };
            let ghost before = rules_view(rules@);
            rules.push(rule);
            proof {
                let after = rules_view(rules@);
                assert(after =~= before.push(rule@));
                assert forall|x: int| 0 <= x <= i implies key_ruled(after, (#[trigger] obs@[x]).0, obs@[x].1) by {
                    if x < i {
                        let jj = choose|jj: int| 0 <= jj < before.len() && before[jj].0 == obs@[x].0 && before[jj].1 == obs@[x].1;
                        assert(after[jj] == before[jj]);
                    } else {
                        assert(after[before.len() as int] == rule@);
                    }
                }
            }
        }
        i += 1;
    }
    proof {
        let rv = rules_view(rules@);
        assert(forall|x: int, y: int|
                #![trigger rv[x], rv[y]]
                0 <= x < y < rv.len() ==> !(rv[x].0 == rv[y].0 && rv[x].1 == rv[y].1));
    }
    rules
}

/// Read the move shown by an experience, if both grids show the marker.
fn read_obs(action: u8, before: &Grid, after: &Grid, w: u32, size: usize) -> (o: Option<Obs>)
    requires
        obs_defined(action, before@, after@, size as int),
    ensures
        o == obs_of(action, before@, after@, w, size as int),
{
    match (before.find_marker(), after.find_marker()) {
        (Some((rb, cb)), Some((ra, ca))) => {
            let dr = ra as i32 - rb as i32;
            let dc = ca as i32 - cb as i32;
            let edge = is_at_edge(action, rb, cb, size);
            Some((action, edge, dr, dc, w))
        },
        _ => None,
    }
}

impl RuleSet {
    /// The rules, in the order they were extracted.
    pub closed spec fn rules_model(&self) -> Seq<RuleModel> {
        rules_view(self.rules@)
    }

    /// The world size that edges are computed against.
    pub closed spec fn size_model(&self) -> usize {
        self.world_size
    }

    /// An empty rule set for a world of the given size.
    pub fn new(world_size: usize) -> (rs: RuleSet)
        ensures
            rs.rules_model() == Seq::<RuleModel>::empty(),
            rs.size_model() == world_size,
    {
        let rs = RuleSet { rules: Vec::new(), world_size };
        rs
    }

    /// Extract movement rules from experience memory: for each observed
    /// (action, at_edge), the position delta with the highest total count.
    pub fn extract(&mut self, memory: &ExperienceMemory)
        requires
            memory.wf(),
            forall|i: int|
                0 <= i < memory.view().0.len() ==> obs_defined(
                    (#[trigger] memory.view().0[i]).0,
                    memory.view().0[i].1,
                    memory.view().0[i].2,
                    old(self).size_model() as int,
                ),
            forall|i: int|
                0 <= i < memory_obs(memory.view().0, old(self).size_model() as int).len() ==> key_total(
                    memory_obs(memory.view().0, old(self).size_model() as int),
                    (#[trigger] memory_obs(memory.view().0, old(self).size_model() as int)[i]).0,
                    memory_obs(memory.view().0, old(self).size_model() as int)[i].1,
                ) <= u32::MAX,
        ensures
            final(self).size_model() == old(self).size_model(),
            rules_summarize(
                memory_obs(memory.view().0, old(self).size_model() as int),
                final(self).rules_model(),
            ),
    {
        let ghost s = memory.view().0;
        let ghost size = self.world_size as int;
        let tuples = memory.iter_tuples();
        let n = tuples.len();
        let mut obs: Vec<Obs> = Vec::new();
        let mut k: usize = 0;
        proof {
            memory.lemma_inv();
        }
        while k < n
            invariant
                n == s.len(),
                tuples@.map_values(|t: crate::memory::ExperienceTuple| t@) == s,
                size == self.world_size as int,
                forall|i: int| 0 <= i < s.len() ==> #[trigger] s[i].3 >= 1,
                forall|i: int| 0 <= i < s.len() ==> obs_defined((#[trigger] s[i]).0, s[i].1, s[i].2, size),
                k <= n,
                obs@ == memory_obs(s.take(k as int), size),
                forall|i: int| 0 <= i < obs@.len() ==> (#[trigger] obs@[i]).4 >= 1,
            decreases n - k,
        {
            let t = &tuples[k];
            assert(t@ == s[k as int]);
            assert(s.take(k + 1).drop_last() =~= s.take(k as int));
            match read_obs(t.action, &t.state_before, &t.state_after, t.count, self.world_size) {
                Some(o) => {
                    obs.push(o);
                },
                None => {},
            }
            k += 1;
        }
        assert(s.take(n as int) =~= s);
        self.rules = summarize(&obs);
    }

    /// Predict the next state by applying the matching rule: clear the
    /// marker and place it at its position moved by the rule's delta, clamped
    /// to the board. `None` without a marker or without a matching rule.
    pub fn predict(&self, action: u8, state: &Grid) -> (p: Option<Grid>)
        requires
            predict_defined(self.rules_model(), self.size_model() as int, action, state@),
        ensures
            match p {
                Some(g) => predict_model(self.rules_model(), self.size_model() as int, action, state@) == Some(g@),
                None => predict_model(self.rules_model(), self.size_model() as int, action, state@) is None,
            },
    {
        let (row, col) = match state.find_marker() {
            Some(pos) => pos,
            None => return None,
        };
        proof {
            lemma_cells_first_found(state@.2, 1, 0);
        }
        let at_edge = is_at_edge(action, row, col, self.world_size);
        let i = match self.find_rule(action, at_edge) {
            Some(i) => i,
            None => return None,
        };
        let rule = &self.rules[i];
        let hi: i32 = self.world_size as i32 - 1;
        let r0: i32 = row as i32 + rule.delta_row;
        let r1: i32 = if r0 > 0 { r0 } else { 0 };
        let new_row: i32 = if r1 < hi { r1 } else { hi };
        let c0: i32 = col as i32 + rule.delta_col;
        let c1: i32 = if c0 > 0 { c0 } else { 0 };
        let new_col: i32 = if c1 < hi { c1 } else { hi };
        let mut predicted = state.clone();
        predicted.set(row, col, 0);
        proof {
            assert(predicted@.2.len() == state@.2.len());
        }
        predicted.set(new_row as usize, new_col as usize, 1);
        Some(predicted)
    }

    /// Index of the first rule for `(action, at_edge)`.
    fn find_rule(&self, action: u8, at_edge: bool) -> (i: Option<usize>)
        ensures
            match i {
                Some(i) => first_rule(self.rules_model(), action, at_edge) == Some(i as int),
                None => first_rule(self.rules_model(), action, at_edge) is None,
            },
    {
        let ghost rv = self.rules_model();
        let n = self.rules.len();
        let mut k: usize = 0;
        while k < n
            invariant
                n == rv.len(),
                rv == self.rules_model(),
                k <= n,
                forall|j: int| 0 <= j < k ==> !(#[trigger] rv[j].0 == action && rv[j].1 == at_edge),
            decreases n - k,
        {
            if self.rules[k].action == action && self.rules[k].at_edge == at_edge {
                proof {
                    assert(is_first_rule(rv, action, at_edge, k as int));
                }
                return Some(k);
            }
            k += 1;
        }
        None
    }

    /// Number of rules.
    pub fn rule_count(&self) -> (n: usize)
        ensures
            n == self.rules_model().len(),
    {
        self.rules.len()
    }

    /// The extracted rules.
    pub fn rules(&self) -> (rs: &Vec<MovementRule>)
        ensures
            rules_view(rs@) == self.rules_model(),
    {
        &self.rules
    }

    /// Extract movement rules from raw (action, state_before, state_after)
    /// experiences, each counted once, with edges computed against `world_size`.
    pub fn extract_from_raw(&mut self, tuples: &[(u8, Grid, Grid)], world_size: usize)
        requires
            forall|i: int|
                0 <= i < tuples@.len() ==> obs_defined(
                    (#[trigger] tuples@[i]).0,
                    tuples@[i].1@,
                    tuples@[i].2@,
                    world_size as int,
                ),
            forall|i: int|
                0 <= i < raw_obs(raw_model(tuples@), world_size as int).len() ==> key_total(
                    raw_obs(raw_model(tuples@), world_size as int),
                    (#[trigger] raw_obs(raw_model(tuples@), world_size as int)[i]).0,
                    raw_obs(raw_model(tuples@), world_size as int)[i].1,
                ) <= u32::MAX,
        ensures
            final(self).size_model() == old(self).size_model(),
            rules_summarize(raw_obs(raw_model(tuples@), world_size as int), final(self).rules_model()),
    {
        let ghost s = raw_model(tuples@);
        let n = tuples.len();
        let mut obs: Vec<Obs> = Vec::new();
        let mut k: usize = 0;
        while k < n
            invariant
                n == s.len(),
                s == raw_model(tuples@),
                forall|i: int|
                    0 <= i < tuples@.len() ==> obs_defined(
                        (#[trigger] tuples@[i]).0,
                        tuples@[i].1@,
                        tuples@[i].2@,
                        world_size as int,
                    ),
                k <= n,
                obs@ == raw_obs(s.take(k as int), world_size as int),
                forall|i: int| 0 <= i < obs@.len() ==> (#[trigger] obs@[i]).4 >= 1,
            decreases n - k,
        {
            let t = &tuples[k];
            assert(s.take(k + 1).drop_last() =~= s.take(k as int));
            match read_obs(t.0, &t.1, &t.2, 1, world_size) {
                Some(o) => {
                    obs.push(o);
                },
                None => {},
            }
            k += 1;
        }
        assert(s.take(n as int) =~= s);
        self.rules = summarize(&obs);
    }
}

/// The abstract value of raw experiences.
pub open spec fn raw_model(t: Seq<(u8, Grid, Grid)>) -> Seq<(u8, GridModel, GridModel)> {
    t.map_values(|x: (u8, Grid, Grid)| (x.0, x.1@, x.2@))
}

} // verus!
