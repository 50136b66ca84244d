//! Goal-directed navigation: a greedy baseline that simulates each action with
//! edge clamping, and a breadth-first planner that uses the agent's learned
//! model as its simulator.
use vstd::prelude::*;
use crate::agent::Stage0Agent;
use crate::grid::{Grid, GridModel, find_color_model, manhattan, manhattan_model};
use crate::memory::{
    TupleModel, comparable_for, exact_answer, exact_choice, is_approx_choice,
    is_exact_choice, retrieve_answer,
};
use crate::world::{ACTION_DOWN, ACTION_LEFT, ACTION_RIGHT, ACTION_UP, step_pos};

verus! {

/// Where the greedy baseline expects action `a` to take the marker: one cell
/// in its direction, saturating at 0 and capped at `size - 1`.
pub open spec fn greedy_candidate(pos: (int, int), a: int, size: int) -> (int, int) {
    if a == 0 {
        (if pos.0 > 0 { pos.0 - 1 } else { 0 }, pos.1)
    } else if a == 1 {
        (if pos.0 + 1 < size - 1 { pos.0 + 1 } else { size - 1 }, pos.1)
    } else if a == 2 {
        (pos.0, if pos.1 > 0 { pos.1 - 1 } else { 0 })
    } else {
        (pos.0, if pos.1 + 1 < size - 1 { pos.1 + 1 } else { size - 1 })
    }
}

/// Distance to the goal after action `a`, as the greedy baseline sees it.
pub open spec fn greedy_dist(pos: (int, int), goal: (int, int), a: int, size: int) -> int {
    manhattan_model(greedy_candidate(pos, a, size), goal)
}

/// The greedy baseline cannot fail: a step down or right has room, the
/// board is not empty, and every candidate's distance fits in a `usize`.
pub open spec fn greedy_defined(pos: (int, int), goal: (int, int), size: int) -> bool {
    &&& pos.0 < usize::MAX && pos.1 < usize::MAX
    &&& size > 0
    &&& forall|a: int| 0 <= a < 4 ==> #[trigger] greedy_dist(pos, goal, a, size) <= usize::MAX
}

/// Greedy baseline: the action whose simulated position is nearest the goal
/// (Manhattan), the first such in the order up, down, left, right.
pub fn greedy_action(pos: (usize, usize), goal: (usize, usize), grid_size: usize) -> (a: u8)
    requires
        greedy_defined((pos.0 as int, pos.1 as int), (goal.0 as int, goal.1 as int), grid_size as int),
    ensures
        a < 4,
        forall|b: int|
            0 <= b < 4 ==> greedy_dist(
                (pos.0 as int, pos.1 as int),
                (goal.0 as int, goal.1 as int),
                a as int,
                grid_size as int,
            ) <= #[trigger] greedy_dist(
                (pos.0 as int, pos.1 as int),
                (goal.0 as int, goal.1 as int),
                b,
                grid_size as int,
            ),
        forall|b: int|
            0 <= b < a ==> greedy_dist(
                (pos.0 as int, pos.1 as int),
                (goal.0 as int, goal.1 as int),
                a as int,
                grid_size as int,
            ) < #[trigger] greedy_dist(
                (pos.0 as int, pos.1 as int),
                (goal.0 as int, goal.1 as int),
                b,
                grid_size as int,
            ),
{
    let ghost p = (pos.0 as int, pos.1 as int);
    let ghost g = (goal.0 as int, goal.1 as int);
    let up = (if pos.0 > 0 { pos.0 - 1 } else { 0 }, pos.1);
    let down = (if pos.0 + 1 < grid_size - 1 { pos.0 + 1 } else { grid_size - 1 }, pos.1);
    let left = (pos.0, if pos.1 > 0 { pos.1 - 1 } else { 0 });
    let right = (pos.0, if pos.1 + 1 < grid_size - 1 { pos.1 + 1 } else { grid_size - 1 });
    let candidates: [(u8, (usize, usize)); 4] = [
        (ACTION_UP, up),
        (ACTION_DOWN, down),
        (ACTION_LEFT, left),
        (ACTION_RIGHT, right),
    ];
    proof {
        assert(greedy_dist(p, g, 0, grid_size as int) <= usize::MAX);
        assert(greedy_dist(p, g, 1, grid_size as int) <= usize::MAX);
        assert(greedy_dist(p, g, 2, grid_size as int) <= usize::MAX);
        assert(greedy_dist(p, g, 3, grid_size as int) <= usize::MAX);
    }
    let mut best: u8 = 0;
    let mut best_d: usize = crate::grid::manhattan(candidates[0].1, goal);
    let mut k: usize = 1;
    while k < 4
        invariant
            1 <= k <= 4,
            p == (pos.0 as int, pos.1 as int),
            g == (goal.0 as int, goal.1 as int),
            greedy_defined(p, g, grid_size as int),
            forall|i: int| 0 <= i < 4 ==> candidates@[i].0 == i && (candidates@[i].1.0 as int, candidates@[i].1.1 as int) == greedy_candidate(p, i, grid_size as int),
            best < k,
            best_d == greedy_dist(p, g, best as int, grid_size as int),
            forall|b: int| 0 <= b < k ==> greedy_dist(p, g, best as int, grid_size as int) <= #[trigger] greedy_dist(p, g, b, grid_size as int),
            forall|b: int| 0 <= b < best ==> greedy_dist(p, g, best as int, grid_size as int) < #[trigger] greedy_dist(p, g, b, grid_size as int),
        decreases 4 - k,
    {
        assert(greedy_dist(p, g, k as int, grid_size as int) <= usize::MAX);
        let d = crate::grid::manhattan(candidates[k].1, goal);
        if d < best_d {
            best = candidates[k].0;
            best_d = d;
        }
        k += 1;
    }
    best
}

/// On the board, the greedy baseline's simulation is the world's own physics.
pub proof fn law_greedy_matches_world(pos: (int, int), a: u8, size: int)
    requires
        0 <= pos.0 < size,
        0 <= pos.1 < size,
        a < 4,
    ensures
        greedy_candidate(pos, a as int, size) == step_pos(pos, a, size),
{
}

/// On the board, away from the goal, the greedy choice always closes the
/// distance to the goal by exactly one step.
pub proof fn law_greedy_progress(pos: (int, int), goal: (int, int), size: int, a: int)
    requires
        0 <= pos.0 < size,
        0 <= pos.1 < size,
        0 <= goal.0 < size,
        0 <= goal.1 < size,
        pos != goal,
        0 <= a < 4,
        forall|b: int| 0 <= b < 4 ==> greedy_dist(pos, goal, a, size) <= #[trigger] greedy_dist(pos, goal, b, size),
    ensures
        greedy_dist(pos, goal, a, size) == manhattan_model(pos, goal) - 1,
{
    let toward: int = if goal.0 < pos.0 {
        0
    } else if goal.0 > pos.0 {
        1
    } else if goal.1 < pos.1 {
        2
    } else {
        3
    };
    assert(greedy_dist(pos, goal, toward, size) == manhattan_model(pos, goal) - 1);
    assert(greedy_dist(pos, goal, a, size) <= greedy_dist(pos, goal, toward, size));
}

/// The outcome of a breadth-first plan.
pub struct PlanResult {
    pub action: u8,
    pub predicted_distance: usize,
    pub depth_explored: usize,
    pub states_evaluated: usize,
    pub reached_goal: bool,
}

/// One step of the agent's model: Path A recall.
pub open spec fn model_step(s: Seq<TupleModel>, g: GridModel, a: u8) -> Option<GridModel> {
    retrieve_answer(s, a, g)
}

/// Where the marker of a grid is.
pub open spec fn marker_pos(g: GridModel) -> Option<(int, int)> {
    find_color_model(g, 1)
}

/// The marker position of a tuple's outcome, or a position no board has.
pub open spec fn outcome_pos(t: TupleModel) -> (int, int) {
    match marker_pos(t.2) {
        Some(p) => p,
        None => (-1, -1),
    }
}

/// The marker positions of the stored outcomes.
pub open spec fn outcome_positions(s: Seq<TupleModel>) -> Seq<(int, int)> {
    s.map_values(|t: TupleModel| outcome_pos(t))
}

/// Every grid the planner can ask the model about can be answered: the start
/// state and every stored outcome can be compared where exact recall fails,
/// their markers' distances to the goal fit in a `usize`, and the evaluation
/// counter cannot overflow.
pub open spec fn plan_defined(s: Seq<TupleModel>, st: GridModel, goal: (int, int)) -> bool {
    &&& forall|a: u8| a < 4 ==> (#[trigger] exact_answer(s, a, st) is None ==> comparable_for(s, a, st))
    &&& forall|i: int, a: u8|
        0 <= i < s.len() && a < 4 ==> (#[trigger] exact_answer(s, a, s[i].2) is None ==> comparable_for(s, a, s[i].2))
    &&& match marker_pos(st) {
        Some(p) => manhattan_model(p, goal) <= usize::MAX,
        None => true,
    }
    &&& forall|i: int|
        0 <= i < s.len() ==> match marker_pos(#[trigger] s[i].2) {
            Some(p) => manhattan_model(p, goal) <= usize::MAX,
            None => true,
        }
    &&& 4 * s.len() + 8 <= usize::MAX
}

/// The search depth: `max_depth`, but at least one step.
pub open spec fn depth_cap(max_depth: usize) -> int {
    if max_depth >= 1 { max_depth as int } else { 1 }
}

/// A model answer is one of the stored outcomes.
proof fn lemma_answer_stored(s: Seq<TupleModel>, a: u8, g: GridModel)
    requires
        retrieve_answer(s, a, g) is Some,
    ensures
        exists|i: int| 0 <= i < s.len() && s[i].2 == retrieve_answer(s, a, g)->0,
{
    if exact_choice(s, a, g) is Some {
        let i = choose|i: int| is_exact_choice(s, a, g, i);
        assert(s[i].2 == retrieve_answer(s, a, g)->0);
    } else {
        let i = choose|i: int| is_approx_choice(s, a, g, i);
        assert(s[i].2 == retrieve_answer(s, a, g)->0);
    }
}

/// Distinct positions drawn from `img` are no more than `img` is long.
proof fn lemma_pigeonhole(ps: Seq<(int, int)>, img: Seq<(int, int)>)
    requires
        forall|i: int, j: int| 0 <= i < j < ps.len() ==> #[trigger] ps[i] != #[trigger] ps[j],
        forall|i: int| 0 <= i < ps.len() ==> img.contains(#[trigger] ps[i]),
    ensures
        ps.len() <= img.len(),
    decreases img.len(),
{
    if img.len() == 0 {
        if ps.len() > 0 {
            assert(img.contains(ps[0]));
        }
    } else {
        let x = img.last();
        let rest = img.drop_last();
        if exists|k: int| 0 <= k < ps.len() && ps[k] == x {
            let k = choose|k: int| 0 <= k < ps.len() && ps[k] == x;
            let ps2 = ps.remove(k);
            ps.remove_ensures(k);
            assert forall|i: int| 0 <= i < ps2.len() implies rest.contains(#[trigger] ps2[i]) by {
                let pi = if i < k { i } else { i + 1 };
                assert(ps2[i] == ps[pi]);
                assert(img.contains(ps[pi]));
                let w = choose|w: int| 0 <= w < img.len() && img[w] == ps[pi];
                assert(ps[pi] != x);
                assert(w < img.len() - 1);
                assert(rest[w] == ps2[i]);
            }
            assert forall|i: int, j: int| 0 <= i < j < ps2.len() implies #[trigger] ps2[i] != #[trigger] ps2[j] by {
                let pi = if i < k { i } else { i + 1 };
                let pj = if j < k { j } else { j + 1 };
                assert(ps2[i] == ps[pi] && ps2[j] == ps[pj]);
                assert(pi < pj);
            }
            lemma_pigeonhole(ps2, rest);
        } else {
            assert forall|i: int| 0 <= i < ps.len() implies rest.contains(#[trigger] ps[i]) by {
                let w = choose|w: int| 0 <= w < img.len() && img[w] == ps[i];
                assert(w < img.len() - 1);
                assert(rest[w] == ps[i]);
            }
            lemma_pigeonhole(ps, rest);
        }
    }
}

/// A visited position: where the marker is, the first action of the route
/// that found it, and its distance to the goal.
pub type Visit = ((int, int), u8, int);

/// A search entry: a predicted grid and the first action of the route to it.
pub type Entry = (GridModel, u8);

/// The search in progress: the visited positions in the order found, the
/// layer being built, the number of predictions made, and the first action of
/// a route on which the goal was predicted, once it was.
pub type Search = (Seq<Visit>, Seq<Entry>, nat, Option<u8>);

/// Some visited position is `q`.
pub open spec fn pos_visited(v: Seq<Visit>, q: (int, int)) -> bool {
    exists|i: int| 0 <= i < v.len() && (#[trigger] v[i]).0 == q
}

/// One prediction of the search: action `a` from entry `e` of layer `depth`.
/// A predicted goal ends the search; a new position is visited, and joins the
/// next layer when `keep` says that layer will be expanded.
pub open spec fn search_step(
    s: Seq<TupleModel>,
    goal: (int, int),
    depth: nat,
    keep: bool,
    e: Entry,
    a: u8,
    t: Search,
) -> Search {
    if t.3 is Some {
        t
    } else {
        match model_step(s, e.0, a) {
            None => t,
            Some(h) => {
                let first = if depth == 0 { a } else { e.1 };
                let n = t.2 + 1;
                match marker_pos(h) {
                    None => (t.0, t.1, n, None),
                    Some(q) => if q == goal {
                        (t.0, t.1, n, Some(first))
                    } else if pos_visited(t.0, q) {
                        (t.0, t.1, n, None)
                    } else {
                        (
                            t.0.push((q, first, manhattan_model(q, goal))),
                            if keep { t.1.push((h, first)) } else { t.1 },
                            n,
                            None,
                        )
                    },
                }
            },
        }
    }
}

/// The search after the first `k` predictions of a layer: entry `k / 4` of
/// the layer, by action `k % 4`, in order.
pub open spec fn layer_prefix(
    s: Seq<TupleModel>,
    goal: (int, int),
    depth: nat,
    keep: bool,
    layer: Seq<Entry>,
    t0: Search,
    k: nat,
) -> Search
    decreases k,
{
    if k == 0 {
        t0
    } else {
        let p = (k - 1) as nat;
        search_step(s, goal, depth, keep, layer[(p / 4) as int], (p % 4) as u8, layer_prefix(s, goal, depth, keep, layer, t0, p))
    }
}

/// Expanding layer `depth`: each entry by each action, the next layer built
/// from scratch and kept only if it lies within `max_depth`.
pub open spec fn expand_layer(s: Seq<TupleModel>, goal: (int, int), depth: nat, max_depth: usize, t: Search) -> Search {
    layer_prefix(s, goal, depth, depth + 1 < max_depth, t.1, (t.0, Seq::empty(), t.2, t.3), 4 * t.1.len())
}

/// The search from `t`, after `d` layers were expanded, to its end: the final
/// search and the number of layers expanded. It ends when the goal was
/// predicted, when no layer is left, or at the depth cap.
pub open spec fn run_search(s: Seq<TupleModel>, goal: (int, int), max_depth: usize, d: nat, t: Search) -> (Search, nat)
    decreases depth_cap(max_depth) - d,
{
    if t.3 is Some || t.1.len() == 0 || d >= depth_cap(max_depth) {
        (t, d)
    } else {
        run_search(s, goal, max_depth, d + 1, expand_layer(s, goal, d, max_depth, t))
    }
}

/// The search's start: the start position visited (with UP), and the start
/// state as the only entry of layer 0.
pub open spec fn search_start(st: GridModel, goal: (int, int)) -> Search {
    let p = marker_pos(st)->0;
    (seq![(p, ACTION_UP, manhattan_model(p, goal))], seq![(st, ACTION_UP)], 0, None)
}

/// The whole breadth-first search from `st`.
pub open spec fn plan_search(s: Seq<TupleModel>, st: GridModel, goal: (int, int), max_depth: usize) -> (Search, nat) {
    run_search(s, goal, max_depth, 0, search_start(st, goal))
}

/// The model's prediction after a sequence of actions.
pub open spec fn model_run(s: Seq<TupleModel>, g: GridModel, p: Seq<u8>) -> Option<GridModel>
    decreases p.len(),
{
    if p.len() == 0 {
        Some(g)
    } else {
        match model_run(s, g, p.drop_last()) {
            Some(h) => model_step(s, h, p.last()),
            None => None,
        }
    }
}

/// Every action of the route is one of the four moves.
pub open spec fn moves_only(p: Seq<u8>) -> bool {
    forall|i: int| 0 <= i < p.len() ==> #[trigger] p[i] < 4
}

/// Some route of `len` moves, starting with the entry's first action when it
/// has a move, leads the model from `st` to the entry's grid.
pub open spec fn entry_routed(s: Seq<TupleModel>, st: GridModel, e: Entry, len: nat) -> bool {
    exists|p: Seq<u8>|
        #![trigger model_run(s, st, p)]
        p.len() == len && (len >= 1 ==> p[0] == e.1) && moves_only(p) && model_run(s, st, p) == Some(e.0)
}

/// Some route of between one and `bound` moves, starting with `first`, leads
/// the model from `st` to a grid with the marker at `q`.
pub open spec fn routed_to(s: Seq<TupleModel>, st: GridModel, q: (int, int), first: u8, bound: nat) -> bool {
    exists|p: Seq<u8>|
        #![trigger model_run(s, st, p)]
        1 <= p.len() <= bound && p[0] == first && moves_only(p) && match model_run(s, st, p) {
            Some(h) => marker_pos(h) == Some(q),
            None => false,
        }
}

/// Every position visited after the start, and the goal once predicted, is
/// reached by a predicted route of at most `bound` moves starting with the
/// recorded first action; every entry of the layer has a route of `len` moves.
pub open spec fn search_sound(s: Seq<TupleModel>, st: GridModel, goal: (int, int), t: Search, bound: nat, len: nat) -> bool {
    &&& forall|k: int| 1 <= k < t.0.len() ==> #[trigger] routed_to(s, st, t.0[k].0, t.0[k].1, bound)
    &&& t.3 matches Some(f) ==> routed_to(s, st, goal, f, bound)
    &&& forall|i: int| 0 <= i < t.1.len() ==> #[trigger] entry_routed(s, st, t.1[i], len)
}

proof fn lemma_routed_wider(s: Seq<TupleModel>, st: GridModel, q: (int, int), first: u8, bound: nat, wider: nat)
    requires
        routed_to(s, st, q, first, bound),
        bound <= wider,
    ensures
        routed_to(s, st, q, first, wider),
{
    let p = choose|p: Seq<u8>|
        #![trigger model_run(s, st, p)]
        1 <= p.len() <= bound && p[0] == first && moves_only(p) && match model_run(s, st, p) {
            Some(h) => marker_pos(h) == Some(q),
            None => false,
        };
    assert(model_run(s, st, p) == model_run(s, st, p));
}

/// One prediction keeps the search sound: what it finds is reached by the
/// entry's route followed by the action.
proof fn lemma_step_sound(
    s: Seq<TupleModel>,
    st: GridModel,
    goal: (int, int),
    depth: nat,
    keep: bool,
    e: Entry,
    a: u8,
    t: Search,
)
    requires
        a < 4,
        entry_routed(s, st, e, depth),
        search_sound(s, st, goal, t, depth + 1, depth + 1),
    ensures
        search_sound(s, st, goal, search_step(s, goal, depth, keep, e, a, t), depth + 1, depth + 1),
{
    let u = search_step(s, goal, depth, keep, e, a, t);
    if t.3 is None {
        if let Some(h) = model_step(s, e.0, a) {
            let pe = choose|p: Seq<u8>|
                #![trigger model_run(s, st, p)]
                p.len() == depth && (depth >= 1 ==> p[0] == e.1) && moves_only(p) && model_run(s, st, p) == Some(e.0);
            let p = pe.push(a);
            assert(p.drop_last() =~= pe);
            assert(model_run(s, st, p) == Some(h));
            let first = if depth == 0 { a } else { e.1 };
            assert(p[0] == first);
            assert(moves_only(p)) by {
                assert forall|i: int| 0 <= i < p.len() implies #[trigger] p[i] < 4 by {
                    if i < pe.len() {
                        assert(p[i] == pe[i]);
                    }
                }
            }
            if let Some(q) = marker_pos(h) {
                assert(routed_to(s, st, q, first, depth + 1));
                assert forall|k: int| 1 <= k < u.0.len() implies #[trigger] routed_to(s, st, u.0[k].0, u.0[k].1, depth + 1) by {
                    if k < t.0.len() {
                        assert(u.0[k] == t.0[k]);
                    }
                }
                assert(entry_routed(s, st, (h, first), depth + 1));
                assert forall|i: int| 0 <= i < u.1.len() implies #[trigger] entry_routed(s, st, u.1[i], depth + 1) by {
                    if i < t.1.len() {
                        assert(u.1[i] == t.1[i]);
                    }
                }
            }
        }
    }
}

proof fn lemma_prefix_sound(
    s: Seq<TupleModel>,
    st: GridModel,
    goal: (int, int),
    depth: nat,
    keep: bool,
    layer: Seq<Entry>,
    t0: Search,
    k: nat,
)
    requires
        forall|i: int| 0 <= i < layer.len() ==> #[trigger] entry_routed(s, st, layer[i], depth),
        search_sound(s, st, goal, t0, depth + 1, depth + 1),
        k <= 4 * layer.len(),
    ensures
        search_sound(s, st, goal, layer_prefix(s, goal, depth, keep, layer, t0, k), depth + 1, depth + 1),
    decreases k,
{
    if k > 0 {
        let p = (k - 1) as nat;
        lemma_prefix_sound(s, st, goal, depth, keep, layer, t0, p);
        assert(p / 4 < layer.len()) by (nonlinear_arith)
            requires p < 4 * layer.len();
        assert(entry_routed(s, st, layer[(p / 4) as int], depth));
        lemma_step_sound(s, st, goal, depth, keep, layer[(p / 4) as int], (p % 4) as u8, layer_prefix(s, goal, depth, keep, layer, t0, p));
    }
}

proof fn lemma_run_sound(s: Seq<TupleModel>, st: GridModel, goal: (int, int), max_depth: usize, d: nat, t: Search)
    requires
        search_sound(s, st, goal, t, d, d),
    ensures
        ({
            let (u, n) = run_search(s, goal, max_depth, d, t);
            search_sound(s, st, goal, u, n, n)
        }),
    decreases depth_cap(max_depth) - d,
{
    if !(t.3 is Some || t.1.len() == 0 || d >= depth_cap(max_depth)) {
        let t0: Search = (t.0, Seq::empty(), t.2, t.3);
        assert forall|k: int| 1 <= k < t0.0.len() implies #[trigger] routed_to(s, st, t0.0[k].0, t0.0[k].1, d + 1) by {
            assert(routed_to(s, st, t.0[k].0, t.0[k].1, d));
            lemma_routed_wider(s, st, t.0[k].0, t.0[k].1, d, d + 1);
        }
        assert(search_sound(s, st, goal, t0, d + 1, d + 1));
        lemma_prefix_sound(s, st, goal, d, d + 1 < max_depth, t.1, t0, 4 * t.1.len());
        lemma_run_sound(s, st, goal, max_depth, d + 1, expand_layer(s, goal, d, max_depth, t));
    }
}

/// The planner's answers are backed by predictions: after the search, every
/// position visited besides the start, and the goal if it was predicted, is
/// reached from the start state by a route of the model's predictions, of at
/// most as many moves as layers were expanded, starting with the action that
/// the search records for it.
pub proof fn law_search_is_sound(s: Seq<TupleModel>, st: GridModel, goal: (int, int), max_depth: usize)
    ensures
        ({
            let (t, d) = plan_search(s, st, goal, max_depth);
            &&& forall|k: int| 1 <= k < t.0.len() ==> #[trigger] routed_to(s, st, t.0[k].0, t.0[k].1, d)
            &&& t.3 matches Some(f) ==> routed_to(s, st, goal, f, d)
        }),
{
    let t0 = search_start(st, goal);
    let p0 = Seq::<u8>::empty();
    assert(model_run(s, st, p0) == Some(st));
    assert(entry_routed(s, st, t0.1[0], 0));
    assert(search_sound(s, st, goal, t0, 0, 0));
    lemma_run_sound(s, st, goal, max_depth, 0, t0);
}

/// The grid is the start state or a stored outcome.
pub open spec fn known_grid(s: Seq<TupleModel>, st: GridModel, g: GridModel) -> bool {
    g == st || exists|i: int| 0 <= i < s.len() && s[i].2 == g
}

/// What the search keeps true: visited positions are distinct, all but the
/// first are markers of stored outcomes, there are no more of them than
/// stored outcomes plus one, and every entry's grid is known.
pub open spec fn search_ok(s: Seq<TupleModel>, st: GridModel, t: Search) -> bool {
    &&& t.0.len() >= 1
    &&& forall|i: int, j: int| 0 <= i < j < t.0.len() ==> (#[trigger] t.0[i]).0 != (#[trigger] t.0[j]).0
    &&& forall|i: int| 1 <= i < t.0.len() ==> outcome_positions(s).contains((#[trigger] t.0[i]).0)
    &&& t.0.len() <= s.len() + 1
    &&& forall|i: int| 0 <= i < t.1.len() ==> known_grid(s, st, (#[trigger] t.1[i]).0)
}

/// One prediction keeps the search well formed, adds at most one prediction,
/// and visits at most one position, which the next layer may take.
proof fn lemma_step_ok(
    s: Seq<TupleModel>,
    st: GridModel,
    goal: (int, int),
    depth: nat,
    keep: bool,
    e: Entry,
    a: u8,
    t: Search,
)
    requires
        search_ok(s, st, t),
    ensures
        search_ok(s, st, search_step(s, goal, depth, keep, e, a, t)),
        ({
            let u = search_step(s, goal, depth, keep, e, a, t);
            &&& u.2 <= t.2 + 1
            &&& u.1.len() - t.1.len() <= u.0.len() - t.0.len() <= 1
            &&& u.1.len() >= t.1.len()
            &&& u.0.len() >= t.0.len()
        }),
{
    let u = search_step(s, goal, depth, keep, e, a, t);
    if t.3 is None {
        if let Some(h) = model_step(s, e.0, a) {
            lemma_answer_stored(s, a, e.0);
            let i0 = choose|i: int| 0 <= i < s.len() && s[i].2 == h;
            if let Some(q) = marker_pos(h) {
                if q != goal && !pos_visited(t.0, q) {
                    let img = outcome_positions(s);
                    assert(img[i0] == q);
                    assert forall|i: int, j: int| 0 <= i < j < u.0.len() implies (#[trigger] u.0[i]).0
                        != (#[trigger] u.0[j]).0 by {
                        if j == u.0.len() - 1 {
                            assert(u.0[i] == t.0[i]);
                        } else {
                            assert(u.0[i] == t.0[i] && u.0[j] == t.0[j]);
                        }
                    }
                    assert forall|i: int| 1 <= i < u.0.len() implies img.contains((#[trigger] u.0[i]).0) by {
                        if i < t.0.len() {
                            assert(u.0[i] == t.0[i]);
                        }
                    }
                    let ps = u.0.drop_first().map_values(|x: Visit| x.0);
                    assert forall|i: int, j: int| 0 <= i < j < ps.len() implies #[trigger] ps[i] != #[trigger] ps[j] by {
                        assert(ps[i] == u.0[i + 1].0 && ps[j] == u.0[j + 1].0);
                    }
                    assert forall|i: int| 0 <= i < ps.len() implies img.contains(#[trigger] ps[i]) by {
                        assert(ps[i] == u.0[i + 1].0);
                    }
                    lemma_pigeonhole(ps, img);
                    assert forall|i: int| 0 <= i < u.1.len() implies known_grid(s, st, (#[trigger] u.1[i]).0) by {
                        if i < t.1.len() {
                            assert(u.1[i] == t.1[i]);
                        }
                    }
                }
            }
        }
    }
}

/// Part way through a layer the search is well formed, and the predictions
/// made and still to make fit within four per visited position.
proof fn lemma_prefix_ok(
    s: Seq<TupleModel>,
    st: GridModel,
    goal: (int, int),
    depth: nat,
    keep: bool,
    layer: Seq<Entry>,
    t0: Search,
    k: nat,
)
    requires
        search_ok(s, st, t0),
        t0.1.len() == 0,
        t0.2 + 4 * layer.len() <= 4 * t0.0.len(),
        k <= 4 * layer.len(),
    ensures
        search_ok(s, st, layer_prefix(s, goal, depth, keep, layer, t0, k)),
        ({
            let u = layer_prefix(s, goal, depth, keep, layer, t0, k);
            u.2 + (4 * layer.len() - k) + 4 * u.1.len() <= 4 * u.0.len()
        }),
    decreases k,
{
    if k > 0 {
        let p = (k - 1) as nat;
        lemma_prefix_ok(s, st, goal, depth, keep, layer, t0, p);
        let t = layer_prefix(s, goal, depth, keep, layer, t0, p);
        lemma_step_ok(s, st, goal, depth, keep, layer[(p / 4) as int], (p % 4) as u8, t);
    }
}

/// Once the goal is predicted, the rest of the layer changes nothing.
proof fn lemma_found_stays(
    s: Seq<TupleModel>,
    goal: (int, int),
    depth: nat,
    keep: bool,
    layer: Seq<Entry>,
    t0: Search,
    k: nat,
    m: nat,
)
    requires
        k <= m,
        layer_prefix(s, goal, depth, keep, layer, t0, k).3 is Some,
    ensures
        layer_prefix(s, goal, depth, keep, layer, t0, m) == layer_prefix(s, goal, depth, keep, layer, t0, k),
    decreases m,
{
    if k < m {
        lemma_found_stays(s, goal, depth, keep, layer, t0, k, (m - 1) as nat);
    }
}


/// The model is positional: every grid it knows (the start state and the
/// stored outcomes) shows the marker, and no two different known grids show
/// it at the same place.
pub open spec fn positional(s: Seq<TupleModel>, st: GridModel) -> bool {
    &&& forall|g: GridModel| #[trigger] known_grid(s, st, g) ==> marker_pos(g) is Some
    &&& forall|g1: GridModel, g2: GridModel|
        #[trigger] known_grid(s, st, g1) && #[trigger] known_grid(s, st, g2) && marker_pos(g1) == marker_pos(g2)
            ==> g1 == g2
}

/// A prediction, where the model makes one, shows the marker at a visited
/// position.
pub open spec fn lands(v: Seq<Visit>, o: Option<GridModel>) -> bool {
    match o {
        None => true,
        Some(h) => match marker_pos(h) {
            Some(q) => pos_visited(v, q),
            None => false,
        },
    }
}

/// The prediction for action `a` from `g` lands on a visited position.
pub open spec fn step_lands(s: Seq<TupleModel>, v: Seq<Visit>, g: GridModel, a: u8) -> bool {
    lands(v, model_step(s, g, a))
}

/// Every move from a known grid showing the marker at `q` lands on a visited
/// position.
pub open spec fn closed_at(s: Seq<TupleModel>, st: GridModel, v: Seq<Visit>, q: (int, int)) -> bool {
    forall|g: GridModel, a: u8|
        known_grid(s, st, g) && marker_pos(g) == Some(q) && a < 4 ==> #[trigger] step_lands(s, v, g, a)
}

/// Some entry of the layer shows the marker at `q`.
pub open spec fn entry_pos(l: Seq<Entry>, q: (int, int)) -> bool {
    exists|j: int| 0 <= j < l.len() && marker_pos((#[trigger] l[j]).0) == Some(q)
}

/// `w` keeps the visits of `v` in place, and may add more after them.
pub open spec fn visits_extend(v: Seq<Visit>, w: Seq<Visit>) -> bool {
    &&& w.len() >= v.len()
    &&& forall|i: int| 0 <= i < v.len() ==> #[trigger] w[i] == v[i]
}

/// Landing is kept when more positions are visited.
proof fn lemma_lands_grows(v: Seq<Visit>, w: Seq<Visit>, o: Option<GridModel>)
    requires
        lands(v, o),
        visits_extend(v, w),
    ensures
        lands(w, o),
{
    if let Some(h) = o {
        if let Some(q) = marker_pos(h) {
            let i = choose|i: int| 0 <= i < v.len() && (#[trigger] v[i]).0 == q;
            assert(w[i] == v[i]);
        }
    }
}

/// Where a route of predictions ends is a known grid.
proof fn lemma_run_known(s: Seq<TupleModel>, st: GridModel, p: Seq<u8>)
    requires
        model_run(s, st, p) is Some,
    ensures
        known_grid(s, st, model_run(s, st, p)->0),
    decreases p.len(),
{
    if p.len() > 0 {
        lemma_run_known(s, st, p.drop_last());
        lemma_answer_stored(s, p.last(), model_run(s, st, p.drop_last())->0);
    }
}

/// The start of a route of moves is a route of moves.
proof fn lemma_moves_prefix(p: Seq<u8>)
    requires
        moves_only(p),
        p.len() > 0,
    ensures
        moves_only(p.drop_last()),
        p.last() < 4,
{
    assert(p[p.len() - 1] < 4);
    assert forall|i: int| 0 <= i < p.drop_last().len() implies #[trigger] p.drop_last()[i] < 4 by {
        assert(p.drop_last()[i] == p[i]);
    }
}

/// One prediction only adds visits, never visits the goal, adds only stored
/// outcomes to the layer, and, when the next layer is kept, makes each new
/// visit the marker of one of its entries; when it does not predict the goal,
/// it lands on a visited position.
proof fn lemma_step_complete(
    s: Seq<TupleModel>,
    st: GridModel,
    goal: (int, int),
    depth: nat,
    keep: bool,
    e: Entry,
    a: u8,
    t: Search,
    n0: nat,
)
    requires
        positional(s, st),
        !pos_visited(t.0, goal),
        forall|j: int| 0 <= j < t.1.len() ==> known_grid(s, st, (#[trigger] t.1[j]).0),
        keep ==> forall|i: int| n0 <= i < t.0.len() ==> entry_pos(t.1, (#[trigger] t.0[i]).0),
    ensures
        ({
            let u = search_step(s, goal, depth, keep, e, a, t);
            &&& visits_extend(t.0, u.0)
            &&& !pos_visited(u.0, goal)
            &&& forall|j: int| 0 <= j < u.1.len() ==> known_grid(s, st, (#[trigger] u.1[j]).0)
            &&& keep ==> forall|i: int| n0 <= i < u.0.len() ==> entry_pos(u.1, (#[trigger] u.0[i]).0)
            &&& u.3 is None ==> t.3 is None && step_lands(s, u.0, e.0, a)
        }),
{
    let u = search_step(s, goal, depth, keep, e, a, t);
    if t.3 is None {
        if let Some(h) = model_step(s, e.0, a) {
            lemma_answer_stored(s, a, e.0);
            assert(known_grid(s, st, h));
            let q = marker_pos(h)->0;
            let first = if depth == 0 { a } else { e.1 };
            if q != goal && !pos_visited(t.0, q) {
                let nv = t.0.len();
                assert(u.0 == t.0.push((q, first, manhattan_model(q, goal))));
                assert(u.0[nv as int].0 == q);
                assert(pos_visited(u.0, q));
                if pos_visited(u.0, goal) {
                    let i = choose|i: int| 0 <= i < u.0.len() && (#[trigger] u.0[i]).0 == goal;
                    assert(i < nv);
                    assert(u.0[i] == t.0[i]);
                    assert(false);
                }
                if keep {
                    assert(u.1 == t.1.push((h, first)));
                    assert forall|i: int| n0 <= i < u.0.len() implies entry_pos(u.1, (#[trigger] u.0[i]).0) by {
                        if i < nv {
                            assert(u.0[i] == t.0[i]);
                            assert(entry_pos(t.1, t.0[i].0));
                            let j = choose|j: int| 0 <= j < t.1.len() && marker_pos((#[trigger] t.1[j]).0) == Some(t.0[i].0);
                            assert(u.1[j] == t.1[j]);
                        } else {
                            assert(u.1[t.1.len() as int] == (h, first));
                        }
                    }
                }
                assert forall|j: int| 0 <= j < u.1.len() implies known_grid(s, st, (#[trigger] u.1[j]).0) by {
                    if j < t.1.len() {
                        assert(u.1[j] == t.1[j]);
                    }
                }
            }
        }
    }
}

/// Part way through a layer: the visits only grew, the goal is not visited,
/// the next layer holds known grids and, when kept, an entry for each new
/// visit; while the goal is not predicted, every prediction of the entries
/// handled so far, entry `j` by action `a`, landed on a visited position.
proof fn lemma_prefix_complete(
    s: Seq<TupleModel>,
    st: GridModel,
    goal: (int, int),
    depth: nat,
    keep: bool,
    layer: Seq<Entry>,
    t0: Search,
    k: nat,
)
    requires
        positional(s, st),
        !pos_visited(t0.0, goal),
        t0.1.len() == 0,
        k <= 4 * layer.len(),
    ensures
        ({
            let u = layer_prefix(s, goal, depth, keep, layer, t0, k);
            &&& visits_extend(t0.0, u.0)
            &&& !pos_visited(u.0, goal)
            &&& forall|j: int| 0 <= j < u.1.len() ==> known_grid(s, st, (#[trigger] u.1[j]).0)
            &&& keep ==> forall|i: int| t0.0.len() <= i < u.0.len() ==> entry_pos(u.1, (#[trigger] u.0[i]).0)
            &&& u.3 is None ==> forall|j: int, a: u8|
                0 <= j && a < 4 && 4 * j + a < k ==> #[trigger] step_lands(s, u.0, layer[j].0, a)
        }),
    decreases k,
{
    let u = layer_prefix(s, goal, depth, keep, layer, t0, k);
    if k > 0 {
        let p = (k - 1) as nat;
        lemma_prefix_complete(s, st, goal, depth, keep, layer, t0, p);
        let t = layer_prefix(s, goal, depth, keep, layer, t0, p);
        let e = layer[(p / 4) as int];
        let b = (p % 4) as u8;
        assert(u == search_step(s, goal, depth, keep, e, b, t));
        lemma_step_complete(s, st, goal, depth, keep, e, b, t, t0.0.len());
        assert(visits_extend(t0.0, u.0)) by {
            assert forall|i: int| 0 <= i < t0.0.len() implies #[trigger] u.0[i] == t0.0[i] by {
                assert(t.0[i] == t0.0[i]);
                assert(u.0[i] == t.0[i]);
            }
        }
        if u.3 is None {
            assert forall|j: int, a: u8| 0 <= j && a < 4 && 4 * j + a < k implies #[trigger] step_lands(
                s,
                u.0,
                layer[j].0,
                a,
            ) by {
                if 4 * j + a < p {
                    assert(step_lands(s, t.0, layer[j].0, a));
                    lemma_lands_grows(t.0, u.0, model_step(s, layer[j].0, a));
                } else {
                    lemma_div4(j, a as int);
                    assert(layer[j] == e);
                }
            }
        }
    }
}

/// When every visited position is closed and the start is visited, every
/// route of moves lands on a visited position.
proof fn lemma_routes_land(s: Seq<TupleModel>, st: GridModel, v: Seq<Visit>, p: Seq<u8>)
    requires
        positional(s, st),
        lands(v, Some(st)),
        forall|q: (int, int)| pos_visited(v, q) ==> #[trigger] closed_at(s, st, v, q),
        moves_only(p),
    ensures
        lands(v, model_run(s, st, p)),
    decreases p.len(),
{
    if p.len() > 0 {
        let p1 = p.drop_last();
        lemma_moves_prefix(p);
        lemma_routes_land(s, st, v, p1);
        if let Some(h1) = model_run(s, st, p1) {
            lemma_run_known(s, st, p1);
            let q1 = marker_pos(h1)->0;
            assert(closed_at(s, st, v, q1));
            assert(step_lands(s, v, h1, p.last()));
        }
    }
}

/// What the search keeps true on the way to a goal: the goal is neither
/// predicted nor visited, every route of at most `d` moves lands on a visited
/// position, the layer holds known grids, and while layers may still be
/// expanded, every visited position that no entry of the layer shows is
/// closed.
spec fn complete_inv(s: Seq<TupleModel>, st: GridModel, goal: (int, int), max_depth: usize, d: nat, t: Search) -> bool {
    &&& t.3 is None
    &&& !pos_visited(t.0, goal)
    &&& forall|p: Seq<u8>| moves_only(p) && p.len() <= d ==> #[trigger] lands(t.0, model_run(s, st, p))
    &&& forall|j: int| 0 <= j < t.1.len() ==> known_grid(s, st, (#[trigger] t.1[j]).0)
    &&& d < depth_cap(max_depth) ==> forall|q: (int, int)|
        pos_visited(t.0, q) && !entry_pos(t.1, q) ==> #[trigger] closed_at(s, st, t.0, q)
}

/// From a search state that keeps `complete_inv`, a route to the goal within
/// the depth cap makes the search predict the goal.
#[verifier::rlimit(30)]
proof fn lemma_run_complete(
    s: Seq<TupleModel>,
    st: GridModel,
    goal: (int, int),
    max_depth: usize,
    d: nat,
    t: Search,
    pg: Seq<u8>,
)
    requires
        positional(s, st),
        complete_inv(s, st, goal, max_depth, d, t),
        moves_only(pg),
        pg.len() <= depth_cap(max_depth),
        model_run(s, st, pg) matches Some(h) && marker_pos(h) == Some(goal),
    ensures
        run_search(s, goal, max_depth, d, t).0.3 is Some,
    decreases depth_cap(max_depth) - d,
{
    let cap = depth_cap(max_depth);
    if d >= cap {
        assert(lands(t.0, model_run(s, st, pg)));
    } else if t.1.len() == 0 {
        assert forall|q: (int, int)| pos_visited(t.0, q) implies #[trigger] closed_at(s, st, t.0, q) by {
            assert(!entry_pos(t.1, q));
        }
        let p0 = Seq::<u8>::empty();
        assert(lands(t.0, model_run(s, st, p0)));
        lemma_routes_land(s, st, t.0, pg);
    } else {
        let t0: Search = (t.0, Seq::empty(), t.2, t.3);
        let keep = d + 1 < max_depth;
        let k = 4 * t.1.len();
        let u = layer_prefix(s, goal, d, keep, t.1, t0, k);
        assert(u == expand_layer(s, goal, d, max_depth, t));
        assert(run_search(s, goal, max_depth, d, t) == run_search(s, goal, max_depth, d + 1, u));
        lemma_prefix_complete(s, st, goal, d, keep, t.1, t0, k);
        if u.3 is None {
            assert forall|p: Seq<u8>| moves_only(p) && p.len() <= d + 1 implies #[trigger] lands(
                u.0,
                model_run(s, st, p),
            ) by {
                if p.len() <= d {
                    assert(lands(t.0, model_run(s, st, p)));
                    lemma_lands_grows(t.0, u.0, model_run(s, st, p));
                } else {
                    let p1 = p.drop_last();
                    let a = p.last();
                    lemma_moves_prefix(p);
                    assert(lands(t.0, model_run(s, st, p1)));
                    if let Some(h1) = model_run(s, st, p1) {
                        assert(model_run(s, st, p) == model_step(s, h1, a));
                        lemma_run_known(s, st, p1);
                        let q1 = marker_pos(h1)->0;
                        if entry_pos(t.1, q1) {
                            let j = choose|j: int| 0 <= j < t.1.len() && marker_pos((#[trigger] t.1[j]).0) == Some(q1);
                            assert(known_grid(s, st, t.1[j].0));
                            assert(t.1[j].0 == h1);
                            assert(step_lands(s, u.0, t.1[j].0, a));
                        } else {
                            assert(closed_at(s, st, t.0, q1));
                            assert(step_lands(s, t.0, h1, a));
                            lemma_lands_grows(t.0, u.0, model_step(s, h1, a));
                        }
                    }
                }
            }
            if d + 1 < cap {
                assert(keep);
                assert forall|q: (int, int)| pos_visited(u.0, q) && !entry_pos(u.1, q) implies #[trigger] closed_at(
                    s,
                    st,
                    u.0,
                    q,
                ) by {
                    let i = choose|i: int| 0 <= i < u.0.len() && (#[trigger] u.0[i]).0 == q;
                    if i >= t.0.len() {
                        assert(entry_pos(u.1, u.0[i].0));
                    } else {
                        assert(u.0[i] == t.0[i]);
                        assert(pos_visited(t.0, q));
                        if entry_pos(t.1, q) {
                            let j = choose|j: int| 0 <= j < t.1.len() && marker_pos((#[trigger] t.1[j]).0) == Some(q);
                            assert(known_grid(s, st, t.1[j].0));
                            assert forall|g: GridModel, a: u8|
                                known_grid(s, st, g) && marker_pos(g) == Some(q) && a < 4 implies #[trigger] step_lands(
                                s,
                                u.0,
                                g,
                                a,
                            ) by {
                                assert(g == t.1[j].0);
                                assert(step_lands(s, u.0, t.1[j].0, a));
                            }
                        } else {
                            assert(closed_at(s, st, t.0, q));
                            assert forall|g: GridModel, a: u8|
                                known_grid(s, st, g) && marker_pos(g) == Some(q) && a < 4 implies #[trigger] step_lands(
                                s,
                                u.0,
                                g,
                                a,
                            ) by {
                                assert(step_lands(s, t.0, g, a));
                                lemma_lands_grows(t.0, u.0, model_step(s, g, a));
                            }
                        }
                    }
                }
            }
            assert(complete_inv(s, st, goal, max_depth, d + 1, u));
            lemma_run_complete(s, st, goal, max_depth, d + 1, u, pg);
        } else {
            assert(run_search(s, goal, max_depth, d + 1, u) == (u, d + 1));
        }
    }
}

/// The search is complete on a positional model: when some route of at most
/// `max_depth` moves (at least one when `max_depth` is 0) takes the model's
/// predictions from the start state to a grid showing the marker at the
/// goal, the search predicts the goal, so `plan_bfs` reports it reached.
pub proof fn law_search_is_complete(
    s: Seq<TupleModel>,
    st: GridModel,
    goal: (int, int),
    max_depth: usize,
    p: Seq<u8>,
)
    requires
        positional(s, st),
        moves_only(p),
        p.len() <= depth_cap(max_depth),
        model_run(s, st, p) matches Some(h) && marker_pos(h) == Some(goal),
        marker_pos(st) != Some(goal),
    ensures
        plan_search(s, st, goal, max_depth).0.3 is Some,
{
    let t = search_start(st, goal);
    assert(known_grid(s, st, st));
    let start = marker_pos(st)->0;
    assert(t.0[0].0 == start);
    assert(!pos_visited(t.0, goal)) by {
        if pos_visited(t.0, goal) {
            let i = choose|i: int| 0 <= i < t.0.len() && (#[trigger] t.0[i]).0 == goal;
            assert(i == 0);
        }
    }
    assert forall|p0: Seq<u8>| moves_only(p0) && p0.len() <= 0 implies #[trigger] lands(t.0, model_run(s, st, p0)) by {
        assert(model_run(s, st, p0) == Some(st));
        assert(pos_visited(t.0, start));
    }
    assert forall|q: (int, int)| pos_visited(t.0, q) && !entry_pos(t.1, q) implies #[trigger] closed_at(s, st, t.0, q) by {
        let i = choose|i: int| 0 <= i < t.0.len() && (#[trigger] t.0[i]).0 == q;
        assert(i == 0);
        assert(marker_pos(t.1[0].0) == Some(q));
    }
    assert(complete_inv(s, st, goal, max_depth, 0, t));
    lemma_run_complete(s, st, goal, max_depth, 0, t, p);
}

/// The abstract value of the visited entries.
pub open spec fn visits_model(v: Seq<((usize, usize), u8, usize)>) -> Seq<Visit> {
    v.map_values(|e: ((usize, usize), u8, usize)| ((e.0.0 as int, e.0.1 as int), e.1, e.2 as int))
}

/// The abstract value of a layer of entries.
pub open spec fn entries_model(f: Seq<(Grid, u8)>) -> Seq<Entry> {
    f.map_values(|e: (Grid, u8)| (e.0@, e.1))
}

/// Whether a position was already visited. The visited positions are kept in
/// a vector in the order found: a position (two `usize`s) does not fit a `u64`
/// map key.
fn visited_has(visited: &Vec<((usize, usize), u8, usize)>, pos: (usize, usize)) -> (b: bool)
    ensures
        b == pos_visited(visits_model(visited@), (pos.0 as int, pos.1 as int)),
{
    let ghost v = visits_model(visited@);
    let n = visited.len();
    let mut k: usize = 0;
    while k < n
        invariant
            n == visited@.len(),
            v == visits_model(visited@),
            k <= n,
            forall|j: int| 0 <= j < k ==> (#[trigger] v[j]).0 != (pos.0 as int, pos.1 as int),
        decreases n - k,
    {
        if visited[k].0.0 == pos.0 && visited[k].0.1 == pos.1 {
            assert(v[k as int].0 == (pos.0 as int, pos.1 as int));
            return true;
        }
        k += 1;
    }
    proof {
        if pos_visited(v, (pos.0 as int, pos.1 as int)) {
            let w = choose|w: int| 0 <= w < v.len() && (#[trigger] v[w]).0 == (pos.0 as int, pos.1 as int);
            assert(v[w].0 != (pos.0 as int, pos.1 as int));
        }
    }
    false
}

/// Pair `4 * j + a` is entry `j` by action `a`.
proof fn lemma_div4(j: int, a: int)
    requires
        j >= 0,
        0 <= a < 4,
    ensures
        (4 * j + a) / 4 == j,
        (4 * j + a) % 4 == a,
{
    vstd::arithmetic::div_mod::lemma_fundamental_div_mod_converse(4 * j + a, 4, j, a);
}

/// BFS over positions using the agent's model as simulator.
///
/// Expands the start state by all four actions, then each newly reached
/// position's predicted grid, layer by layer up to `max_depth`, keeping the
/// first grid found for each position. Stops as soon as the goal position is
/// predicted; otherwise answers with the first action of a route to a
/// visited position closest to the goal (the start itself counts, with UP).
pub fn plan_bfs(agent: &Stage0Agent, state: &Grid, goal: (usize, usize), max_depth: usize) -> (r: PlanResult)
    requires
        agent.wf(),
        marker_pos(state@) matches Some(p) && p != (goal.0 as int, goal.1 as int) ==> plan_defined(
            agent.memory_model().0,
            state@,
            (goal.0 as int, goal.1 as int),
        ),
    ensures
        ({
            let s = agent.memory_model().0;
            let st = state@;
            let g = (goal.0 as int, goal.1 as int);
            match marker_pos(st) {
                None => r.action == ACTION_UP && r.predicted_distance == usize::MAX && r.depth_explored == 0
                    && r.states_evaluated == 0 && !r.reached_goal,
                Some(start) => if start == g {
                    r.action == ACTION_UP && r.predicted_distance == 0 && r.depth_explored == 0
                        && r.states_evaluated == 0 && r.reached_goal
                } else {
                    let (t, d) = plan_search(s, st, g, max_depth);
                    &&& r.depth_explored == d
                    &&& r.states_evaluated == t.2
                    &&& r.reached_goal == (t.3 is Some)
                    &&& t.3 matches Some(f) ==> r.action == f && r.predicted_distance == 0
                    &&& t.3 is None ==> {
                        &&& exists|i: int| 0 <= i < t.0.len() && (#[trigger] t.0[i]).1 == r.action && t.0[i].2
                            == r.predicted_distance
                        &&& forall|i: int| 0 <= i < t.0.len() ==> r.predicted_distance <= (#[trigger] t.0[i]).2
                    }
                },
            }
        }),
{
    let ghost s = agent.memory_model().0;
    let ghost st = state@;
    let ghost g = (goal.0 as int, goal.1 as int);
    let start = match state.find_marker() {
        Some(pos) => pos,
        None => {
            return PlanResult {
                action: ACTION_UP,
                predicted_distance: usize::MAX,
                depth_explored: 0,
                states_evaluated: 0,
                reached_goal: false,
            };
        },
    };
    if start.0 == goal.0 && start.1 == goal.1 {
        return PlanResult {
            action: ACTION_UP,
            predicted_distance: 0,
            depth_explored: 0,
            states_evaluated: 0,
            reached_goal: true,
        };
    }
    let d0 = manhattan(start, goal);
    let cap: usize = if max_depth >= 1 { max_depth } else { 1 };
    let mut visited: Vec<((usize, usize), u8, usize)> = Vec::new();
    visited.push((start, ACTION_UP, d0));
    let mut frontier: Vec<(Grid, u8)> = Vec::new();
    frontier.push((state.clone(), ACTION_UP));
    let mut states_evaluated: usize = 0;
    let mut depth: usize = 0;
    proof {
        assert(visits_model(visited@) =~= search_start(st, g).0);
        assert(entries_model(frontier@) =~= search_start(st, g).1);
    }
    while depth < cap && frontier.len() > 0
        invariant
            s == agent.memory_model().0,
            st == state@,
            g == (goal.0 as int, goal.1 as int),
            agent.wf(),
            plan_defined(s, st, g),
            marker_pos(st) == Some((start.0 as int, start.1 as int)),
            (start.0 as int, start.1 as int) != g,
            cap as int == depth_cap(max_depth),
            depth <= cap,
            ({
                let t = (visits_model(visited@), entries_model(frontier@), states_evaluated as nat, None::<u8>);
                &&& plan_search(s, st, g, max_depth) == run_search(s, g, max_depth, depth as nat, t)
                &&& search_ok(s, st, t)
                &&& t.2 + 4 * t.1.len() <= 4 * t.0.len()
            }),
        decreases cap - depth,
    {
        let ghost t: Search = (visits_model(visited@), entries_model(frontier@), states_evaluated as nat, None::<u8>);
        let ghost layer = t.1;
        let ghost t0: Search = (t.0, Seq::empty(), t.2, None::<u8>);
        let keep = depth + 1 < max_depth;
        let mut next: Vec<(Grid, u8)> = Vec::new();
        let n = frontier.len();
        let mut j: usize = 0;
        proof {
            assert(entries_model(next@) =~= Seq::<Entry>::empty());
        }
        while j < n
            invariant
                s == agent.memory_model().0,
                st == state@,
                g == (goal.0 as int, goal.1 as int),
                agent.wf(),
                plan_defined(s, st, g),
                marker_pos(st) == Some((start.0 as int, start.1 as int)),
                (start.0 as int, start.1 as int) != g,
                cap as int == depth_cap(max_depth),
                depth < cap,
                keep == (depth + 1 < max_depth),
                n == frontier@.len(),
                layer == entries_model(frontier@),
                t == (t0.0, layer, t0.2, None::<u8>),
                t0 == (t.0, Seq::<Entry>::empty(), t.2, None::<u8>),
                plan_search(s, st, g, max_depth) == run_search(s, g, max_depth, depth as nat, t),
                search_ok(s, st, t),
                search_ok(s, st, t0),
                t0.1.len() == 0,
                t0.3 is None,
                t0.2 + 4 * layer.len() <= 4 * t0.0.len(),
                j <= n,
                (visits_model(visited@), entries_model(next@), states_evaluated as nat, None::<u8>)
                    == layer_prefix(s, g, depth as nat, keep, layer, t0, (4 * j) as nat),
            decreases n - j,
        {
            let grid = &frontier[j].0;
            let efirst = frontier[j].1;
            proof {
                assert(layer[j as int] == (grid@, efirst));
                assert(known_grid(s, st, layer[j as int].0));
            }
            let mut a: u8 = 0;
            while a < 4
                invariant
                    s == agent.memory_model().0,
                    st == state@,
                    g == (goal.0 as int, goal.1 as int),
                    agent.wf(),
                    plan_defined(s, st, g),
                    marker_pos(st) == Some((start.0 as int, start.1 as int)),
                    (start.0 as int, start.1 as int) != g,
                    cap as int == depth_cap(max_depth),
                    depth < cap,
                    keep == (depth + 1 < max_depth),
                    n == frontier@.len(),
                    layer == entries_model(frontier@),
                    t == (t0.0, layer, t0.2, None::<u8>),
                    t0 == (t.0, Seq::<Entry>::empty(), t.2, None::<u8>),
                    plan_search(s, st, g, max_depth) == run_search(s, g, max_depth, depth as nat, t),
                    search_ok(s, st, t0),
                    t0.1.len() == 0,
                    t0.3 is None,
                    t0.2 + 4 * layer.len() <= 4 * t0.0.len(),
                    j < n,
                    layer[j as int] == (grid@, efirst),
                    known_grid(s, st, grid@),
                    a <= 4,
                    (visits_model(visited@), entries_model(next@), states_evaluated as nat, None::<u8>)
                        == layer_prefix(s, g, depth as nat, keep, layer, t0, (4 * j + a) as nat),
                decreases 4 - a,
            {
                let ghost k: nat = (4 * j + a) as nat;
                let ghost u = layer_prefix(s, g, depth as nat, keep, layer, t0, k);
                proof {
                    lemma_prefix_ok(s, st, g, depth as nat, keep, layer, t0, k);
                    lemma_div4(j as int, a as int);
                    if grid@ != st {
                        let i = choose|i: int| 0 <= i < s.len() && s[i].2 == grid@;
                        assert(exact_answer(s, a, s[i].2) is None ==> comparable_for(s, a, s[i].2));
                    } else {
                        assert(exact_answer(s, a, st) is None ==> comparable_for(s, a, st));
                    }
                    assert(u.0.len() <= s.len() + 1);
                }
                let pred_opt = agent.predict_for_planning(a, grid);
                if let Some(pred) = pred_opt {
                    states_evaluated += 1;
                    let first = if depth == 0 { a } else { efirst };
                    proof {
                        lemma_answer_stored(s, a, grid@);
                    }
                    if let Some(pos) = pred.find_marker() {
                        if pos.0 == goal.0 && pos.1 == goal.1 {
                            proof {
                                let w = layer_prefix(s, g, depth as nat, keep, layer, t0, k + 1);
                                assert(w == (u.0, u.1, u.2 + 1, Some(first)));
                                lemma_found_stays(s, g, depth as nat, keep, layer, t0, k + 1, 4 * layer.len());
                                assert(expand_layer(s, g, depth as nat, max_depth, t) == w);
                                assert(run_search(s, g, max_depth, (depth + 1) as nat, w) == (w, (depth + 1) as nat));
                                assert(t.1.len() > 0);
                                assert(run_search(s, g, max_depth, depth as nat, t) == (w, (depth + 1) as nat));
                                assert(states_evaluated == w.2);
                            }
                            return PlanResult {
                                action: first,
                                predicted_distance: 0,
                                depth_explored: depth + 1,
                                states_evaluated,
                                reached_goal: true,
                            };
                        }
                        if !visited_has(&visited, pos) {
                            proof {
                                let i0 = choose|i: int| 0 <= i < s.len() && s[i].2 == pred@;
                                assert(marker_pos(s[i0].2) == Some((pos.0 as int, pos.1 as int)));
                            }
                            let dist = manhattan(pos, goal);
                            let ghost v0 = visited@;
                            visited.push((pos, first, dist));
                            proof {
                                assert(visits_model(visited@) =~= visits_model(v0).push(
                                    ((pos.0 as int, pos.1 as int), first, dist as int),
                                ));
                            }
                            if keep {
                                let ghost n0 = next@;
                                next.push((pred, first));
                                proof {
                                    assert(entries_model(next@) =~= entries_model(n0).push((pred@, first)));
                                }
                            }
                        }
                    }
                }
                a += 1;
            }
            j += 1;
        }
        proof {
            assert(expand_layer(s, g, depth as nat, max_depth, t) == layer_prefix(
                s,
                g,
                depth as nat,
                keep,
                layer,
                t0,
                (4 * n) as nat,
            ));
            lemma_prefix_ok(s, st, g, depth as nat, keep, layer, t0, (4 * n) as nat);
        }
        frontier = next;
        depth += 1;
    }
    let ghost t: Search = (visits_model(visited@), entries_model(frontier@), states_evaluated as nat, None::<u8>);
    let nv = visited.len();
    let mut best: usize = 0;
    let mut k: usize = 1;
    while k < nv
        invariant
            nv == visited@.len(),
            t.0 == visits_model(visited@),
            1 <= k <= nv,
            best < k,
            forall|l: int| 0 <= l < k ==> visited@[best as int].2 <= #[trigger] visited@[l].2,
        decreases nv - k,
    {
        if visited[k].2 < visited[best].2 {
            best = k;
        }
        k += 1;
    }
    proof {
        assert(t.0[best as int].1 == visited@[best as int].1);
        assert forall|i: int| 0 <= i < t.0.len() implies visited@[best as int].2 <= (#[trigger] t.0[i]).2 by {
            assert(visited@[i].2 >= visited@[best as int].2);
        }
    }
    PlanResult {
        action: visited[best].1,
        predicted_distance: visited[best].2,
        depth_explored: depth,
        states_evaluated,
        reached_goal: false,
    }
}

} // verus!
