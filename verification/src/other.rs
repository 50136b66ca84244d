//! OtherAgent: a second, non-learning agent with a fixed policy. From the
//! learner's point of view it is structured environment dynamics.
use vstd::prelude::*;
use rand::rngs::StdRng;
use crate::grid::manhattan_model;
use crate::random::{draw_below, seeded_rng};
use crate::world::{ACTION_DOWN, ACTION_LEFT, ACTION_RIGHT, ACTION_UP, move_defined, step_pos};

verus! {

/// How the other agent moves.
#[derive(Debug, Clone, Copy, PartialEq, Eq, Structural)]
pub enum OtherPolicy {
    NoAgent,
    Random,
    Fixed,
    Patrol,
    Chase,
    Flee,
}

/// A second marker in the world, moved by its policy.
pub struct OtherAgent {
    pub row: usize,
    pub col: usize,
    policy: OtherPolicy,
    step: u64,
    patrol_period: u64,
    last_action: u8,
    rng: StdRng,
    size: usize,
}

/// The patrol direction for a step: each direction held for `period` steps,
/// cycling up, right, down, left.
pub open spec fn patrol_model(step: u64, period: u64) -> u8 {
    let phase = (step / period) % 4;
    if phase == 0 {
        ACTION_UP
    } else if phase == 1 {
        ACTION_RIGHT
    } else if phase == 2 {
        ACTION_DOWN
    } else {
        ACTION_LEFT
    }
}

/// Chase: step toward A, vertically first; stay put (UP) on A's cell.
pub open spec fn chase_model(pos: (int, int), a: (int, int)) -> u8 {
    let dr = a.0 - pos.0;
    let dc = a.1 - pos.1;
    if dr < 0 {
        ACTION_UP
    } else if dr > 0 {
        ACTION_DOWN
    } else if dc < 0 {
        ACTION_LEFT
    } else if dc > 0 {
        ACTION_RIGHT
    } else {
        ACTION_UP
    }
}

/// Absolute value.
pub open spec fn abs(x: int) -> int {
    if x < 0 { -x } else { x }
}

/// Flee: step away from A along the axis on which A is farther (vertical on ties).
pub open spec fn flee_model(pos: (int, int), a: (int, int)) -> u8 {
    let dr = a.0 - pos.0;
    let dc = a.1 - pos.1;
    if abs(dr) >= abs(dc) {
        if dr <= 0 { ACTION_DOWN } else { ACTION_UP }
    } else if dc <= 0 {
        ACTION_RIGHT
    } else {
        ACTION_LEFT
    }
}

/// The action of a deterministic policy.
pub open spec fn decide_model(policy: OtherPolicy, step: u64, period: u64, pos: (int, int), a: (int, int)) -> u8 {
    match policy {
        OtherPolicy::NoAgent => ACTION_UP,
        OtherPolicy::Random => ACTION_UP,
        OtherPolicy::Fixed => ACTION_UP,
        OtherPolicy::Patrol => patrol_model(step, period),
        OtherPolicy::Chase => chase_model(pos, a),
        OtherPolicy::Flee => flee_model(pos, a),
    }
}

/// `decide` cannot fail: the step counter has room, a patrol has a positive
/// period, and chase and flee positions fit in an `i32`.
pub open spec fn decide_defined(policy: OtherPolicy, step: u64, period: u64, pos: (int, int), a: (int, int)) -> bool {
    &&& step < u64::MAX
    &&& policy == OtherPolicy::Patrol ==> period > 0
    &&& (policy == OtherPolicy::Chase || policy == OtherPolicy::Flee) ==> pos.0 <= i32::MAX && pos.1
        <= i32::MAX && a.0 <= i32::MAX && a.1 <= i32::MAX
}

impl OtherAgent {
    /// The agent's position (row, col).
    pub closed spec fn pos_model(&self) -> (usize, usize) {
        (self.row, self.col)
    }

    /// The policy.
    pub closed spec fn policy_model(&self) -> OtherPolicy {
        self.policy
    }

    /// Number of decisions made so far.
    pub closed spec fn step_model(&self) -> u64 {
        self.step
    }

    /// Length of a patrol cycle.
    pub closed spec fn period_model(&self) -> u64 {
        self.patrol_period
    }

    /// The last action decided.
    pub closed spec fn last_model(&self) -> u8 {
        self.last_action
    }

    /// The world's side length.
    pub closed spec fn size_model(&self) -> usize {
        self.size
    }

    /// A new agent in the bottom-right corner.
    pub fn new(size: usize, policy: OtherPolicy, seed: u64, patrol_period: u64) -> (b: OtherAgent)
        requires
            size > 0,
        ensures
            b.pos_model().0 == size - 1,
            b.pos_model().1 == size - 1,
            b.policy_model() == policy,
            b.step_model() == 0,
            b.period_model() == patrol_period,
            b.last_model() == 0,
            b.size_model() == size,
    {
        OtherAgent {
            row: size - 1,
            col: size - 1,
            policy,
            step: 0,
            patrol_period,
            last_action: 0,
            rng: seeded_rng(seed),
            size,
        }
    }

    /// Choose an action by the policy; A's position matters for chase and flee.
    /// A random policy draws uniformly among the four actions.
    pub fn decide(&mut self, a_row: usize, a_col: usize) -> (action: u8)
        requires
            decide_defined(
                old(self).policy_model(),
                old(self).step_model(),
                old(self).period_model(),
                (old(self).pos_model().0 as int, old(self).pos_model().1 as int),
                (a_row as int, a_col as int),
            ),
        ensures
            old(self).policy_model() == OtherPolicy::Random ==> action < 4,
            old(self).policy_model() != OtherPolicy::Random ==> action == decide_model(
                old(self).policy_model(),
                old(self).step_model(),
                old(self).period_model(),
                (old(self).pos_model().0 as int, old(self).pos_model().1 as int),
                (a_row as int, a_col as int),
            ),
            final(self).step_model() == old(self).step_model() + 1,
            final(self).last_model() == action,
            final(self).pos_model().0 == old(self).pos_model().0,
            final(self).pos_model().1 == old(self).pos_model().1,
            final(self).policy_model() == old(self).policy_model(),
            final(self).period_model() == old(self).period_model(),
            final(self).size_model() == old(self).size_model(),
    {
        let action = match self.policy {
            OtherPolicy::NoAgent => ACTION_UP,
            OtherPolicy::Random => draw_below(&mut self.rng, 4),
            OtherPolicy::Fixed => ACTION_UP,
            OtherPolicy::Patrol => {
                let phase = (self.step / self.patrol_period) % 4;
                if phase == 0 {
                    ACTION_UP
                } else if phase == 1 {
                    ACTION_RIGHT
                } else if phase == 2 {
                    ACTION_DOWN
                } else {
                    ACTION_LEFT
                }
            },
            OtherPolicy::Chase => self.chase_action(a_row, a_col),
            OtherPolicy::Flee => self.flee_action(a_row, a_col),
        };
        self.step += 1;
        self.last_action = action;
        action
    }

    fn chase_action(&self, a_row: usize, a_col: usize) -> (action: u8)
        requires
            self.pos_model().0 <= i32::MAX && self.pos_model().1 <= i32::MAX && a_row <= i32::MAX && a_col <= i32::MAX,
        ensures
            action == chase_model((self.pos_model().0 as int, self.pos_model().1 as int), (a_row as int, a_col as int)),
    {
        let dr = a_row as i32 - self.row as i32;
        let dc = a_col as i32 - self.col as i32;
        if dr < 0 {
            ACTION_UP
        } else if dr > 0 {
            ACTION_DOWN
        } else if dc < 0 {
            ACTION_LEFT
        } else if dc > 0 {
            ACTION_RIGHT
        } else {
            ACTION_UP
        }
    }

    fn flee_action(&self, a_row: usize, a_col: usize) -> (action: u8)
        requires
            self.pos_model().0 <= i32::MAX && self.pos_model().1 <= i32::MAX && a_row <= i32::MAX && a_col <= i32::MAX,
        ensures
            action == flee_model((self.pos_model().0 as int, self.pos_model().1 as int), (a_row as int, a_col as int)),
    {
        let dr = a_row as i32 - self.row as i32;
        let dc = a_col as i32 - self.col as i32;
        let adr = if dr < 0 { -dr } else { dr };
        let adc = if dc < 0 { -dc } else { dc };
        if adr >= adc {
            if dr <= 0 {
                ACTION_DOWN
            } else {
                ACTION_UP
            }
        } else if dc <= 0 {
            ACTION_RIGHT
        } else {
            ACTION_LEFT
        }
    }

    /// Move one cell in `direction`, clamped at the edges; other values are no-ops.
    pub fn apply_movement(&mut self, direction: u8)
        requires
            move_defined(direction, old(self).size_model() as int),
        ensures
            (final(self).pos_model().0 as int, final(self).pos_model().1 as int) == step_pos(
                (old(self).pos_model().0 as int, old(self).pos_model().1 as int),
                direction,
                old(self).size_model() as int,
            ),
            final(self).policy_model() == old(self).policy_model(),
            final(self).step_model() == old(self).step_model(),
            final(self).period_model() == old(self).period_model(),
            final(self).last_model() == old(self).last_model(),
            final(self).size_model() == old(self).size_model(),
    {
        match direction {
            ACTION_UP => {
                if self.row > 0 {
                    self.row -= 1;
                }
            },
            ACTION_DOWN => {
                if self.row < self.size - 1 {
                    self.row += 1;
                }
            },
            ACTION_LEFT => {
                if self.col > 0 {
                    self.col -= 1;
                }
            },
            ACTION_RIGHT => {
                if self.col < self.size - 1 {
                    self.col += 1;
                }
            },
            _ => {},
        }
    }

    /// The last action decided.
    pub fn last_action(&self) -> (a: u8)
        ensures
            a == self.last_model(),
    {
        self.last_action
    }

    /// Current position.
    pub fn pos(&self) -> (p: (usize, usize))
        ensures
            p == self.pos_model(),
    {
        (self.row, self.col)
    }
}

/// A patrol repeats itself every four periods.
pub proof fn law_patrol_cycles(step: u64, period: u64)
    requires
        period > 0,
        step + 4 * period <= u64::MAX,
    ensures
        patrol_model((step + 4 * period) as u64, period) == patrol_model(step, period),
{
    let x = step as int;
    let d = period as int;
    let q = x / d;
    let r = x % d;
    vstd::arithmetic::div_mod::lemma_fundamental_div_mod(x, d);
    assert(x + 4 * d == (q + 4) * d + r) by (nonlinear_arith)
        requires
            x == d * q + r,
    ;
    vstd::arithmetic::div_mod::lemma_fundamental_div_mod_converse(x + 4 * d, d, q + 4, r);
}

/// Chasing on the board closes the Manhattan distance to A by one step, unless
/// B already stands on A's cell.
pub proof fn law_chase_approaches(pos: (int, int), a: (int, int), size: int)
    requires
        0 <= pos.0 < size,
        0 <= pos.1 < size,
        0 <= a.0 < size,
        0 <= a.1 < size,
        pos != a,
    ensures
        manhattan_model(step_pos(pos, chase_model(pos, a), size), a) == manhattan_model(pos, a) - 1,
{
}

/// Fleeing never brings B closer to A: it steps away, or stays put against an edge.
pub proof fn law_flee_keeps_distance(pos: (int, int), a: (int, int), size: int)
    ensures
        manhattan_model(step_pos(pos, flee_model(pos, a), size), a) >= manhattan_model(pos, a),
{
}

/// Fleeing moves along the axis on which A is farther (rows on ties), and
/// away from A along it: up or down, up only when A is below, if A is at
/// least as far in rows as in columns; otherwise left or right, left only
/// when A is to the right.
pub proof fn law_flee_along_farther_axis(step: u64, period: u64, pos: (int, int), a: (int, int))
    ensures
        ({
            let act = decide_model(OtherPolicy::Flee, step, period, pos, a);
            &&& abs(a.0 - pos.0) >= abs(a.1 - pos.1) ==> (act == ACTION_UP || act == ACTION_DOWN) && (act
                == ACTION_UP <==> a.0 > pos.0)
            &&& abs(a.0 - pos.0) < abs(a.1 - pos.1) ==> (act == ACTION_LEFT || act == ACTION_RIGHT) && (act
                == ACTION_LEFT <==> a.1 > pos.1)
        }),
{
}

} // verus!
