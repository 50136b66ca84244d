# cif_stage0

An agent in a tiny grid world that learns to predict the effects of its own
actions, written in Verus: every function of the library carries a contract
that Verus proves.

## Layout

- `src/grid.rs`: the colored grid, Hamming distance, marker search, text rendering.
- `src/world.rs`: the deterministic world with one marker, clamped at the edges.
- `src/memory.rs`: the experience memory (deduplicating store; exact, nearest
  and most-common retrieval).
- `src/self_model.rs`: the memory that ignores the other agent's marker.
- `src/temporal.rs`: the memory that keys experiences by their recent context.
- `src/rules.rs`: movement rules extracted from experience, and generative prediction.
- `src/other.rs`: the second, non-learning agent and its policies.
- `src/planner.rs`: greedy and breadth-first planning over the learned model; the
  planner's result is stated exactly against a specification of its layered search.
- `src/agent.rs`: the agent's state, its two prediction paths and their tallies.
- `src/random.rs`: the seeded generator of the `rand` crate, behind trusted wrappers.
- `app/`: the command-line program: configuration, softmax action selection,
  floating-point metrics and printing.
- `tests/`: tests that run the library on concrete values.

The planner simulates with the agent's memory recall (Path A): the agent has
no rule-based path, so the planning tests train it by recording world moves
and plan on what it remembers, with no rule-extraction step.

The strand checkpoints of the metrics (dual-path convergence matrices) are not
part of this build: they rest on the `strand_core` crate, which is not
available here, and on floating-point matrices. The `strand_interval` setting
is kept in the configuration but read by nothing.

Laws that relate several operations (read after write on grids and memories,
deduplication, context-free temporal memory behaving as the plain memory, rules
learned from the world predicting it exactly, raw and stored experience giving
the same rules, planner answers backed by predicted routes, greedy steps
making progress) are stated as
public proof functions whose names begin with `law_`.
