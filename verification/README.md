# fangeleg

A simulation of the game of tag ("fangeleg" in Danish) on a grid, with its
behaviour proved by Verus.

- `src/simulation.rs`: the grid, placing agents, carrying out their actions,
  and the step in which every agent acts once. `SimView` is the state as a
  mathematical value; `is_step` says what a step does.
- `src/naive_agent.rs`, `src/competent_agent.rs`: two kinds of agent.
- `src/action_code.rs`: the numeric codes of actions for agents written in
  JavaScript.
- `src/laws.rs`: properties that hold across operations.
- `src/random.rs`: the random draws, taken from the `rand` crate.
- `app/`: the terminal program and the browser front end.
