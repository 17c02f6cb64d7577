# nash

Game logic of a heads-up No-Limit Hold'em CFR+ solver, verified with Verus.

- `src/card.rs` – cards, five-card sets and the 52-card deck (shuffled with `rand`).
- `src/hand.rs` – hand evaluation: a score whose top byte is the category
  (high card ... royal flush) followed by tie-break ranks, specified over the
  rank and suit histograms of the cards.
- `src/game.rs` – players, streets, actions, the action history, the legal
  actions at a decision point and the betting state machine, specified over a
  mathematical model of the game state.
- `src/config.rs` – game and solver configuration and their validation.
- `src/solver.rs` – the solver's decisions that involve no probabilities:
  configuration checks, the per-iteration schedule, deals and payoffs in chips.
- `app/` – the program around the library: the strategy table (floating-point
  regrets in a `DashMap`, saved with `bincode`), the CFR+ traversals spread over
  `rayon` threads, logging with `tracing`, and serializable copies of the
  library's types.
- `tests/` – scenario tests and concrete checks of the library's laws.
