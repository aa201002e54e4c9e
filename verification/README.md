# banqi-core

Rules engine of dark chess (banqi) for self-play and search, with its behaviour
stated in Verus contracts and proved.

Layout:

- `src/env/` — the game: variants and their rules (`config`), pieces and squares
  (`types`), the action space and its lookup tables (`actions`), the environment
  state and its well-formedness (`board`), legal actions, structured moves and the
  end-of-game rules (`rules`), position snapshots and their byte encoding
  (`snapshot`), flip outcome ids (`traits`), seeded games (`seed`) and the 4x4 and
  4x2 variant wrappers with curriculum starts that flip some pieces at random
  (`variants`).
- `src/expectimax/` — search bookkeeping (node and time budget, killer moves,
  history table) and move ordering.
- `src/mcts/` — the evaluator error type.
- `app/` — serde forms of the board data, display texts, the float-valued evaluator
  helpers, the NNUE interface and the search settings.
- `tests/` — scenarios and concrete instances of the proved laws.
