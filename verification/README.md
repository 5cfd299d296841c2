# jellespelletjes_api

Accounts, result verification, statistics and the lettersoep daily puzzle
for woordle.nl, sudokudo.nl and jellespelletjes.nl, written in Verus.

- `src/` is the verified library:
  - `games/woordle.rs`: the two-pass Wordle evaluation and result
    verification for the four woordle variants;
  - `games/sudokudo.rs`: sudoku result verification against seeded puzzles;
  - `games/lettersoep/`: the lettersoep generator — the Mulberry32 RNG and
    FNV-1a seeds (`rng`), letters and premium squares (`letters`), the board
    (`board`), placement scoring (`scoring`), the word list (`dict`), move
    search (`moves`), the tile bag (`bag`) and the daily puzzle (`puzzle`);
  - `stats.rs`: per-game statistics with streaks and imported baselines;
  - `auth.rs`: tokens, the rate limiter, email and SSO-origin rules;
  - `config.rs`, `seed.rs`, `requests.rs`: settings, sudoku seeding
    decisions, request bodies.
- `app/` is the server around it: axum routes, SQLite storage, email and
  the command line.
- `tests/` exercise the library on concrete values.
