# swissdraw

Bookkeeping for Swiss-system tournaments: teams, games, rounds, scores, and
the integer side of rating teams and pairing them.

- `src/` is the verified library (Verus). `game`, `team` and `draw` hold the
  data of a draw and its operations (entering scores, readying a draw for
  pairing, recording a round, loading results rows, rebuilding a stored
  draw); `strength` builds the rating problem from the games; `matchups`
  counts earlier meetings, turns a pairing into games, and lists the teams
  named in games; `laws` states properties that span these operations.
- `app/` holds what the library does not: floating-point ratings and costs,
  the linear-programming pairing (good_lp), CSV files, and the SQLite store.
- `tests/` runs the library on concrete draws.
