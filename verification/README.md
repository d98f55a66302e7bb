# ttfff

Tic Tac Flic Flac Floe as a verified library.

- `src/logic.rs`: players, symbols, places, boards, moves and the move rule.
- `src/bits.rs`: the bit codes of places, moves and games, with their
  round-trip laws.
- `src/game_set.rs`: a set of games held as injective integer keys in an
  `FxHashSet`, beside the games themselves.
- `src/explore.rs`: the legal moves of a state, exhaustive exploration of the
  reachable states, terminal states and the report over all games.
- `src/play.rs`: the state of an interactive session (moves, undo, game end,
  winning lines, the computer opponent); scores and winners are handed in.
- `app/main.rs`: prints the report.
