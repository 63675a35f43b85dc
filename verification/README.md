# g2048-core

A 2048 engine on a 64-bit bitboard (16 cells of 4 bits, each holding the
exponent of its tile), verified with Verus.

- `src/` is the verified library:
  - `board`: cells, rows, the slide of a line, the four moves (directly or
    through a precomputed `MoveTable`), spawning, legal moves.
  - `naive`: a readable 4x4 grid reference, proved to agree with the
    bitboard moves.
  - `game`: `GameState`, a game driven by a seeded generator.
  - `agent`: the `Agent` trait, the random, greedy and corner agents, and
    random playouts.
  - `features`: the integer measures behind the six board features.
  - `runner`: move codes and replays of recorded games.
  - `train`: the one-hot encoding of the raw model and the linear models.
- `app/` holds what works in floating point or runs outside the library:
  feature values, expectimax, Monte Carlo, weight learning, the TOML
  experiment runner.
- `tests/` exercises the library on concrete boards and games.
