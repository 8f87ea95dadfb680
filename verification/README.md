# connect_four

A Connect Four engine on 64-bit bitboards, verified with Verus: the board and
its rules, position keys, a transposition table, and a solver (null window
alpha-beta search driven by a binary search on the score).

- `src/bits.rs`: single bits of a `u64` and how the bitwise operators act on them.
- `src/board.rs` and `src/board/`: positions (`Position`), cells and lines of four,
  playing moves, winning cells and safe moves, keys, child positions sorted by
  score, and text output.
- `src/live_evaluation/`: the transposition table, the exact score of a position
  under perfect play (`exact_score`), the null window search and the solver.
- `src/parse.rs`: one line of input (moves, a space, the expected score).
- `app/`: the program that reads lines from standard input, solves each
  position, checks the expected score and prints node counts and times.

The solver's contract: for every position of a game in which the players took
turns, `Solver::solve` returns `exact_score` of the position. The solver keeps,
as its invariant, that every bound its table answers for a position of a game
where the players took turns and the player to move cannot win next holds of
that position's exact score.
