# tdgame

A board game in which coins drop through five rows of two-way levers, and a
negamax search for the best move, written in Verus.

The state of the board is one 64-bit word: the round (bits 0-1), the
game-over bit (2), the player to move (3), and two bits for each of the 30
levers (whether a coin rests on it, which way it points).

- `src/cascade.rs` defines what a lever does with the coins that reach it,
  one sweep of the board, and the measures used in the proofs.
- `src/accounting.rs` proves that a sweep keeps every coin in play or sends
  it to an exit, and that every sweep of a board with a coin on it lowers a
  potential, so a drop always ends.
- `src/coin_drop.rs` carries out a drop on the state word and two arrays of
  coin counts, and proves it equal to the cascade of sweeps.
- `src/board.rs` holds the game: moves, round bookkeeping, the hashed bytes
  and the text of the board.
- `src/solver.rs` and `src/hash_table.rs` hold the search and its table.
- `app/` is the program: it plays a game against itself and prints it.
