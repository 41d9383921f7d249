# own2048

A 2048 game and two players for it, verified with Verus.

- `src/board.rs`, `src/line.rs`: the packed board (sixteen 4-bit cells in a
  `u64`, each cell holding the exponent of its tile) and the slide-and-merge
  of one line, as specifications and lemmas.
- `src/game.rs`: the game (`Game`): reading and writing cells, transposing
  and turning the board, moving it in each direction, spawning random tiles
  and detecting the end of the game.
- `src/solver.rs`: a depth-limited search for the next move.
- `src/grid.rs`, `src/page.rs`: the player for the web version of the game,
  on rows of tile values read from the page: moving the grid, scoring a move,
  choosing one, and reading tile elements' class names.
- `src/tally.rs`: the count of finished games by their highest tile.
- `src/laws.rs`: properties that span several operations.
- `src/random.rs`: the one call into `rand`.
- `app/`: the terminal game loop and the browser driver (`web` argument).
