# gomoku

Gomoku (five in a row on a 15×15 board), written in Verus: the library under
`src/` is verified, and `app/` is the command line around it.

## Layout

- `src/board.rs`, `position_id.rs`, `offset.rs`, `stone.rs`, `outcome.rs`:
  the board and the rules: where stones go, who has five, who is to move.
- `src/minimax/`: the search. `lines` scores each of the 88 lines by its
  stone masks, `patterns` and `threats` read what one more stone would make
  on a cell, `search_state` keeps all of that up to date as stones are
  placed and taken back, `tt` is the transposition table, and `search` is
  negamax with threat-based move ordering. The search's value is stated as
  a relation, `search_value`, that follows a fail-hard alpha-beta search
  through the table it reads and writes: each move's value is the negated
  value of the opponent's search one level down.
- `src/game/`, `game_state.rs`, `match_result.rs`: playing games between
  strategies, with observers, openings and scripted outcomes.
- `src/neighbor_cache.rs`, `neighbor_counts_cache.rs`, `cache_repository.rs`:
  neighbour tables and per-cell neighbour counts that follow the board.
- `src/evolution/`: crossover (uniform, order, partially mapped), mutation
  (swap, insert, inversion), tournament selection, the games a strategy
  plays against minimax to measure its fitness, and the fitness a
  tournament's standings give.
- `src/nn/board_symmetry.rs`: the eight symmetries of the board.
- `src/rng.rs`: the calls into `fastrand`, the only code whose contracts are
  trusted rather than proved, next to the declarations of `fixedbitset` and
  `rapidhash` collections in the crossover modules.

## Running

`app/` holds the `gomoku` command: `gomoku play` plays two minimax players
against each other and prints the final board; `gomoku interactive` lets a
person play against minimax in the terminal.
