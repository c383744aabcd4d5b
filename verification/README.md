# tetris_server

The server side of a multiplayer Tetris game that runs as a SpacetimeDB
module. Each connected player gets a board; every four waiting players form a
game whose boards a timer moves down twice a second.

- `src/` is the board logic, verified with Verus:
  - `bricks.rs`: the seven pieces in their four rotations;
  - `tetris.rs`: the board, its falling piece, moving, turning, dropping,
    clearing full rows, bringing in new pieces, and reading and writing the
    board as table rows;
  - `reducers.rs`: what each reducer does to a loaded board;
  - `laws.rs`: properties that tie the operations together;
  - `tables.rs`, `stdb.rs`: the stored rows as plain values, and the few
    SpacetimeDB items the logic uses (the random number generator).
- `app/` is the SpacetimeDB module itself: the tables and the reducers, which
  load a board, call the logic, and store the board back.
