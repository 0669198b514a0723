# rts_engine

A small real-time strategy game. The rules of the game live in a library
whose behaviour is stated in Verus contracts and proved:

- `engine::map` — the 60 × 60 tile map, its terrain and layout.
- `engine::pathfinding` — A* search over walkable tiles with king moves,
  terrain costs (road 1, grass 2, sand 3; a diagonal step costs 1.41 times
  the terrain cost, rounded down) and an octile estimate, which lies
  between the Chebyshev and the Manhattan distance. The path returned is
  stated exactly: it is `search_result`, a spec function that runs the
  search step by step (the heap's push and pop, the relaxation of the eight
  directions in their fixed order, the trace back along the recorded
  predecessors). On top of that the contract states that a path is returned
  exactly when a walk to the goal exists, that every path is such a walk and
  never visits a tile twice, and that a walkable neighbour of the start is
  reached in its single direct move. The open set is a binary heap kept in
  a `Vec`. The best known costs and predecessors are two dense tables with
  one slot per map tile, indexed by the tile's position in the row-major
  tile vector, rather than hash maps keyed by tile: the map has a fixed 3600
  tiles, every lookup the search makes is of a tile on the map (or of the
  start, which is handled apart), and a slot holding the "unseen" mark
  answers exactly what a missing key would, so the tables hold the same
  information while the search and its specification reason over plain
  sequences.
- `engine::spawn` — enemy ids, the starting enemies and the make-up of each wave.
- `engine::combat` — the score tally (each death booked once), projectile
  ids, patrol targets and the attack/chase/patrol decisions of units and
  enemies.
- `engine::input` — formation goals and paths of a group move order.
- `engine::unit` — unit kinds, the starting force and a unit's tile-level state: its tile,
  selection, path and attack, with move orders, stopping and arrival.
- `engine::enemy`, `engine::projectile` — enemy kinds and AI states.
- `math` — Manhattan distance.
- `hud` — the bounded event log and the terrain panel's labels.

`app/` holds the egui program around it: the window, drawing, input, and the
floating-point simulation of movement, health, cooldowns and projectiles.
