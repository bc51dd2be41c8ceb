# nobiscuit

A first-person maze crawler for the terminal, set in an endless Japanese
house: wander the floors, eat biscuits to stay alive, find the way out.

The game's logic is a library verified with Verus (`src/`); the terminal
front end, timing and floating-point rendering live in `app/`.

## Layout

- `src/tiles.rs`, `src/map.rs`, `src/grid.rs`, `src/nobiscuit_map.rs`: tile
  kinds and the tile maps.
- `src/maze.rs` and `src/maze/`: floor generation. `mask` (irregular
  outline and its islands), `bsp` (rooms and corridors), `connect` (doors
  joining the layout, spawn repair), `decor` (typed doors, windows, shoji,
  sealed VOID edges), `floor` (stairs on every island), `goal_floor` (the
  top floor), `reach` (flood-fill connectivity and its repair).
- `src/game.rs`: the world of floors, stairs, doors that open and close,
  biscuits and the goal.
- `src/player.rs`, `src/input.rs`, `src/phase.rs`: grid movement, key
  bindings, and the opening and play screens.
- `src/terminal.rs`, `src/ui.rs`, `src/minimap.rs`, `src/renderer.rs`,
  `src/framebuffer.rs`: half-block screen diffing, the HUD, the minimap
  layout and the framebuffer of the `termray` engine.
- `src/rng.rs`: the random choices, through `rand`.
- `tests/`: tests of the library.
- `app/`: `main`, the game loop over `crossterm`, textures and animation.
