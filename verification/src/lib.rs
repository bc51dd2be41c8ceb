//! Game logic of a first-person maze crawler set in a Japanese house:
//! tile maps, multi-floor maze generation, floors and stairs, doors,
//! grid movement, HUD text layout and terminal cell diffing.

pub mod tiles;

pub mod grid;
pub mod map;
pub mod nobiscuit_map;
pub mod rng;
pub mod maze;
pub mod game;
pub mod input;
pub mod phase;
pub mod player;
pub mod terminal;
pub mod renderer;
pub mod framebuffer;
pub mod ui;
pub mod minimap;
