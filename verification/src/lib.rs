//! A turn-based maze world: a perfect-maze generator, a shortest-path
//! solver, and trolls that hunt the player and shove walls around.

pub mod carve;
pub mod dice;
pub mod direction;
pub mod frontier;
pub mod game;
pub mod generate;
pub mod grid;
pub mod layout;
pub mod maze;
pub mod pathfind;
pub mod player;
pub mod posn;
pub mod tile;
pub mod troll;
