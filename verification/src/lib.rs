//! A small verified library for a grid-exploration game: an ASCII map of
//! walls, floors, traps, gold and a player is parsed into a grid of tiles,
//! the player is located, and a breadth-first flood fill counts the gold
//! tiles reachable from the player through floor and gold cells.

pub mod bfs;
pub mod grid;
pub mod parse;
pub mod tile;
