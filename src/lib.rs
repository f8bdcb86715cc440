//! A two-player Game of Life played on an infinite strip of square tiles.
pub mod grid;
pub mod tile;
pub mod vec_tile;
pub mod bit_tile;
pub mod cycle;
pub mod board;
pub mod game;
pub mod player;
pub mod symmetry;
