//! A Game of Life engine on a toroidal board, with an incremental
//! "active cell" frontier that is proved to agree with a full scan.

pub mod board;
pub mod engine;
pub mod game;
pub mod life;
mod sources;
