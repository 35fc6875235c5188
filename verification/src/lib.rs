//! A falling-block puzzle engine: piece geometry and rotation, collision and
//! bounds detection, gravity stepping, full-line clearing and scoring, with
//! machine-checked contracts over a set-based model of the playfield.

pub mod interface;
pub mod position;
pub mod shape;
pub mod tetris;
