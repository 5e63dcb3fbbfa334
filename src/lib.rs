//! A falling-block puzzle engine: playfield, pieces, collision, rotation,
//! line clearing, scoring and level progression.

pub mod piece;
pub mod field;
pub mod game;
