//! Rules core of a chess engine: a board of 64 squares with en-passant
//! bookkeeping, and a legal-move generator that refuses moves leaving the
//! mover's own king attacked.

pub mod board;
pub mod pieces;
