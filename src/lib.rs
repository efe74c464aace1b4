//! Rules and move generation for a two-player chess-like game on an 8 by 8
//! grid: the pieces and their lookup by square, the squares each piece may
//! move to, the application of a move with capture and promotion, and the
//! reading and writing of piece placements.

/// Placement strings: reading a starting position, writing one back.
pub mod fen;
/// Applying move requests, the turn, and reading move requests.
pub mod game;
/// Pieces, the board, square lookup and move generation.
pub mod piece;
