//! A ten-by-ten tile-elimination puzzle: a board engine whose moves, scoring,
//! gravity and column compaction are verified, and a Monte-Carlo tree search
//! that recommends moves on it.

pub mod board;
pub mod laws;
pub mod solver;
