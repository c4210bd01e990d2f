//! A rules engine for the board game Go on a fixed 19x19 grid.
//!
//! The engine validates and applies moves, resolves captures, rejects
//! suicidal placements, enforces the whole-history repetition ("ko") rule,
//! tracks turn order, and detects game termination (two consecutive passes).

pub mod board;
pub mod game;
pub mod text;
