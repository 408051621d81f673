//! Rules and move-selection engine for the board game Othello on a fixed
//! 8x8 grid: legality checking, move application with captures along the
//! eight compass rays, termination detection, piece tallies, and three
//! automated move-selection strategies (random, greedy, minimax with
//! alpha-beta pruning).

pub mod board;
pub mod rules;
pub mod game;
pub mod cpu;
pub mod player;
