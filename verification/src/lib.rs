//! The rules of chess, verified: which squares a piece may move to, check,
//! checkmate and stalemate, and the making of moves, with a screen of
//! coloured cells to draw a game on a terminal.
//!
//! `rules` states the rules over a mathematical model of the board, `laws`
//! proves what follows from them, `chess` holds the game that plays by them,
//! `squares` the sets of squares it answers with, and `graphics` the screen.

pub mod chess;
pub mod graphics;
pub mod laws;
pub mod rules;
pub mod squares;
