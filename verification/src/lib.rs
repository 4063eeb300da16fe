//! Glassboard: a verified chess core — board, rules, move generation, FEN,
//! SAN, evaluation, search, the assistance layer with its transparent
//! glass-box log, and the engine-validated multiplayer room.
pub mod board;
pub mod rules;
pub mod movegen;
pub mod perft;
pub mod text;
pub mod fen;
pub mod eval;
pub mod san;
pub mod legality;
pub mod search;
pub mod room;
pub mod assist;
pub mod strategy;
pub mod signals;
pub mod console;
pub mod fen_laws;
pub mod game;
pub mod eval_laws;
