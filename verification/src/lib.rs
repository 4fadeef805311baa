//! A chess engine on bitboards: boards and move tables, magic lookup of slider
//! attacks, positions with making and taking back of moves, Forsyth-Edwards notation,
//! legal move generation, static evaluation and an alpha-beta search, each with its
//! contract, and the laws that the parts obey together.
pub mod bboard;
pub mod castle_laws;
pub mod common;
pub mod debug;
pub mod engine;
pub mod evaluator;
pub mod fen;
pub mod fen_laws;
pub mod fen_syntax;
pub mod game_setup;
pub mod generation_laws;
pub mod legality;
pub mod magic;
pub mod messaging;
pub mod move_generator;
pub mod piece_moves;
pub mod position_laws;
pub mod protocol;
pub mod state;
