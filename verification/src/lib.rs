//! A chess engine core: bitboards, board state, move generation, static
//! exchange evaluation, evaluation terms and alpha-beta search.
pub mod types;
pub mod bitboard;
pub mod zobrist;
pub mod board;
pub mod movegen;
pub mod see;
pub mod fen;
pub mod search;
pub mod uci;
pub mod neural;
pub mod eval;
pub mod fen_roundtrip;
pub mod perft;
pub mod protocolo;
