pub mod bitboard;
pub mod dataset;
pub mod engine;
pub mod eval;
pub mod hand;
pub mod keys;
pub mod mov;
pub mod movegen;
pub mod native_support;
pub mod perft;
pub mod pins;
pub mod search;
pub mod selfplay;
pub mod position;
pub mod sfen;
pub mod tables;
pub mod tt;
pub mod types;
pub mod zobrist;
