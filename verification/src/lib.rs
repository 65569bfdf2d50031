//! Chess move generation and evaluation core with machine-checked contracts.

pub mod bits;
pub mod board;
pub mod attacks;
pub mod movegen;
pub mod makemove;
pub mod legal;
pub mod text;
pub mod fen;
pub mod movetext;
pub mod fen_roundtrip;
pub mod material;
pub mod see;
pub mod eval;
pub mod pawn_mirror;
pub mod nnue;
pub mod features;
pub mod pins;
pub mod tt;
pub mod game;
pub mod protocol;
pub mod ordering;
pub mod rng;
pub mod zobrist;
pub mod search;
