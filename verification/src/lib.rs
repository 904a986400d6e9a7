pub mod attacks;
pub mod bits;
pub mod consts;
pub mod moves;
pub mod zobrist;
pub mod position;
pub mod frc;
pub mod movegen;
pub mod fen;
pub mod tables;
pub mod status;
pub mod see;
pub mod network;
pub mod evaluate;
pub mod thread;
pub mod search;
pub mod uci;
pub mod datagen;
pub mod lanes;
