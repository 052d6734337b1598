//! An Othello engine on 64-bit boards: move generation, captures, static
//! evaluation and a principal-variation search, each with its contract.

pub mod bits;
pub mod board;
pub mod bot;
mod chance;
pub mod kernels;
pub mod laws;
pub mod position;
pub mod search;
pub mod squares;
pub mod words;
