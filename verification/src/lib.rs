pub mod board;
pub mod minimax;
pub mod parse;
