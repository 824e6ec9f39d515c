pub mod board;
pub mod laws;
