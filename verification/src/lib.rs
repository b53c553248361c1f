pub mod ai;
pub mod board;
pub mod human;
pub mod utils;
