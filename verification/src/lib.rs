pub mod board;
pub mod dictionary;
pub mod engine;
pub mod order;

pub use board::Board;
pub use board::Cell;
