pub mod backend;
pub mod board;
pub mod board_iter;
pub mod square;
