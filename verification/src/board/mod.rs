pub mod color;
pub mod board;
pub mod board_server;
