//! The Wuzi game: a five-by-five board whose slots are filled from the
//! bottom, two colours taking turns, and the text protocol that a board
//! server and its players speak.

pub mod board;
pub mod player;
pub mod text;
