mod chance;
mod convert;
pub mod debug;
pub mod game;
pub mod piece;
pub mod laws;
