pub mod text;
pub mod ansi;
pub mod config;
pub mod renderer;
pub mod terminal;
