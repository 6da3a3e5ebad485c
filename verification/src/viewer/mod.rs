pub mod app;
pub mod command;
pub mod error;
pub mod help;
pub mod keybindings;
pub mod modes;
pub mod success;
pub mod utils;
pub mod view;
pub mod state;
