//! The line-oriented front end: commands typed at a prompt, their errors and the prompt's
//! highlighting.
pub mod command;
pub mod context;
pub mod error;
pub mod helper;
pub mod repl;
