//! Verified core of `dot-viewer`, a terminal debugger for graphs written in the dot
//! format: the navigation state (lists, tabs, input line), search and autocompletion,
//! the command language and the graph algorithms behind the neighbour views.
pub mod app;
pub mod chars;
pub mod graph;
pub mod text;
pub mod viewer;
pub mod words;
pub mod repl;
