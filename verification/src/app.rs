//! The graph navigator: its modes, errors and the state of its widgets.
pub mod error;
pub mod modes;
pub mod utils;
