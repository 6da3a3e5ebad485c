//! The input line of the search and filter modes, shared with the viewer.
pub use crate::viewer::utils::input::Input;
