//! The modes of the viewer.
use vstd::prelude::*;

verus! {

/// The context the viewer is in, which decides what the keys do.
#[derive(Debug, Clone, Copy, PartialEq, Eq, Structural, Hash)]
pub enum Mode {
    Normal,
    Command,
    Search(SearchMode),
    Popup(PopupMode),
}

/// In a popup, users navigate the subgraphs or read the help.
#[derive(Debug, Clone, Copy, PartialEq, Eq, Structural, Hash)]
pub enum PopupMode {
    Tree,
    Help,
}

/// A search matches node ids fuzzily, or the node's dot text by a regular expression.
#[derive(Debug, Clone, Copy, PartialEq, Eq, Structural, Hash)]
pub enum SearchMode {
    Fuzzy,
    Regex,
}

} // verus!
