//! The modes of the navigator: moving between the current, previous and next lists, or
//! typing a search or a filter.
use vstd::prelude::*;

verus! {

/// What the keys do at the moment.
#[derive(Debug, Clone, Copy, PartialEq, Eq, Structural, Hash)]
pub enum Mode {
    Navigate(NavMode),
    Input(InputMode),
}

/// Which list has the focus while navigating.
#[derive(Debug, Clone, Copy, PartialEq, Eq, Structural, Hash)]
pub enum NavMode {
    Current,
    Prevs,
    Nexts,
}

/// What is being typed.
#[derive(Debug, Clone, Copy, PartialEq, Eq, Structural, Hash)]
pub enum InputMode {
    Search(SearchMode),
    Filter,
}

/// How a search matches node names.
#[derive(Debug, Clone, Copy, PartialEq, Eq, Structural, Hash)]
pub enum SearchMode {
    Fuzzy,
    Regex,
}

} // verus!
