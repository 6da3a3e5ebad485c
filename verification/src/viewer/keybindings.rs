//! What each key does: for the mode the viewer is in and the key pressed, the mode it goes
//! to and the action to carry out on the tabs, the views and the input line.
use vstd::prelude::*;
use crate::viewer::modes::{PopupMode, SearchMode};

verus! {

/// The mode the keys are read in.
#[derive(Debug, Clone, Copy, PartialEq, Eq, Structural, Hash)]
pub enum Mode {
    Main(MainMode),
    Popup(PopupMode),
}

/// The main screen: moving in the lists, or typing.
#[derive(Debug, Clone, Copy, PartialEq, Eq, Structural, Hash)]
pub enum MainMode {
    Navigate(NavMode),
    Input(InputMode),
}

/// Which list has the focus.
#[derive(Debug, Clone, Copy, PartialEq, Eq, Structural, Hash)]
pub enum NavMode {
    Current,
    Prevs,
    Nexts,
}

/// What is being typed.
#[derive(Debug, Clone, Copy, PartialEq, Eq, Structural, Hash)]
pub enum InputMode {
    Search(SearchMode),
    Command,
}

/// A key, as far as the bindings tell keys apart.
#[derive(Debug, Clone, Copy, PartialEq, Eq, Structural, Hash)]
pub enum Key {
    Char(char),
    Enter,
    Backspace,
    Esc,
    Tab,
    BackTab,
    Other,
}

/// What a move up or down applies to.
#[derive(Debug, Clone, Copy, PartialEq, Eq, Structural, Hash)]
pub enum Target {
    Current,
    Prevs,
    Nexts,
    Tree,
    Help,
}

/// The list that has the focus.
pub open spec fn nav_target(nav: NavMode) -> Target {
    match nav {
        NavMode::Current => Target::Current,
        NavMode::Prevs => Target::Prevs,
        NavMode::Nexts => Target::Nexts,
    }
}

/// The list that has the focus.
pub fn target_of(nav: NavMode) -> (res: Target)
    ensures
        res == nav_target(nav),
{
    match nav {
        NavMode::Current => Target::Current,
        NavMode::Prevs => Target::Prevs,
        NavMode::Nexts => Target::Nexts,
    }
}

/// What to do after a key.
#[derive(Debug, Clone, Copy, PartialEq, Eq, Structural, Hash)]
pub enum Action {
    /// Nothing more than the change of mode, if any.
    Stay,
    Quit,
    /// Enter an input mode (the input line is reset and the matches are listed anew).
    ToInput(InputMode),
    ToPopup(PopupMode),
    /// Back to navigating the current list (the input line is kept in the history).
    ToNav,
    CloseTab,
    Export,
    Xdot,
    /// Go to the next match (`true`) or the previous one.
    GotoMatch(bool),
    /// Open the neighbors of the selected node within this depth in a new tab.
    Neighbors(usize),
    /// Type a character and update the search of this input mode.
    Insert(char, InputMode),
    /// Delete the character before the cursor and update the search of this input mode.
    Delete(InputMode),
    /// Go to the node of the selected match and back to navigating (the search is applied).
    ApplySearch,
    /// Run the typed command and go back to navigating.
    Exec,
    /// Go to the node selected in the list of predecessors or successors.
    GotoAdjacent,
    /// Open the subgraph selected in the tree in a new tab.
    Subgraph,
    NextTab,
    PreviousTab,
    /// Complete the input line and update the search of this input mode.
    Autocomplete(InputMode),
    /// Move the selection of a list (or the tree, or the help table) up or down.
    Up(Target),
    Down(Target),
    /// Move the cursor of the input line forward or back.
    CursorFront,
    CursorBack,
    /// Move in the subgraph tree.
    TreeLeft,
    TreeRight,
    /// The key means nothing here.
    KeyError(Key),
}

/// The focus after `l`: current, then predecessors, then successors, then current again.
pub open spec fn nav_right(nav: NavMode) -> NavMode {
    match nav {
        NavMode::Current => NavMode::Prevs,
        NavMode::Prevs => NavMode::Nexts,
        NavMode::Nexts => NavMode::Current,
    }
}

/// The focus after `h`: the other way round.
pub open spec fn nav_left(nav: NavMode) -> NavMode {
    match nav {
        NavMode::Current => NavMode::Nexts,
        NavMode::Prevs => NavMode::Current,
        NavMode::Nexts => NavMode::Prevs,
    }
}

/// The value of an ASCII digit.
pub open spec fn digit_value(c: char) -> int {
    c as int - '0' as int
}

/// The binding of a character key while navigating with focus `nav`: the focus after it and
/// the action.
pub open spec fn nav_char_action(nav: NavMode, c: char) -> (NavMode, Action) {
    if c == 'q' {
        (nav, Action::Quit)
    } else if c == '/' {
        (nav, Action::ToInput(InputMode::Search(SearchMode::Fuzzy)))
    } else if c == 'r' {
        (nav, Action::ToInput(InputMode::Search(SearchMode::Regex)))
    } else if c == ':' {
        (nav, Action::ToInput(InputMode::Command))
    } else if c == 's' {
        (nav, Action::ToPopup(PopupMode::Tree))
    } else if c == '?' {
        (nav, Action::ToPopup(PopupMode::Help))
    } else if c == 'c' {
        (nav, Action::CloseTab)
    } else if c == 'e' {
        (nav, Action::Export)
    } else if c == 'x' {
        (nav, Action::Xdot)
    } else if c == 'n' {
        (nav, Action::GotoMatch(true))
    } else if c == 'N' {
        (nav, Action::GotoMatch(false))
    } else if c == 'h' {
        (nav_left(nav), Action::Stay)
    } else if c == 'j' {
        (nav, Action::Down(nav_target(nav)))
    } else if c == 'k' {
        (nav, Action::Up(nav_target(nav)))
    } else if c == 'l' {
        (nav_right(nav), Action::Stay)
    } else if '0' <= c <= '9' {
        (nav, Action::Neighbors(digit_value(c) as usize))
    } else {
        (nav, Action::KeyError(Key::Char(c)))
    }
}

/// The mode and action after `key` in `mode`.
pub open spec fn step(mode: Mode, key: Key) -> (Mode, Action) {
    match key {
        Key::Char(c) => match mode {
            Mode::Main(MainMode::Navigate(nav)) => {
                let (n, a) = nav_char_action(nav, c);
                (Mode::Main(MainMode::Navigate(n)), a)
            },
            Mode::Main(MainMode::Input(imode)) => (mode, Action::Insert(c, imode)),
            Mode::Popup(PopupMode::Tree) => {
                if c == 'q' {
                    (mode, Action::Quit)
                } else if c == 'h' {
                    (mode, Action::TreeLeft)
                } else if c == 'j' {
                    (mode, Action::Down(Target::Tree))
                } else if c == 'k' {
                    (mode, Action::Up(Target::Tree))
                } else if c == 'l' {
                    (mode, Action::TreeRight)
                } else {
                    (mode, Action::KeyError(key))
                }
            },
            Mode::Popup(PopupMode::Help) => {
                if c == 'q' {
                    (mode, Action::Quit)
                } else if c == 'j' {
                    (mode, Action::Down(Target::Help))
                } else if c == 'k' {
                    (mode, Action::Up(Target::Help))
                } else if c == 'h' || c == 'l' {
                    (mode, Action::Stay)
                } else {
                    (mode, Action::KeyError(key))
                }
            },
        },
        Key::Enter => match mode {
            Mode::Main(MainMode::Navigate(NavMode::Current)) => (mode, Action::Stay),
            Mode::Main(MainMode::Navigate(_)) => (mode, Action::GotoAdjacent),
            Mode::Main(MainMode::Input(InputMode::Search(_))) => (mode, Action::ApplySearch),
            Mode::Main(MainMode::Input(InputMode::Command)) => (mode, Action::Exec),
            Mode::Popup(PopupMode::Tree) => (mode, Action::Subgraph),
            Mode::Popup(PopupMode::Help) => (mode, Action::Stay),
        },
        Key::Backspace => match mode {
            Mode::Main(MainMode::Input(imode)) => (mode, Action::Delete(imode)),
            _ => (mode, Action::KeyError(key)),
        },
        Key::Esc => (mode, Action::ToNav),
        Key::Tab => match mode {
            Mode::Main(MainMode::Navigate(_)) => (mode, Action::NextTab),
            Mode::Main(MainMode::Input(imode)) => (mode, Action::Autocomplete(imode)),
            Mode::Popup(_) => (mode, Action::KeyError(key)),
        },
        Key::BackTab => match mode {
            Mode::Main(MainMode::Navigate(_)) => (mode, Action::PreviousTab),
            _ => (mode, Action::KeyError(key)),
        },
        Key::Other => (mode, Action::Stay),
    }
}


/// While navigating, with any list in focus, `n` asks for the next match and `N` for the
/// previous one, and neither changes the mode.
pub proof fn lemma_match_bindings(nav: NavMode)
    ensures
        step(Mode::Main(MainMode::Navigate(nav)), Key::Char('n')) == (Mode::Main(MainMode::Navigate(nav)), Action::GotoMatch(true)),
        step(Mode::Main(MainMode::Navigate(nav)), Key::Char('N')) == (Mode::Main(MainMode::Navigate(nav)), Action::GotoMatch(false)),
{
}

/// The focus after `l`.
pub fn right(nav: NavMode) -> (res: NavMode)
    ensures
        res == nav_right(nav),
{
    match nav {
        NavMode::Current => NavMode::Prevs,
        NavMode::Prevs => NavMode::Nexts,
        NavMode::Nexts => NavMode::Current,
    }
}

/// The focus after `h`.
pub fn left(nav: NavMode) -> (res: NavMode)
    ensures
        res == nav_left(nav),
{
    match nav {
        NavMode::Current => NavMode::Nexts,
        NavMode::Prevs => NavMode::Current,
        NavMode::Nexts => NavMode::Prevs,
    }
}

/// The binding of a character key while navigating with focus `nav`: the focus after it and
/// the action.
pub fn char_nav(nav: NavMode, c: char) -> (res: (NavMode, Action))
    ensures
        res == nav_char_action(nav, c),
{
    if c == 'q' {
        (nav, Action::Quit)
    } else if c == '/' {
        (nav, Action::ToInput(InputMode::Search(SearchMode::Fuzzy)))
    } else if c == 'r' {
        (nav, Action::ToInput(InputMode::Search(SearchMode::Regex)))
    } else if c == ':' {
        (nav, Action::ToInput(InputMode::Command))
    } else if c == 's' {
        (nav, Action::ToPopup(PopupMode::Tree))
    } else if c == '?' {
        (nav, Action::ToPopup(PopupMode::Help))
    } else if c == 'c' {
        (nav, Action::CloseTab)
    } else if c == 'e' {
        (nav, Action::Export)
    } else if c == 'x' {
        (nav, Action::Xdot)
    } else if c == 'n' {
        (nav, Action::GotoMatch(true))
    } else if c == 'N' {
        (nav, Action::GotoMatch(false))
    } else if c == 'h' {
        (left(nav), Action::Stay)
    } else if c == 'j' {
        (nav, Action::Down(target_of(nav)))
    } else if c == 'k' {
        (nav, Action::Up(target_of(nav)))
    } else if c == 'l' {
        (right(nav), Action::Stay)
    } else if '0' <= c && c <= '9' {
        let d = ((c as u32) - ('0' as u32)) as usize;
        (nav, Action::Neighbors(d))
    } else {
        (nav, Action::KeyError(Key::Char(c)))
    }
}

/// The mode and action after the key `pressed` in `mode`.
pub fn key(mode: Mode, pressed: Key) -> (res: (Mode, Action))
    ensures
        res == step(mode, pressed),
{
    match pressed {
        Key::Char(c) => match mode {
            Mode::Main(MainMode::Navigate(nav)) => {
                let (n, a) = char_nav(nav, c);
                (Mode::Main(MainMode::Navigate(n)), a)
            },
            Mode::Main(MainMode::Input(imode)) => (mode, Action::Insert(c, imode)),
            Mode::Popup(PopupMode::Tree) => {
                if c == 'q' {
                    (mode, Action::Quit)
                } else if c == 'h' {
                    (mode, Action::TreeLeft)
                } else if c == 'j' {
                    (mode, Action::Down(Target::Tree))
                } else if c == 'k' {
                    (mode, Action::Up(Target::Tree))
                } else if c == 'l' {
                    (mode, Action::TreeRight)
                } else {
                    (mode, Action::KeyError(pressed))
                }
            },
            Mode::Popup(PopupMode::Help) => {
                if c == 'q' {
                    (mode, Action::Quit)
                } else if c == 'j' {
                    (mode, Action::Down(Target::Help))
                } else if c == 'k' {
                    (mode, Action::Up(Target::Help))
                } else if c == 'h' || c == 'l' {
                    (mode, Action::Stay)
                } else {
                    (mode, Action::KeyError(pressed))
                }
            },
        },
        Key::Enter => match mode {
            Mode::Main(MainMode::Navigate(NavMode::Current)) => (mode, Action::Stay),
            Mode::Main(MainMode::Navigate(_)) => (mode, Action::GotoAdjacent),
            Mode::Main(MainMode::Input(InputMode::Search(_))) => (mode, Action::ApplySearch),
            Mode::Main(MainMode::Input(InputMode::Command)) => (mode, Action::Exec),
            Mode::Popup(PopupMode::Tree) => (mode, Action::Subgraph),
            Mode::Popup(PopupMode::Help) => (mode, Action::Stay),
        },
        Key::Backspace => match mode {
            Mode::Main(MainMode::Input(imode)) => (mode, Action::Delete(imode)),
            _ => (mode, Action::KeyError(pressed)),
        },
        Key::Esc => (mode, Action::ToNav),
        Key::Tab => match mode {
            Mode::Main(MainMode::Navigate(_)) => (mode, Action::NextTab),
            Mode::Main(MainMode::Input(imode)) => (mode, Action::Autocomplete(imode)),
            Mode::Popup(_) => (mode, Action::KeyError(pressed)),
        },
        Key::BackTab => match mode {
            Mode::Main(MainMode::Navigate(_)) => (mode, Action::PreviousTab),
            _ => (mode, Action::KeyError(pressed)),
        },
        Key::Other => (mode, Action::Stay),
    }
}

/// Moving the focus right and then left, or left and then right, gives it back to the list
/// that had it; three moves in one direction come back too.
pub proof fn lemma_focus_round_trip(nav: NavMode)
    ensures
        nav_left(nav_right(nav)) == nav,
        nav_right(nav_left(nav)) == nav,
        nav_right(nav_right(nav_right(nav))) == nav,
        nav_left(nav_left(nav_left(nav))) == nav,
{
}

/// Keys never leave the popup or the input line by themselves: only navigating changes
/// the mode, and only to another focus.
pub proof fn lemma_mode_changes_only_focus(mode: Mode, k: Key)
    ensures
        step(mode, k).0 != mode ==> (mode matches Mode::Main(MainMode::Navigate(_))
            && step(mode, k).0 matches Mode::Main(MainMode::Navigate(_))),
{
}

} // verus!
