use dot_viewer::viewer::keybindings::{char_nav, key, left, right, Action, InputMode, Key, MainMode, Mode, NavMode, Target};
use dot_viewer::viewer::modes::{PopupMode, SearchMode};

fn nav(n: NavMode) -> Mode {
    Mode::Main(MainMode::Navigate(n))
}

#[test]
fn focus_rotation() {
    assert_eq!(right(NavMode::Current), NavMode::Prevs);
    assert_eq!(right(NavMode::Prevs), NavMode::Nexts);
    assert_eq!(right(NavMode::Nexts), NavMode::Current);
    for n in [NavMode::Current, NavMode::Prevs, NavMode::Nexts] {
        assert_eq!(left(right(n)), n);
        assert_eq!(right(left(n)), n);
    }
}

#[test]
fn navigation_characters() {
    assert_eq!(char_nav(NavMode::Current, 'q'), (NavMode::Current, Action::Quit));
    assert_eq!(char_nav(NavMode::Current, '/'), (NavMode::Current, Action::ToInput(InputMode::Search(SearchMode::Fuzzy))));
    assert_eq!(char_nav(NavMode::Current, 'r'), (NavMode::Current, Action::ToInput(InputMode::Search(SearchMode::Regex))));
    assert_eq!(char_nav(NavMode::Current, ':'), (NavMode::Current, Action::ToInput(InputMode::Command)));
    assert_eq!(char_nav(NavMode::Current, '?'), (NavMode::Current, Action::ToPopup(PopupMode::Help)));
    assert_eq!(char_nav(NavMode::Current, 's'), (NavMode::Current, Action::ToPopup(PopupMode::Tree)));
    assert_eq!(char_nav(NavMode::Prevs, 'N'), (NavMode::Prevs, Action::GotoMatch(false)));
    assert_eq!(char_nav(NavMode::Prevs, 'h'), (NavMode::Current, Action::Stay));
    assert_eq!(char_nav(NavMode::Prevs, 'l'), (NavMode::Nexts, Action::Stay));
    assert_eq!(char_nav(NavMode::Nexts, '7'), (NavMode::Nexts, Action::Neighbors(7)));
    assert_eq!(char_nav(NavMode::Nexts, 'z'), (NavMode::Nexts, Action::KeyError(Key::Char('z'))));
}

#[test]
fn keys_by_mode() {
    let input = Mode::Main(MainMode::Input(InputMode::Command));
    assert_eq!(key(input, Key::Char('x')), (input, Action::Insert('x', InputMode::Command)));
    assert_eq!(key(input, Key::Backspace), (input, Action::Delete(InputMode::Command)));
    assert_eq!(key(input, Key::Enter), (input, Action::Exec));
    let fuzzy = Mode::Main(MainMode::Input(InputMode::Search(SearchMode::Fuzzy)));
    assert_eq!(key(fuzzy, Key::Enter), (fuzzy, Action::ApplySearch));
    assert_eq!(key(fuzzy, Key::Esc), (fuzzy, Action::ToNav));
    assert_eq!(key(input, Key::Tab), (input, Action::Autocomplete(InputMode::Command)));
    assert_eq!(key(input, Key::BackTab), (input, Action::KeyError(Key::BackTab)));
    assert_eq!(key(nav(NavMode::Current), Key::Char('l')), (nav(NavMode::Prevs), Action::Stay));
    assert_eq!(key(nav(NavMode::Current), Key::Enter), (nav(NavMode::Current), Action::Stay));
    assert_eq!(key(nav(NavMode::Nexts), Key::Enter), (nav(NavMode::Nexts), Action::GotoAdjacent));
    assert_eq!(key(nav(NavMode::Current), Key::Esc), (nav(NavMode::Current), Action::ToNav));
    assert_eq!(key(nav(NavMode::Current), Key::Tab), (nav(NavMode::Current), Action::NextTab));
    assert_eq!(key(nav(NavMode::Current), Key::BackTab), (nav(NavMode::Current), Action::PreviousTab));
    assert_eq!(key(nav(NavMode::Current), Key::Backspace), (nav(NavMode::Current), Action::KeyError(Key::Backspace)));
    let tree = Mode::Popup(PopupMode::Tree);
    assert_eq!(key(tree, Key::Char('h')), (tree, Action::TreeLeft));
    assert_eq!(key(tree, Key::Char('j')), (tree, Action::Down(Target::Tree)));
    assert_eq!(key(nav(NavMode::Prevs), Key::Char('k')), (nav(NavMode::Prevs), Action::Up(Target::Prevs)));
    assert_eq!(key(nav(NavMode::Current), Key::Char('j')), (nav(NavMode::Current), Action::Down(Target::Current)));
    assert_eq!(key(tree, Key::Enter), (tree, Action::Subgraph));
    assert_eq!(key(tree, Key::Esc), (tree, Action::ToNav));
    let help = Mode::Popup(PopupMode::Help);
    assert_eq!(key(help, Key::Char('q')), (help, Action::Quit));
    assert_eq!(key(help, Key::Char('j')), (help, Action::Down(Target::Help)));
    assert_eq!(key(help, Key::Char('k')), (help, Action::Up(Target::Help)));
    assert_eq!(key(help, Key::Char('l')), (help, Action::Stay));
    assert_eq!(key(help, Key::Char('x')), (help, Action::KeyError(Key::Char('x'))));
    assert_eq!(key(help, Key::Other), (help, Action::Stay));
}
