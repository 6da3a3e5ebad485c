use dot_viewer::viewer::error::DotViewerError;
use dot_viewer::viewer::keybindings::{InputMode, Key, MainMode, Mode, NavMode};
use dot_viewer::viewer::modes::{PopupMode, SearchMode};
use dot_viewer::viewer::state::{complete_input, App, Effect, TreeMove};
use dot_viewer::viewer::command::CommandTrie;
use dot_viewer::viewer::success::Success;
use dot_viewer::viewer::view::{Focus, GraphModel, View};

fn s(v: &[&str]) -> Vec<String> {
    v.iter().map(|x| x.to_string()).collect()
}

/// alpha -> beta, alpha -> gamma, beta -> gamma
fn model() -> GraphModel {
    GraphModel {
        ids: s(&["alpha", "beta", "gamma"]),
        froms: vec![s(&[]), s(&["alpha"]), s(&["alpha", "beta"])],
        tos: vec![s(&["beta", "gamma"]), s(&["gamma"]), s(&[])],
        dots: s(&["alpha", "beta [color=red]", "gamma"]),
    }
}

fn app() -> App {
    App::new(View::new(String::from("g"), model()))
}

fn silent(e: &Effect) -> bool {
    matches!(e, Effect::Done(Ok(Success::Silent)))
}

fn typed(app: &mut App, text: &str) {
    for c in text.chars() {
        let e = app.key(Key::Char(c));
        assert!(silent(&e));
    }
}

#[test]
fn new_app_navigates() {
    let app = app();
    assert!(!app.quit);
    assert_eq!(app.mode, Mode::Main(MainMode::Navigate(NavMode::Current)));
    assert_eq!(app.tabs.tabs.len(), 1);
    assert_eq!(app.input.key, "");
    assert_eq!(app.help.state, Some(0));
    assert!(!app.help.rows.is_empty());
}

#[test]
fn mode_switch_keys() {
    let mut app = app();
    assert!(silent(&app.key(Key::Char('/'))));
    assert_eq!(app.mode, Mode::Main(MainMode::Input(InputMode::Search(SearchMode::Fuzzy))));
    assert!(silent(&app.key(Key::Esc)));
    assert_eq!(app.mode, Mode::Main(MainMode::Navigate(NavMode::Current)));
    app.key(Key::Char('r'));
    assert_eq!(app.mode, Mode::Main(MainMode::Input(InputMode::Search(SearchMode::Regex))));
    app.key(Key::Esc);
    app.key(Key::Char(':'));
    assert_eq!(app.mode, Mode::Main(MainMode::Input(InputMode::Command)));
    app.key(Key::Esc);
    app.key(Key::Char('?'));
    assert_eq!(app.mode, Mode::Popup(PopupMode::Help));
    app.key(Key::Esc);
    assert_eq!(app.mode, Mode::Main(MainMode::Navigate(NavMode::Current)));
}

#[test]
fn search_then_apply() {
    let mut app = app();
    app.key(Key::Char('/'));
    typed(&mut app, "gam");
    assert_eq!(app.input.key, "gam");
    assert_eq!(app.input.cursor, 3);
    let view = &app.tabs.tabs[0];
    assert_eq!(view.matches.items.len(), 1);
    assert_eq!(view.matches.items[0].0, 2);
    assert!(silent(&app.key(Key::Enter)));
    assert_eq!(app.mode, Mode::Main(MainMode::Navigate(NavMode::Current)));
    assert_eq!(app.tabs.tabs[0].current_id(), "gamma");
    assert_eq!(app.tabs.tabs[0].prevs.items, s(&["alpha", "beta"]));
    assert_eq!(app.input.key, "");
    assert_eq!(app.input.history, s(&["", "gam"]));
}

#[test]
fn search_autocomplete_with_tab() {
    let mut app = app();
    app.key(Key::Char('/'));
    typed(&mut app, "al");
    assert!(silent(&app.key(Key::Tab)));
    assert_eq!(app.input.key, "alpha");
    assert_eq!(app.input.cursor, 5);
    assert_eq!(app.tabs.tabs[0].key, "alpha");
}

#[test]
fn command_autocomplete_with_tab() {
    let mut app = app();
    app.key(Key::Char(':'));
    typed(&mut app, "fil");
    app.key(Key::Tab);
    assert_eq!(app.input.key, "filter");
    // a complete command is left as it is
    app.key(Key::Tab);
    assert_eq!(app.input.key, "filter");
}

#[test]
fn complete_input_cases() {
    let view = View::new(String::from("g"), model());
    let trie = CommandTrie::new();
    assert_eq!(complete_input(InputMode::Command, "ne", &view, &trie), Some(String::from("neighbors")));
    assert_eq!(complete_input(InputMode::Command, "help", &view, &trie), None);
    assert_eq!(complete_input(InputMode::Command, "zz", &view, &trie), None);
    assert_eq!(complete_input(InputMode::Search(SearchMode::Fuzzy), "be", &view, &trie), Some(String::from("beta")));
}

#[test]
fn help_and_subgraph_commands_open_popups() {
    let mut app = app();
    app.key(Key::Char(':'));
    typed(&mut app, "help");
    assert!(silent(&app.key(Key::Enter)));
    assert_eq!(app.mode, Mode::Popup(PopupMode::Help));
    assert_eq!(app.tabs.tabs.len(), 1);
    app.key(Key::Esc);
    app.key(Key::Char(':'));
    typed(&mut app, "subgraph");
    assert!(silent(&app.key(Key::Enter)));
    assert_eq!(app.mode, Mode::Popup(PopupMode::Tree));
}

#[test]
fn commands_hand_back_requests() {
    let mut app = app();
    app.key(Key::Char(':'));
    typed(&mut app, "neighbors 2");
    assert!(matches!(app.key(Key::Enter), Effect::Neighbors(2)));
    // the viewer stays as it was until the new tab is open
    assert_eq!(app.mode, Mode::Main(MainMode::Input(InputMode::Command)));
    app.open_tab(View::new(String::from("g - neighbors-alpha-2"), model()));
    assert_eq!(app.mode, Mode::Main(MainMode::Navigate(NavMode::Current)));
    assert_eq!(app.tabs.state, 1);
    app.key(Key::Char(':'));
    typed(&mut app, "export out.dot");
    match app.key(Key::Enter) {
        Effect::Export(f) => assert_eq!(f, "out.dot"),
        _ => panic!("export"),
    }
    assert_eq!(app.mode, Mode::Main(MainMode::Input(InputMode::Command)));
    app.key(Key::Esc);
    app.key(Key::Char(':'));
    typed(&mut app, "neighbors");
    match app.key(Key::Enter) {
        Effect::Done(Err(DotViewerError::CommandError(m))) => assert_eq!(m, "No argument supplied for neighbors"),
        _ => panic!("no depth"),
    }
    assert_eq!(app.mode, Mode::Main(MainMode::Input(InputMode::Command)));
    assert_eq!(app.input.key, "neighbors");
    app.key(Key::Esc);
    app.key(Key::Char(':'));
    typed(&mut app, "nope");
    match app.key(Key::Enter) {
        Effect::Done(Err(DotViewerError::CommandError(m))) => assert_eq!(m, "No such command nope"),
        _ => panic!("unknown command"),
    }
    assert_eq!(app.mode, Mode::Main(MainMode::Navigate(NavMode::Current)));
    match app.key(Key::Char('x')) {
        Effect::Xdot(p) => assert_eq!(p, "./exports/current.dot"),
        _ => panic!("xdot"),
    }
    match app.key(Key::Char('e')) {
        Effect::Export(f) => assert_eq!(f, "g-neighbors-alpha-2.dot"),
        _ => panic!("export"),
    }
    assert!(matches!(app.key(Key::Char('3')), Effect::Neighbors(3)));
}

#[test]
fn tabs_open_move_and_close() {
    let mut app = app();
    app.open_tab(View::new(String::from("second"), model()));
    assert_eq!(app.tabs.tabs.len(), 2);
    assert_eq!(app.tabs.state, 1);
    app.key(Key::Tab);
    assert_eq!(app.tabs.state, 0);
    app.key(Key::BackTab);
    assert_eq!(app.tabs.state, 1);
    assert!(silent(&app.key(Key::Char('c'))));
    assert_eq!(app.tabs.tabs.len(), 1);
    assert_eq!(app.tabs.state, 0);
    match app.key(Key::Char('c')) {
        Effect::Done(Err(DotViewerError::ViewerError(m))) => assert_eq!(m, "cannot close the first tab"),
        _ => panic!("first tab"),
    }
}

#[test]
fn help_popup_moves_rows() {
    let mut app = app();
    app.key(Key::Char('?'));
    let n = app.help.rows.len();
    app.key(Key::Char('j'));
    assert_eq!(app.help.state, Some(1));
    app.key(Key::Char('k'));
    app.key(Key::Char('k'));
    assert_eq!(app.help.state, Some(n - 1));
    assert!(matches!(app.key(Key::Char('z')), Effect::Unbound(Key::Char('z'))));
    assert!(silent(&app.key(Key::Char('q'))));
    assert!(app.quit);
}

#[test]
fn navigation_keys_move_lists() {
    let mut app = app();
    app.key(Key::Char('j'));
    assert_eq!(app.tabs.tabs[0].current_id(), "beta");
    assert_eq!(app.tabs.tabs[0].nexts.items, s(&["gamma"]));
    app.key(Key::Char('l'));
    assert_eq!(app.mode, Mode::Main(MainMode::Navigate(NavMode::Prevs)));
    assert_eq!(app.tabs.tabs[0].focus, Focus::Prev);
    assert!(silent(&app.key(Key::Enter)));
    assert_eq!(app.tabs.tabs[0].current_id(), "alpha");
    app.key(Key::Char('h'));
    assert_eq!(app.tabs.tabs[0].focus, Focus::Current);
    match app.key(Key::Char('n')) {
        Effect::Done(Err(DotViewerError::ViewerError(m))) => assert_eq!(m, "no node selected"),
        _ => panic!("no match"),
    }
}

#[test]
fn tree_popup_hands_back_moves() {
    let mut app = app();
    app.key(Key::Char('s'));
    assert_eq!(app.mode, Mode::Popup(PopupMode::Tree));
    assert!(matches!(app.key(Key::Char('j')), Effect::Tree(TreeMove::Down)));
    assert!(matches!(app.key(Key::Char('h')), Effect::Tree(TreeMove::Left)));
    assert!(matches!(app.key(Key::Enter), Effect::Subgraph));
    assert_eq!(app.mode, Mode::Popup(PopupMode::Tree));
}

#[test]
fn typing_and_deleting_in_the_line() {
    let mut app = app();
    app.key(Key::Char(':'));
    typed(&mut app, "hé");
    assert_eq!(app.input.cursor, 2);
    app.key(Key::Backspace);
    assert_eq!(app.input.key, "h");
    assert_eq!(app.input.cursor, 1);
}

#[test]
fn backspace_undoes_typing() {
    let mut app = app();
    app.key(Key::Char('/'));
    typed(&mut app, "ab");
    app.key(Key::Char('é'));
    assert_eq!(app.input.key, "abé");
    app.key(Key::Backspace);
    assert_eq!(app.input.key, "ab");
    assert_eq!(app.input.cursor, 2);
    assert_eq!(app.mode, Mode::Main(MainMode::Input(InputMode::Search(SearchMode::Fuzzy))));
}
