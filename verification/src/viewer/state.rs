//! The viewer's state: the tabs of views, the input line, the mode, the help table and the
//! completion of command names; and what each action of the key bindings does to it. Work
//! that needs the graphs themselves (opening neighbors, filters and subgraphs, exporting,
//! launching xdot, moving in the subgraph tree) is handed back as a request.
use vstd::prelude::*;
use vstd::string::*;
use vstd::view::View as _;
use crate::app::utils::trie::{cut_ok, completions, lists_sorted, prefix_of, opt_text};
use crate::chars::{byte_len, char_boundary};
use crate::viewer::app::{exec_step, export_name, export_target, is_valid_filename, xdot_path, Step};
use crate::viewer::command::{Command, CommandTrie, CommandView, parsed_command, command_names};
use crate::viewer::error::DotViewerError;
use crate::viewer::help::{Help, help_header, help_rows, table_texts};
use crate::viewer::keybindings::{self, Action, InputMode, Key, MainMode, Mode, NavMode, Target, step};
use crate::viewer::modes::{PopupMode, SearchMode};
use crate::viewer::success::Success;
use crate::viewer::utils::input::{Input, texts, typed, erased, lemma_delete_undoes_insert};
use crate::viewer::utils::list::{List, next_selection, previous_selection};
use crate::viewer::utils::table::Table;
use crate::viewer::utils::tabs::{Tabs, next_index, previous_index};
use crate::viewer::view::{Focus, View, fresh, matches_view, fuzzy_matches, regex_matches, matched_ids};

verus! {

/// A move in the subgraph tree.
#[derive(Debug, Clone, Copy, PartialEq, Eq, Structural, Hash)]
pub enum TreeMove {
    Up,
    Down,
    Left,
    Right,
}

/// What is left to do after an action: nothing but to report its result, or work on the
/// graphs of the selected tab.
#[derive(Debug)]
pub enum Effect {
    /// The action is done, with this result.
    Done(Result<Success, DotViewerError>),
    /// Open the neighbors of the selected node within this depth in a new tab.
    Neighbors(usize),
    /// Open the matching nodes in a new tab.
    Filter,
    /// Open the subgraph selected in the tree in a new tab.
    Subgraph,
    /// Export the current graph to this file of the exports directory.
    Export(String),
    /// Launch xdot on this path.
    Xdot(String),
    /// Move in the subgraph tree.
    Tree(TreeMove),
    /// The key means nothing here.
    Unbound(Key),
}

/// The state of the viewer.
pub struct App {
    /// Whether to quit.
    pub quit: bool,
    /// The mode the keys are read in.
    pub mode: Mode,
    /// The tabs, one view each.
    pub tabs: Tabs<View>,
    /// The line typed in the input modes.
    pub input: Input,
    /// Completion of command names.
    pub trie: CommandTrie,
    /// The key bindings, with a selected row.
    pub help: Table,
}

/// The view of the selected tab.
pub open spec fn view_of(a: App) -> View {
    a.tabs.tabs@[a.tabs.state as int]
}

/// `b` is `a` with the view of the selected tab changed alone.
pub open spec fn same_but_view(a: App, b: App) -> bool {
    &&& b.quit == a.quit
    &&& b.mode == a.mode
    &&& b.input == a.input
    &&& b.help == a.help
    &&& b.trie == a.trie
    &&& b.tabs.state == a.tabs.state
    &&& b.tabs.tabs@ == a.tabs.tabs@.update(a.tabs.state as int, view_of(b))
}

/// `b` is `a` with its mode changed alone.
pub open spec fn same_but_mode(a: App, b: App, mode: Mode) -> bool {
    &&& b.quit == a.quit
    &&& b.mode == mode
    &&& b.input == a.input
    &&& b.help == a.help
    &&& b.trie == a.trie
    &&& b.tabs == a.tabs
}

/// The input line after it was kept in the history and emptied.
pub open spec fn cleared(a: Input, b: Input) -> bool {
    &&& b.key@ == Seq::<char>::empty()
    &&& b.cursor == 0
    &&& b.past() == a.past().push(a.key@)
    &&& b.wf()
}

/// A view back to navigation: the focus on the node list, the neighbors of the selected node
/// listed anew, the rest kept.
pub open spec fn nav_view(a: View, b: View) -> bool {
    &&& b.wf()
    &&& b.focus == Focus::Current
    &&& b.adjacent_ok()
    &&& b.title == a.title
    &&& b.graph == a.graph
    &&& b.current == a.current
    &&& b.key == a.key
    &&& b.matches == a.matches
    &&& b.trie == a.trie
}

/// Back to navigating the node list: the input line kept in the history and emptied, and
/// the selected view back to navigation.
pub open spec fn nav_reset(a: App, b: App) -> bool {
    &&& b.quit == a.quit
    &&& b.mode == Mode::Main(MainMode::Navigate(NavMode::Current))
    &&& cleared(a.input, b.input)
    &&& b.help == a.help
    &&& b.trie == a.trie
    &&& b.tabs.state == a.tabs.state
    &&& b.tabs.tabs@ == a.tabs.tabs@.update(a.tabs.state as int, view_of(b))
    &&& nav_view(view_of(a), view_of(b))
}

/// A view ready for typing: no matches, no neighbors listed, the rest kept.
pub open spec fn input_view(a: View, b: View) -> bool {
    &&& b.wf()
    &&& b.matches.items@.len() == 0 && b.matches.state is None
    &&& b.prevs.items@.len() == 0 && b.prevs.state is None
    &&& b.nexts.items@.len() == 0 && b.nexts.state is None
    &&& b.title == a.title
    &&& b.graph == a.graph
    &&& b.focus == a.focus
    &&& b.current == a.current
    &&& b.key == a.key
    &&& b.trie == a.trie
}

/// A view after the search of `imode` for `key`: fuzzy or regular-expression matches found
/// anew (a command searches nothing), and completion over the matching nodes.
pub open spec fn searched_view(a: View, b: View, imode: InputMode, key: Seq<char>) -> bool {
    &&& b.wf()
    &&& match imode {
        InputMode::Search(SearchMode::Fuzzy) => b.key@ == key && fresh(b.matches)
            && matches_view(b.matches.items@) == fuzzy_matches(texts(a.current.items@), key, a.current.items@.len()),
        InputMode::Search(SearchMode::Regex) => b.key@ == key && fresh(b.matches)
            && matches_view(b.matches.items@) == regex_matches(texts(a.current.items@), texts(a.graph.dots@), key, a.current.items@.len()),
        InputMode::Command => b.key == a.key && b.matches == a.matches,
    }
    &&& texts(b.trie.items@) == matched_ids(texts(b.current.items@), b.matches.items@)
    &&& b.title == a.title
    &&& b.graph == a.graph
    &&& b.focus == a.focus
    &&& b.current == a.current
    &&& b.prevs == a.prevs
    &&& b.nexts == a.nexts
}

/// The focus that goes with a navigation mode.
pub open spec fn focus_of(nav: NavMode) -> Focus {
    match nav {
        NavMode::Current => Focus::Current,
        NavMode::Prevs => Focus::Prev,
        NavMode::Nexts => Focus::Next,
    }
}

/// The view with its focus set to `f`, the rest kept.
pub open spec fn refocused(a: View, b: View, f: Focus) -> bool {
    &&& b.focus == f
    &&& b.title == a.title
    &&& b.graph == a.graph
    &&& b.current == a.current
    &&& b.prevs == a.prevs
    &&& b.nexts == a.nexts
    &&& b.key == a.key
    &&& b.matches == a.matches
    &&& b.trie == a.trie
}

/// The selection of a list moved one item down (`down`) or up.
pub open spec fn moved<T>(a: List<T>, b: List<T>, down: bool) -> bool {
    &&& b.items@ == a.items@
    &&& b.state == (if down {
        next_selection(a.state, a.items@.len() as int)
    } else {
        previous_selection(a.state, a.items@.len() as int)
    })
}

/// A view whose list `target` moved one item down or up; moving in the node list lists the
/// neighbors of the newly selected node.
pub open spec fn moved_view(a: View, b: View, target: Target, down: bool) -> bool {
    &&& b.wf()
    &&& b.title == a.title
    &&& b.graph == a.graph
    &&& b.focus == a.focus
    &&& b.key == a.key
    &&& b.matches == a.matches
    &&& b.trie == a.trie
    &&& match target {
        Target::Current => moved(a.current, b.current, down) && b.adjacent_ok(),
        Target::Prevs => b.current == a.current && moved(a.prevs, b.prevs, down) && b.nexts == a.nexts,
        Target::Nexts => b.current == a.current && b.prevs == a.prevs && moved(a.nexts, b.nexts, down),
        _ => b == a,
    }
}

/// The view after going to the next (`forward`) or previous match: the match selection
/// moves, and the node of the newly selected match is selected; with no match, an error and
/// no change.
pub open spec fn match_view(a: View, b: View, forward: bool, res: Result<(), DotViewerError>) -> bool {
    &&& b.wf()
    &&& moved(a.matches, b.matches, forward)
    &&& b.title == a.title
    &&& b.graph == a.graph
    &&& b.focus == a.focus
    &&& b.key == a.key
    &&& b.trie == a.trie
    &&& b.current.items@ == a.current.items@
    &&& if a.matches.items@.len() == 0 {
        b.current == a.current && b.prevs == a.prevs && b.nexts == a.nexts
            && (res matches Err(DotViewerError::ViewerError(m)) && m@ == "no node selected"@)
    } else {
        res is Ok && b.adjacent_ok()
            && texts(b.current.items@)[b.selected_index()] == texts(a.current.items@)[a.matches.items@[b.matches.state.unwrap() as int].0 as int]
    }
}


/// Every view of the tabs is well formed.
pub open spec fn views_wf(tabs: Seq<View>) -> bool {
    forall|i: int| 0 <= i < tabs.len() ==> (#[trigger] tabs[i]).wf()
}

/// The outcome of an action that was carried out, read as a result without a value.
pub open spec fn outcome(res: Effect) -> Result<(), DotViewerError> {
    match res {
        Effect::Done(Err(e)) => Err(e),
        _ => Ok(()),
    }
}

/// The action was carried out, and reports nothing when it worked.
pub open spec fn done(res: Effect) -> bool {
    res matches Effect::Done(r) && (r matches Ok(s) ==> s is Silent)
}

/// The action was carried out and worked, reporting nothing.
pub open spec fn done_ok(res: Effect) -> bool {
    res matches Effect::Done(Ok(s)) && s is Silent
}

/// The parts of `b` other than its input line and its selected view are those of `a`.
pub open spec fn same_but_input_view(a: App, b: App) -> bool {
    &&& b.quit == a.quit
    &&& b.mode == a.mode
    &&& b.help == a.help
    &&& b.trie == a.trie
    &&& b.tabs.state == a.tabs.state
    &&& b.tabs.tabs@ == a.tabs.tabs@.update(a.tabs.state as int, view_of(b))
}

/// The parts of `b` other than its input line are those of `a`.
pub open spec fn same_but_input(a: App, b: App) -> bool {
    &&& b.quit == a.quit
    &&& b.mode == a.mode
    &&& b.help == a.help
    &&& b.trie == a.trie
    &&& b.tabs == a.tabs
}

/// Back to navigating, with the input line kept in the history and emptied; the selected
/// view is left to the caller.
pub open spec fn nav_state(a: App, b: App) -> bool {
    &&& b.quit == a.quit
    &&& b.mode == Mode::Main(MainMode::Navigate(NavMode::Current))
    &&& cleared(a.input, b.input)
    &&& b.help == a.help
    &&& b.trie == a.trie
    &&& b.tabs.state == a.tabs.state
    &&& b.tabs.tabs@ == a.tabs.tabs@.update(a.tabs.state as int, view_of(b))
}

/// The view after applying a search: the node of the selected match is selected (an error
/// when no match is selected), and the view is back to navigation.
pub open spec fn applied_view(a: View, b: View, res: Result<(), DotViewerError>) -> bool {
    &&& b.wf()
    &&& b.focus == Focus::Current
    &&& b.adjacent_ok()
    &&& b.title == a.title
    &&& b.graph == a.graph
    &&& b.key == a.key
    &&& b.matches == a.matches
    &&& b.trie == a.trie
    &&& b.current.items@ == a.current.items@
    &&& match a.matches.state {
        Some(k) => res is Ok && texts(b.current.items@)[b.selected_index()]
            == texts(a.current.items@)[a.matches.items@[k as int].0 as int],
        None => b.current == a.current && (res matches Err(DotViewerError::ViewerError(m)) && m@ == "no node selected"@),
    }
}

/// The view after going to the node selected in the focused list of neighbors.
pub open spec fn adjacent_view(a: View, b: View, res: Result<(), DotViewerError>) -> bool {
    &&& b.wf()
    &&& a.focus == Focus::Current ==> b == a
    &&& (a.focus == Focus::Current || (a.focus == Focus::Prev && a.prevs.state is None)
        || (a.focus == Focus::Next && a.nexts.state is None)) ==> (res matches Err(DotViewerError::ViewerError(m))
        && m@ == "no node selected"@)
    &&& a.focus == Focus::Prev && a.prevs.state is Some ==> (res is Ok <==> texts(a.current.items@).contains(a.prevs.items@[a.prevs.state.unwrap() as int]@))
    &&& a.focus == Focus::Next && a.nexts.state is Some ==> (res is Ok <==> texts(a.current.items@).contains(a.nexts.items@[a.nexts.state.unwrap() as int]@))
    &&& res is Ok ==> b.adjacent_ok()
}

/// What a typed command asks for, in a view titled `title`, `key` being the command line.
pub open spec fn exec_request(c: CommandView, title: Seq<char>, key: Seq<char>, res: Effect) -> bool {
    match c {
        CommandView::Neighbors(Some(d)) => res == Effect::Neighbors(d),
        CommandView::Neighbors(None) => res matches Effect::Done(Err(DotViewerError::CommandError(m)))
            && m@ == "No argument supplied for neighbors"@,
        CommandView::Export(f) => if is_valid_filename(export_name(f, title)) {
            res matches Effect::Export(n) && n@ == export_name(f, title)
        } else {
            res matches Effect::Done(Err(DotViewerError::CommandError(m)))
                && m@ == "invalid dot filename: "@ + export_name(f, title)
        },
        CommandView::Xdot(f) => res matches Effect::Xdot(p) && p@ == "./exports/"@ + match f {
            Some(t) => t,
            None => "current.dot"@,
        },
        CommandView::Filter => res is Filter,
        CommandView::NoMatch => res matches Effect::Done(Err(DotViewerError::CommandError(m)))
            && m@ == "No such command "@ + key,
        _ => false,
    }
}

/// Running the typed command: `help` and `subgraph` open their popup; a line that is no
/// command fails and goes back to navigating; any other command asks for its work, or
/// fails, and leaves the viewer as it is (the tab that neighbors and filter open goes back
/// to navigating, see `open_tab`).
pub open spec fn exec_done(a: App, b: App, res: Effect) -> bool {
    let c = parsed_command(a.input.key@);
    match c {
        CommandView::Help => done_ok(res) && same_but_mode(a, b, Mode::Popup(PopupMode::Help)),
        CommandView::Subgraph => done_ok(res) && same_but_mode(a, b, Mode::Popup(PopupMode::Tree)),
        CommandView::NoMatch => exec_request(c, view_of(a).title@, a.input.key@, res)
            && nav_state(a, b) && nav_view(view_of(a), view_of(b)),
        _ => exec_request(c, view_of(a).title@, a.input.key@, res) && b == a,
    }
}

/// Completing the input line: where there is a completion, it replaces the line (with the
/// cursor after it) and, in a search, the search is run again for it.
pub open spec fn completed_done(a: App, b: App, imode: InputMode, res: Effect) -> bool {
    &&& done_ok(res)
    &&& exists|c: Option<Seq<char>>| #[trigger] completion(imode, a.input.key@, view_of(a), a.trie, c) && match c {
        None => b == a,
        Some(k) => b.input.key@ == k && b.input.cursor == byte_len(k) && b.input.past() == a.input.past()
            && same_but_input_view(a, b) && match imode {
                InputMode::Command => view_of(b) == view_of(a),
                InputMode::Search(_) => searched_view(view_of(a), view_of(b), imode, k),
            },
    }
}

/// A move up (`down` false) or down of `target`.
pub open spec fn moved_done(a: App, b: App, target: Target, down: bool, res: Effect) -> bool {
    match target {
        Target::Tree => b == a && res == Effect::Tree(if down { TreeMove::Down } else { TreeMove::Up }),
        Target::Help => done_ok(res) && b.quit == a.quit && b.mode == a.mode && b.input == a.input
            && b.trie == a.trie && b.tabs == a.tabs && b.help.rows@ == a.help.rows@ && b.help.header@ == a.help.header@
            && b.help.state == (if down {
                next_selection(a.help.state, a.help.rows@.len() as int)
            } else {
                previous_selection(a.help.state, a.help.rows@.len() as int)
            }),
        _ => done_ok(res) && same_but_view(a, b) && moved_view(view_of(a), view_of(b), target, down),
    }
}

/// What `action` does to the viewer `a`, giving `b` and the outcome `res`.
pub open spec fn performed(a: App, action: Action, b: App, res: Effect) -> bool {
    match action {
        Action::Stay => done_ok(res) && same_but_view(a, b) && match a.mode {
            Mode::Main(MainMode::Navigate(nav)) => refocused(view_of(a), view_of(b), focus_of(nav)),
            _ => view_of(b) == view_of(a),
        },
        Action::Quit => done_ok(res) && b.quit && b.mode == a.mode && b.input == a.input && b.help == a.help
            && b.trie == a.trie && b.tabs == a.tabs,
        Action::ToInput(imode) => done_ok(res) && b.quit == a.quit && b.mode == Mode::Main(MainMode::Input(imode))
            && cleared(a.input, b.input) && b.help == a.help && b.trie == a.trie && b.tabs.state == a.tabs.state
            && b.tabs.tabs@ == a.tabs.tabs@.update(a.tabs.state as int, view_of(b)) && input_view(view_of(a), view_of(b)),
        Action::ToPopup(p) => done_ok(res) && same_but_mode(a, b, Mode::Popup(p)),
        Action::ToNav => done_ok(res) && nav_state(a, b) && nav_view(view_of(a), view_of(b)),
        Action::ApplySearch => done(res) && nav_state(a, b) && applied_view(view_of(a), view_of(b), outcome(res)),
        Action::Exec => exec_done(a, b, res),
        Action::CloseTab => done(res) && b.quit == a.quit && b.mode == a.mode && b.input == a.input
            && b.help == a.help && b.trie == a.trie && if a.tabs.state == 0 {
                b.tabs == a.tabs && (res matches Effect::Done(Err(DotViewerError::ViewerError(m))) && m@ == "cannot close the first tab"@)
            } else {
                res is Done && outcome(res) is Ok && b.tabs.tabs@ == a.tabs.tabs@.remove(a.tabs.state as int)
                    && b.tabs.state == (if a.tabs.state == a.tabs.tabs@.len() - 1 { a.tabs.state - 1 } else { a.tabs.state as int })
            },
        Action::Export => b == a && if is_valid_filename(export_name(None, view_of(a).title@)) {
            res matches Effect::Export(f) && f@ == export_name(None, view_of(a).title@)
        } else {
            res matches Effect::Done(Err(DotViewerError::CommandError(m)))
                && m@ == "invalid dot filename: "@ + export_name(None, view_of(a).title@)
        },
        Action::Xdot => b == a && (res matches Effect::Xdot(p) && p@ == "./exports/current.dot"@),
        Action::GotoMatch(forward) => done(res) && same_but_view(a, b) && match_view(view_of(a), view_of(b), forward, outcome(res)),
        Action::Neighbors(d) => b == a && res == Effect::Neighbors(d),
        Action::Insert(c, imode) => done_ok(res) && same_but_input_view(a, b)
            && b.input.key@ == typed(a.input.key@, a.input.cursor as int, c) && b.input.cursor == a.input.cursor + 1
            && b.input.past() == a.input.past() && searched_view(view_of(a), view_of(b), imode, b.input.key@),
        Action::Delete(imode) => done_ok(res) && same_but_input_view(a, b)
            && b.input.key@ == erased(a.input.key@, a.input.cursor as int)
            && b.input.cursor == (if a.input.cursor > 0 { a.input.cursor - 1 } else { 0 })
            && b.input.past() == a.input.past() && searched_view(view_of(a), view_of(b), imode, b.input.key@),
        Action::GotoAdjacent => done(res) && same_but_view(a, b) && adjacent_view(view_of(a), view_of(b), outcome(res)),
        Action::Subgraph => b == a && res is Subgraph,
        Action::NextTab => done_ok(res) && b.quit == a.quit && b.mode == a.mode && b.input == a.input && b.help == a.help
            && b.trie == a.trie && b.tabs.tabs@ == a.tabs.tabs@ && b.tabs.state == next_index(a.tabs.state as int, a.tabs.tabs@.len() as int),
        Action::PreviousTab => done_ok(res) && b.quit == a.quit && b.mode == a.mode && b.input == a.input && b.help == a.help
            && b.trie == a.trie && b.tabs.tabs@ == a.tabs.tabs@ && b.tabs.state == previous_index(a.tabs.state as int, a.tabs.tabs@.len() as int),
        Action::Autocomplete(imode) => completed_done(a, b, imode, res),
        Action::Up(target) => moved_done(a, b, target, false, res),
        Action::Down(target) => moved_done(a, b, target, true, res),
        Action::CursorFront => done_ok(res) && same_but_input(a, b) && b.input.key@ == a.input.key@ && b.input.past() == a.input.past()
            && b.input.cursor == (if a.input.cursor < byte_len(a.input.key@) { a.input.cursor + 1 } else { a.input.cursor as int }),
        Action::CursorBack => done_ok(res) && same_but_input(a, b) && b.input.key@ == a.input.key@ && b.input.past() == a.input.past()
            && b.input.cursor == (if a.input.cursor > 0 { a.input.cursor - 1 } else { 0 }),
        Action::TreeLeft => b == a && res == Effect::Tree(TreeMove::Left),
        Action::TreeRight => b == a && res == Effect::Tree(TreeMove::Right),
        Action::KeyError(k) => b == a && res == Effect::Unbound(k),
    }
}

/// What `perform` needs of the viewer to carry out `action`: typing and deleting happen at
/// character boundaries of the line, and a completion can be cut between two characters.
pub open spec fn can_perform(a: App, action: Action) -> bool {
    match action {
        Action::Insert(_, _) => char_boundary(a.input.key@, a.input.cursor as int) && byte_len(a.input.key@) < usize::MAX,
        Action::Delete(_) => a.input.cursor > 0 ==> char_boundary(a.input.key@, a.input.cursor - 1),
        Action::Autocomplete(imode) => completion_ok(imode, a.input.key@, view_of(a), a.trie),
        _ => true,
    }
}


/// `a` with its mode set to `mode`.
pub open spec fn with_mode(a: App, mode: Mode) -> App {
    App { mode, ..a }
}

/// What the key `pressed` does to the viewer `a`: the key bindings give the mode and the
/// action, and the action is carried out in that mode.
pub open spec fn handled(a: App, pressed: Key, b: App, res: Effect) -> bool {
    performed(with_mode(a, step(a.mode, pressed).0), step(a.mode, pressed).1, b, res)
}

/// While navigating, `/`, `r` and `:` open the fuzzy search, the regular-expression search
/// and the command line, with an empty input line, in the same tab.
pub proof fn lemma_input_keys(a: App, c: char, b: App, res: Effect)
    requires
        a.tabs.wf(),
        a.mode matches Mode::Main(MainMode::Navigate(_)),
        c == '/' || c == 'r' || c == ':',
        handled(a, Key::Char(c), b, res),
    ensures
        b.mode == Mode::Main(MainMode::Input(if c == '/' {
            InputMode::Search(SearchMode::Fuzzy)
        } else if c == 'r' {
            InputMode::Search(SearchMode::Regex)
        } else {
            InputMode::Command
        })),
        b.input.key@ == Seq::<char>::empty(),
        b.input.cursor == 0,
        b.tabs.state == a.tabs.state,
        b.tabs.tabs@.len() == a.tabs.tabs@.len(),
{
}

/// While navigating, `n` goes to the next match and `N` to the previous one: the match
/// selection moves one down for `n` and one up for `N`, wrapping around, and the node of the
/// newly selected match is selected.
pub proof fn lemma_match_keys(a: App, forward: bool, b: App, res: Effect)
    requires
        a.tabs.wf(),
        a.mode matches Mode::Main(MainMode::Navigate(_)),
        handled(a, Key::Char(if forward { 'n' } else { 'N' }), b, res),
    ensures
        view_of(b).matches.items@ == view_of(a).matches.items@,
        view_of(b).matches.state == (if forward {
            next_selection(view_of(a).matches.state, view_of(a).matches.items@.len() as int)
        } else {
            previous_selection(view_of(a).matches.state, view_of(a).matches.items@.len() as int)
        }),
        view_of(a).matches.items@.len() > 0 ==> (res matches Effect::Done(Ok(_)))
            && texts(view_of(b).current.items@)[view_of(b).selected_index()]
                == texts(view_of(a).current.items@)[view_of(a).matches.items@[view_of(b).matches.state.unwrap() as int].0 as int],
        b.mode == a.mode,
        b.tabs.state == a.tabs.state,
{
}

/// Esc, in any mode, goes back to navigating the node list with an empty input line.
pub proof fn lemma_esc_navigates(a: App, b: App, res: Effect)
    requires
        a.tabs.wf(),
        handled(a, Key::Esc, b, res),
    ensures
        b.mode == Mode::Main(MainMode::Navigate(NavMode::Current)),
        b.input.key@ == Seq::<char>::empty(),
        view_of(b).focus == Focus::Current,
        b.tabs.state == a.tabs.state,
        res is Done,
{
}

/// While navigating, Tab and BackTab select the next and the previous tab, wrapping around,
/// and change nothing else.
pub proof fn lemma_tab_keys(a: App, forward: bool, b: App, res: Effect)
    requires
        a.mode matches Mode::Main(MainMode::Navigate(_)),
        handled(a, if forward { Key::Tab } else { Key::BackTab }, b, res),
    ensures
        b.tabs.tabs@ == a.tabs.tabs@,
        b.tabs.state == (if forward {
            next_index(a.tabs.state as int, a.tabs.tabs@.len() as int)
        } else {
            previous_index(a.tabs.state as int, a.tabs.tabs@.len() as int)
        }),
        b.mode == a.mode,
        b.input == a.input,
{
}

/// In the help popup, `j` and `k` move the selected row down and up, wrapping around.
pub proof fn lemma_help_keys(a: App, down: bool, b: App, res: Effect)
    requires
        a.mode == Mode::Popup(PopupMode::Help),
        handled(a, Key::Char(if down { 'j' } else { 'k' }), b, res),
    ensures
        b.help.rows@ == a.help.rows@,
        b.help.state == (if down {
            next_selection(a.help.state, a.help.rows@.len() as int)
        } else {
            previous_selection(a.help.state, a.help.rows@.len() as int)
        }),
        b.tabs == a.tabs,
        b.mode == a.mode,
{
}

/// Enter on the command lines `help` and `subgraph` opens the help popup and the subgraph
/// popup, and changes nothing else.
pub proof fn lemma_popup_commands(a: App, b: App, res: Effect)
    requires
        a.mode == Mode::Main(MainMode::Input(InputMode::Command)),
        parsed_command(a.input.key@) is Help || parsed_command(a.input.key@) is Subgraph,
        handled(a, Key::Enter, b, res),
    ensures
        b.mode == Mode::Popup(if parsed_command(a.input.key@) is Help { PopupMode::Help } else { PopupMode::Tree }),
        b.tabs == a.tabs,
        b.input == a.input,
        res matches Effect::Done(Ok(_)),
{
}

/// In an input mode, Backspace right after typing a character gives the input line and its
/// cursor back.
pub proof fn lemma_backspace_undoes_typing(a: App, c: char, b: App, rb: Effect, d: App, rd: Effect)
    requires
        a.mode matches Mode::Main(MainMode::Input(_)),
        a.input.wf(),
        char_boundary(a.input.key@, a.input.cursor as int),
        handled(a, Key::Char(c), b, rb),
        handled(b, Key::Backspace, d, rd),
    ensures
        d.input.key@ == a.input.key@,
        d.input.cursor == a.input.cursor,
        d.mode == a.mode,
{
    lemma_delete_undoes_insert(a.input.key@, a.input.cursor as int, c);
}

/// A selected view that changed alone, and is well formed, keeps all views well formed.
proof fn lemma_views_wf(a: App, b: App)
    requires
        views_wf(a.tabs.tabs@),
        a.tabs.wf(),
        b.tabs.state == a.tabs.state,
        b.tabs.tabs@ == a.tabs.tabs@.update(a.tabs.state as int, view_of(b)),
        view_of(b).wf(),
    ensures
        views_wf(b.tabs.tabs@),
        b.tabs.wf(),
{
    assert forall|i: int| 0 <= i < b.tabs.tabs@.len() implies (#[trigger] b.tabs.tabs@[i]).wf() by {
        if i != a.tabs.state as int {
            assert(b.tabs.tabs@[i] == a.tabs.tabs@[i]);
        }
    }
}

impl App {
    /// The tabs are well formed with at least one, the input line and the help table too,
    /// and the command names' completion tree matches them.
    pub open spec fn wf(&self) -> bool {
        &&& self.tabs.wf()
        &&& views_wf(self.tabs.tabs@)
        &&& self.input.wf()
        &&& self.help.wf()
        &&& self.help.rows@.len() > 0
        &&& self.trie.trie_cmd.wf()
    }

    /// A viewer on one view: navigating its node list, with an empty input line and the help
    /// table's first row selected.
    pub fn new(view: View) -> (res: App)
        requires
            view.wf(),
        ensures
            res.wf(),
            !res.quit,
            res.mode == Mode::Main(MainMode::Navigate(NavMode::Current)),
            res.tabs.tabs@ == seq![view],
            res.tabs.state == 0,
            res.input.key@ == Seq::<char>::empty(),
            res.input.cursor == 0,
            res.input.past() == Seq::<Seq<char>>::empty(),
            texts(res.trie.trie_cmd.items@) == command_names(),
            table_texts(res.help.rows@) == help_rows(),
            texts(res.help.header@) == help_header(),
            res.help.state == Some(0usize),
    {
        let help = Help::new();
        assert(table_texts(help.rows@).len() == help.rows@.len());
        assert(help_rows().len() > 0);
        let help = Table { state: Some(0), header: help.header, rows: help.rows };
        let tabs = Tabs::from_vec(vec![view]);
        assert(tabs.tabs@ =~= seq![view]);
        assert(views_wf(tabs.tabs@)) by {
            assert forall|i: int| 0 <= i < tabs.tabs@.len() implies (#[trigger] tabs.tabs@[i]).wf() by {
                assert(tabs.tabs@[i] == view);
            }
        }
        App {
            quit: false,
            mode: Mode::Main(MainMode::Navigate(NavMode::Current)),
            tabs,
            input: Input::new(),
            trie: CommandTrie::new(),
            help,
        }
    }

    /// Handles the key `pressed`: the key bindings give the mode and the action, and the
    /// action is carried out.
    pub fn key(&mut self, pressed: Key) -> (res: Effect)
        requires
            old(self).wf(),
            can_perform(with_mode(*old(self), step(old(self).mode, pressed).0), step(old(self).mode, pressed).1),
        ensures
            final(self).wf(),
            handled(*old(self), pressed, *final(self), res),
    {
        let (mode, action) = keybindings::key(self.mode, pressed);
        self.mode = mode;
        self.perform(action)
    }

    /// Opens `view` in a new tab, selects it, and goes back to navigating.
    pub fn open_tab(&mut self, view: View)
        requires
            old(self).wf(),
            view.wf(),
            old(self).tabs.tabs.len() < usize::MAX,
        ensures
            final(self).wf(),
            final(self).tabs.tabs@ == old(self).tabs.tabs@.push(view),
            final(self).tabs.state == old(self).tabs.tabs.len(),
            final(self).quit == old(self).quit,
            final(self).mode == Mode::Main(MainMode::Navigate(NavMode::Current)),
            final(self).input == old(self).input,
            final(self).help == old(self).help,
            final(self).trie == old(self).trie,
    {
        let ghost a = self.tabs.tabs@;
        self.tabs.open(view);
        self.mode = Mode::Main(MainMode::Navigate(NavMode::Current));
        assert forall|i: int| 0 <= i < self.tabs.tabs@.len() implies (#[trigger] self.tabs.tabs@[i]).wf() by {
            if i < a.len() {
                assert(self.tabs.tabs@[i] == a[i]);
            }
        }
    }

    /// Carries out `action`, as far as it needs no graph: what it leaves to do on the graphs
    /// comes back as a request.
    pub fn perform(&mut self, action: Action) -> (res: Effect)
        requires
            old(self).wf(),
            can_perform(*old(self), action),
        ensures
            final(self).wf(),
            performed(*old(self), action, *final(self), res),
    {
        match action {
            Action::Stay => self.sync_focus(),
            Action::Quit => {
                self.quit = true;
                Effect::Done(Ok(Success::Silent))
            },
            Action::ToInput(imode) => self.set_input_mode(imode),
            Action::ToPopup(p) => {
                self.mode = Mode::Popup(p);
                Effect::Done(Ok(Success::Silent))
            },
            Action::ToNav => {
                self.set_nav_mode();
                Effect::Done(Ok(Success::Silent))
            },
            Action::ApplySearch => self.apply_search(),
            Action::Exec => self.exec(),
            Action::CloseTab => self.close_tab(),
            Action::Export => self.export(),
            Action::Xdot => self.xdot(),
            Action::GotoMatch(forward) => self.goto_match(forward),
            Action::Neighbors(d) => Effect::Neighbors(d),
            Action::Insert(c, imode) => {
                self.input.insert(c);
                self.update_search(imode);
                Effect::Done(Ok(Success::Silent))
            },
            Action::Delete(imode) => {
                self.input.delete();
                self.update_search(imode);
                Effect::Done(Ok(Success::Silent))
            },
            Action::GotoAdjacent => self.goto_adjacent(),
            Action::Subgraph => Effect::Subgraph,
            Action::NextTab => {
                self.tabs.next();
                Effect::Done(Ok(Success::Silent))
            },
            Action::PreviousTab => {
                self.tabs.previous();
                Effect::Done(Ok(Success::Silent))
            },
            Action::Autocomplete(imode) => self.autocomplete(imode),
            Action::Up(target) => self.move_selection(target, false),
            Action::Down(target) => self.move_selection(target, true),
            Action::CursorFront => {
                self.input.front();
                Effect::Done(Ok(Success::Silent))
            },
            Action::CursorBack => {
                self.input.back();
                Effect::Done(Ok(Success::Silent))
            },
            Action::TreeLeft => Effect::Tree(TreeMove::Left),
            Action::TreeRight => Effect::Tree(TreeMove::Right),
            Action::KeyError(k) => Effect::Unbound(k),
        }
    }

    /// The focus of the selected view follows the navigation mode.
    fn sync_focus(&mut self) -> (res: Effect)
        requires
            old(self).wf(),
        ensures
            final(self).wf(),
            performed(*old(self), Action::Stay, *final(self), res),
    {
        let ghost a = *self;
        if let Mode::Main(MainMode::Navigate(nav)) = self.mode {
            proof { assert(a.tabs.tabs@[a.tabs.state as int].wf()); }
            let view = self.tabs.selected();
            view.focus = match nav {
                NavMode::Current => Focus::Current,
                NavMode::Prevs => Focus::Prev,
                NavMode::Nexts => Focus::Next,
            };
            proof { lemma_views_wf(a, *self); }
        } else {
            assert(self.tabs.tabs@ =~= self.tabs.tabs@.update(self.tabs.state as int, view_of(*self)));
        }
        Effect::Done(Ok(Success::Silent))
    }

    /// Back to navigating the node list: the input line kept in the history and emptied, the
    /// focus on the node list and the neighbors listed anew.
    fn set_nav_mode(&mut self)
        requires
            old(self).wf(),
        ensures
            final(self).wf(),
            nav_state(*old(self), *final(self)),
            nav_view(view_of(*old(self)), view_of(*final(self))),
    {
        let ghost a = *self;
        self.mode = Mode::Main(MainMode::Navigate(NavMode::Current));
        self.input.clear();
        proof { assert(a.tabs.tabs@[a.tabs.state as int].wf()); }
        let view = self.tabs.selected();
        view.focus = Focus::Current;
        view.update_adjacent();
        proof { lemma_views_wf(a, *self); }
    }

    /// Into an input mode: the input line kept in the history and emptied, and the selected
    /// view with no matches and no neighbors listed.
    fn set_input_mode(&mut self, imode: InputMode) -> (res: Effect)
        requires
            old(self).wf(),
        ensures
            final(self).wf(),
            performed(*old(self), Action::ToInput(imode), *final(self), res),
    {
        let ghost a = *self;
        self.input.clear();
        self.mode = Mode::Main(MainMode::Input(imode));
        proof { assert(a.tabs.tabs@[a.tabs.state as int].wf()); }
        let view = self.tabs.selected();
        view.matches = List::from_vec(Vec::new());
        view.prevs = List::from_vec(Vec::new());
        view.nexts = List::from_vec(Vec::new());
        proof { lemma_views_wf(a, *self); }
        Effect::Done(Ok(Success::Silent))
    }

    /// Runs the search of `imode` for the input line again, and the completion over its
    /// matches.
    fn update_search(&mut self, imode: InputMode)
        requires
            old(self).wf(),
        ensures
            final(self).wf(),
            final(self).input == old(self).input,
            same_but_view(*old(self), *final(self)),
            searched_view(view_of(*old(self)), view_of(*final(self)), imode, old(self).input.key@),
    {
        let ghost a = *self;
        proof { assert(a.tabs.tabs@[a.tabs.state as int].wf()); }
        let view = self.tabs.selected();
        match imode {
            InputMode::Search(SearchMode::Fuzzy) => view.update_fuzzy(self.input.key.as_str()),
            InputMode::Search(SearchMode::Regex) => view.update_regex(self.input.key.as_str()),
            InputMode::Command => {},
        }
        view.update_trie();
        proof { lemma_views_wf(a, *self); }
    }

    /// Goes to the node of the selected match and back to navigating.
    fn apply_search(&mut self) -> (res: Effect)
        requires
            old(self).wf(),
        ensures
            final(self).wf(),
            performed(*old(self), Action::ApplySearch, *final(self), res),
    {
        let ghost a = *self;
        proof { assert(a.tabs.tabs@[a.tabs.state as int].wf()); }
        let view = self.tabs.selected();
        let r = view.goto_match();
        proof { lemma_views_wf(a, *self); }
        self.set_nav_mode();
        assert(self.tabs.tabs@ =~= a.tabs.tabs@.update(a.tabs.state as int, view_of(*self)));
        match r {
            Ok(()) => Effect::Done(Ok(Success::Silent)),
            Err(e) => Effect::Done(Err(e)),
        }
    }

    /// Runs the typed command.
    fn exec(&mut self) -> (res: Effect)
        requires
            old(self).wf(),
        ensures
            final(self).wf(),
            performed(*old(self), Action::Exec, *final(self), res),
    {
        let ghost a = *self;
        let command = Command::parse(self.input.key.as_str());
        let no_match = matches!(command, Command::NoMatch);
        let ghost cv = command@;
        proof { assert(a.tabs.tabs@[a.tabs.state as int].wf()); }
        let step = exec_step(command, self.tabs.tabs[self.tabs.state].title.as_str(), self.input.key.as_str());
        match step {
            Step::Popup(p) => {
                self.mode = Mode::Popup(p);
                Effect::Done(Ok(Success::Silent))
            },
            Step::Neighbors(d) => Effect::Neighbors(d),
            Step::Export(f) => Effect::Export(f),
            Step::Xdot(p) => Effect::Xdot(p),
            Step::Filter => Effect::Filter,
            Step::Fail(e) => {
                if no_match {
                    self.set_nav_mode();
                }
                Effect::Done(Err(e))
            },
        }
    }

    /// Closes the selected tab, except the first.
    fn close_tab(&mut self) -> (res: Effect)
        requires
            old(self).wf(),
        ensures
            final(self).wf(),
            performed(*old(self), Action::CloseTab, *final(self), res),
    {
        let ghost a = self.tabs.tabs@;
        let ghost s = self.tabs.state as int;
        let r = self.tabs.close();
        assert forall|i: int| 0 <= i < self.tabs.tabs@.len() implies (#[trigger] self.tabs.tabs@[i]).wf() by {
            if s > 0 {
                if i < s {
                    assert(self.tabs.tabs@[i] == a[i]);
                } else {
                    assert(self.tabs.tabs@[i] == a[i + 1]);
                }
            }
        }
        match r {
            Ok(()) => Effect::Done(Ok(Success::Silent)),
            Err(e) => Effect::Done(Err(e)),
        }
    }

    /// Asks to export the current graph under the title's name.
    fn export(&mut self) -> (res: Effect)
        requires
            old(self).wf(),
        ensures
            final(self).wf(),
            performed(*old(self), Action::Export, *final(self), res),
    {
        match export_target(None, self.tabs.tabs[self.tabs.state].title.as_str()) {
            Ok(f) => Effect::Export(f),
            Err(e) => Effect::Done(Err(e)),
        }
    }

    /// Asks to launch xdot on the most recent export.
    fn xdot(&mut self) -> (res: Effect)
        requires
            old(self).wf(),
        ensures
            final(self).wf(),
            performed(*old(self), Action::Xdot, *final(self), res),
    {
        let p = xdot_path(None);
        proof {
            reveal_strlit("./exports/");
            reveal_strlit("current.dot");
            reveal_strlit("./exports/current.dot");
            assert(p@ =~= "./exports/current.dot"@);
        }
        Effect::Xdot(p)
    }

    /// Goes to the next or previous match.
    fn goto_match(&mut self, forward: bool) -> (res: Effect)
        requires
            old(self).wf(),
        ensures
            final(self).wf(),
            performed(*old(self), Action::GotoMatch(forward), *final(self), res),
    {
        let ghost a = *self;
        proof { assert(a.tabs.tabs@[a.tabs.state as int].wf()); }
        let view = self.tabs.selected();
        if forward {
            view.matches.next();
        } else {
            view.matches.previous();
        }
        let r = view.goto_match();
        proof { lemma_views_wf(a, *self); }
        match r {
            Ok(()) => Effect::Done(Ok(Success::Silent)),
            Err(e) => Effect::Done(Err(e)),
        }
    }

    /// Goes to the node selected in the focused list of neighbors.
    fn goto_adjacent(&mut self) -> (res: Effect)
        requires
            old(self).wf(),
        ensures
            final(self).wf(),
            performed(*old(self), Action::GotoAdjacent, *final(self), res),
    {
        let ghost a = *self;
        proof { assert(a.tabs.tabs@[a.tabs.state as int].wf()); }
        let view = self.tabs.selected();
        let r = view.goto_adjacent();
        proof { lemma_views_wf(a, *self); }
        match r {
            Ok(()) => Effect::Done(Ok(Success::Silent)),
            Err(e) => Effect::Done(Err(e)),
        }
    }

    /// Completes the input line, and runs the search again for the completed line.
    fn autocomplete(&mut self, imode: InputMode) -> (res: Effect)
        requires
            old(self).wf(),
            completion_ok(imode, old(self).input.key@, view_of(*old(self)), old(self).trie),
        ensures
            final(self).wf(),
            performed(*old(self), Action::Autocomplete(imode), *final(self), res),
    {
        let ghost a = *self;
        proof { assert(a.tabs.tabs@[a.tabs.state as int].wf()); }
        let completed = complete_input(imode, self.input.key.as_str(), &self.tabs.tabs[self.tabs.state], &self.trie);
        assert(completion(imode, a.input.key@, view_of(a), a.trie, opt_text(completed)));
        match completed {
            Some(k) => {
                self.input.set(k);
                if let InputMode::Search(_) = imode {
                    self.update_search(imode);
                } else {
                    assert(self.tabs.tabs@ =~= a.tabs.tabs@.update(a.tabs.state as int, view_of(*self)));
                }
            },
            None => {},
        }
        Effect::Done(Ok(Success::Silent))
    }

    /// Moves the selection of `target` down (`down`) or up.
    fn move_selection(&mut self, target: Target, down: bool) -> (res: Effect)
        requires
            old(self).wf(),
        ensures
            final(self).wf(),
            moved_done(*old(self), *final(self), target, down, res),
    {
        let ghost a = *self;
        match target {
            Target::Tree => Effect::Tree(if down { TreeMove::Down } else { TreeMove::Up }),
            Target::Help => {
                if down {
                    self.help.next();
                } else {
                    self.help.previous();
                }
                Effect::Done(Ok(Success::Silent))
            },
            _ => {
                proof { assert(a.tabs.tabs@[a.tabs.state as int].wf()); }
                let view = self.tabs.selected();
                match target {
                    Target::Current => {
                        if down {
                            view.current.next();
                        } else {
                            view.current.previous();
                        }
                        view.update_adjacent();
                    },
                    Target::Prevs => {
                        if down {
                            view.prevs.next();
                        } else {
                            view.prevs.previous();
                        }
                    },
                    _ => {
                        if down {
                            view.nexts.next();
                        } else {
                            view.nexts.previous();
                        }
                    },
                }
                proof { lemma_views_wf(a, *self); }
                Effect::Done(Ok(Success::Silent))
            },
        }
    }
}

/// The completion of `query` among `items` can be cut between two characters.
pub open spec fn completes_ok(items: Seq<Seq<char>>, query: Seq<char>) -> bool {
    if query.len() == 0 {
        cut_ok(items)
    } else {
        forall|l: Seq<Seq<char>>| lists_sorted(l, completions(items, query)) ==> #[trigger] cut_ok(l)
    }
}

/// `res` is the completion of `query` among `items`: the common prefix of the names that
/// start with it (of all names when it is empty), or `None` when there are none.
pub open spec fn completes(items: Seq<Seq<char>>, query: Seq<char>, res: Option<Seq<char>>) -> bool {
    if query.len() == 0 {
        res == prefix_of(items)
    } else {
        exists|l: Seq<Seq<char>>| lists_sorted(l, completions(items, query)) && res == #[trigger] prefix_of(l)
    }
}

/// The completion of the input line in `imode` can be computed: in command mode, when the
/// line is not already a command, over the command names; in a search, over the matching
/// nodes of the view.
pub open spec fn completion_ok(imode: InputMode, key: Seq<char>, view: View, trie: CommandTrie) -> bool {
    match imode {
        InputMode::Command => parsed_command(key) is NoMatch ==> completes_ok(texts(trie.trie_cmd.items@), key),
        InputMode::Search(_) => completes_ok(texts(view.trie.items@), key),
    }
}

/// The completion of the input line in `imode`: in command mode, nothing when the line is
/// already a command, else the completion over the command names; in a search, the
/// completion over the matching nodes of the view.
pub open spec fn completion(imode: InputMode, key: Seq<char>, view: View, trie: CommandTrie, res: Option<Seq<char>>) -> bool {
    match imode {
        InputMode::Command => if parsed_command(key) is NoMatch {
            completes(texts(trie.trie_cmd.items@), key, res)
        } else {
            res is None
        },
        InputMode::Search(_) => completes(texts(view.trie.items@), key, res),
    }
}

/// The completion of the input line `key` in `imode`, if there is one.
pub fn complete_input(imode: InputMode, key: &str, view: &View, trie: &CommandTrie) -> (res: Option<String>)
    requires
        view.wf(),
        trie.trie_cmd.wf(),
        completion_ok(imode, key@, *view, *trie),
    ensures
        completion(imode, key@, *view, *trie, opt_text(res)),
{
    match imode {
        InputMode::Command => {
            let command = Command::parse(key);
            if let Command::NoMatch = command {
                trie.trie_cmd.autocomplete(key)
            } else {
                None
            }
        },
        InputMode::Search(_) => view.autocomplete(key),
    }
}

} // verus!
