//! The help screen: a table of the keys and commands of each mode.
use vstd::prelude::*;
use vstd::string::*;
use crate::viewer::utils::input::texts;

verus! {

/// The header and rows of the help table.
pub struct Help {
    pub header: Vec<String>,
    pub rows: Vec<Vec<String>>,
}

/// The column titles of the help table.
pub open spec fn help_header() -> Seq<Seq<char>> {
    seq!["When"@, "Key"@, "Command"@, "Actions"@]
}

/// The rows of the help table: mode, key, command and what it does.
pub open spec fn help_rows() -> Seq<Seq<Seq<char>>> {
    seq![
        seq!["Quit"@, "q"@, ""@, "quit dot-viewer"@],
        seq!["Help"@, ""@, ":help<CR>"@, "help"@],
        seq![""@, ""@, ""@, ""@],
        seq!["All"@, "esc"@, ""@, "go back to Normal mode"@],
        seq!["Normal"@, "/"@, ""@, "go to fuzzy search mode"@],
        seq!["Normal"@, "r"@, ""@, "go to regex search mode"@],
        seq!["Normal"@, ":"@, ""@, "go to command mode"@],
        seq![""@, ""@, ""@, ""@],
        seq!["Normal"@, "c"@, ""@, "close the current tab (view)"@],
        seq![""@, "h/l"@, ""@, "move focus between current, prevs, nexts list"@],
        seq![""@, "j/k"@, ""@, "traverse in focused list"@],
        seq![""@, "n/N"@, ""@, "go to next/previous match"@],
        seq![""@, "tab/backtab"@, ""@, "move between tabs"@],
        seq!["Search"@, "tab"@, ""@, "autocomplete search keyword"@],
        seq![""@, "enter"@, ""@, "apply search"@],
        seq!["Command"@, ""@, "filter"@, "apply filter on current matches"@],
        seq![""@, ""@, "neighbors [depth]"@, "export [depth] neighbors of the current node to dot"@],
        seq![""@, ""@, "export"@, "export the current tab (view) to dot"@],
        seq![""@, ""@, "xdot"@, "launch xdot on exports/current.dot"@],
        seq![""@, ""@, "subgraph"@, "go to subgraph Popup mode"@],
        seq![""@, "tab"@, ""@, "autocomplete command"@],
        seq![""@, "enter"@, ""@, "execute command"@],
        seq!["Subgraph Popup"@, "h/j/k/l"@, ""@, "traverse tree"@],
        seq![""@, "enter"@, ""@, "change root to the selected subgraph"@]
    ]
}

/// The texts of the rows of a table.
pub open spec fn table_texts(rows: Seq<Vec<String>>) -> Seq<Seq<Seq<char>>> {
    rows.map_values(|r: Vec<String>| texts(r@))
}

fn row(a: &str, b: &str, c: &str, d: &str) -> (r: Vec<String>)
    ensures
        texts(r@) == seq![a@, b@, c@, d@],
{
    let r = vec![String::from_str(a), String::from_str(b), String::from_str(c), String::from_str(d)];
    assert(texts(r@) =~= seq![a@, b@, c@, d@]);
    r
}

impl Help {
    /// The help table.
    pub fn new() -> (res: Help)
        ensures
            texts(res.header@) == help_header(),
            table_texts(res.rows@) == help_rows(),
    {
        let header = row("When", "Key", "Command", "Actions");
        let rows = help_table();
        Help { header, rows }
    }
}

#[verifier::rlimit(40)]
fn help_table() -> (rows: Vec<Vec<String>>)
    ensures
        table_texts(rows@) == help_rows(),
{
    let mut rows: Vec<Vec<String>> = Vec::new();
    rows.push(row("Quit", "q", "", "quit dot-viewer"));
    rows.push(row("Help", "", ":help<CR>", "help"));
    rows.push(row("", "", "", ""));
    rows.push(row("All", "esc", "", "go back to Normal mode"));
    rows.push(row("Normal", "/", "", "go to fuzzy search mode"));
    rows.push(row("Normal", "r", "", "go to regex search mode"));
    rows.push(row("Normal", ":", "", "go to command mode"));
    rows.push(row("", "", "", ""));
    rows.push(row("Normal", "c", "", "close the current tab (view)"));
    rows.push(row("", "h/l", "", "move focus between current, prevs, nexts list"));
    rows.push(row("", "j/k", "", "traverse in focused list"));
    rows.push(row("", "n/N", "", "go to next/previous match"));
    rows.push(row("", "tab/backtab", "", "move between tabs"));
    rows.push(row("Search", "tab", "", "autocomplete search keyword"));
    rows.push(row("", "enter", "", "apply search"));
    rows.push(row("Command", "", "filter", "apply filter on current matches"));
    rows.push(row("", "", "neighbors [depth]", "export [depth] neighbors of the current node to dot"));
    rows.push(row("", "", "export", "export the current tab (view) to dot"));
    rows.push(row("", "", "xdot", "launch xdot on exports/current.dot"));
    rows.push(row("", "", "subgraph", "go to subgraph Popup mode"));
    rows.push(row("", "tab", "", "autocomplete command"));
    rows.push(row("", "enter", "", "execute command"));
    rows.push(row("Subgraph Popup", "h/j/k/l", "", "traverse tree"));
    rows.push(row("", "enter", "", "change root to the selected subgraph"));
    assert(table_texts(rows@) =~= help_rows());
    rows
}

} // verus!
