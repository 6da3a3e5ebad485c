//! What the viewer does with a command once it is read: the tab to open, the file to
//! export or show, or the error to report.
use vstd::prelude::*;
use vstd::string::*;
use crate::text::push_char;
use crate::viewer::command::{Command, opt_text};
use crate::viewer::error::DotViewerError;
use crate::viewer::modes::PopupMode;
use crate::words::{is_space, space};

verus! {

/// The work a command asks for.
pub enum Step {
    /// Open the neighbors of the selected node within this depth in a new tab.
    Neighbors(usize),
    /// Export the current view to this file of the exports directory.
    Export(String),
    /// Launch xdot on this path.
    Xdot(String),
    /// Open the matches of the search in a new tab.
    Filter,
    /// Show a popup.
    Popup(PopupMode),
    /// The command cannot be carried out.
    Fail(DotViewerError),
}

/// `s` without its whitespace.
pub open spec fn without_spaces(s: Seq<char>) -> Seq<char> {
    s.filter(|c: char| !is_space(c))
}

/// The file an export writes: the given name, or the view's title without whitespace and
/// with the `.dot` extension.
pub open spec fn export_name(filename: Option<Seq<char>>, title: Seq<char>) -> Seq<char> {
    match filename {
        Some(f) => f,
        None => without_spaces(title) + ".dot"@,
    }
}

/// The file an export writes: the given name, or the title without whitespace, with `.dot`.
pub fn export_filename(filename: Option<String>, title: &str) -> (res: String)
    ensures
        res@ == export_name(opt_text(filename), title@),
{
    match filename {
        Some(f) => f,
        None => {
            let mut out = String::new();
            let n = title.unicode_len();
            for i in 0..n
                invariant
                    n == title@.len(),
                    out@ == without_spaces(title@.take(i as int)),
            {
                let c = title.get_char(i);
                assert(title@.take(i + 1) == title@.take(i as int).push(c));
                proof {
                    title@.take(i as int).lemma_filter_push(c, |c: char| !is_space(c));
                }
                if !space(c) {
                    push_char(&mut out, c);
                }
            }
            assert(title@.take(n as int) =~= title@);
            out.append(".dot");
            out
        },
    }
}

/// The file an export writes, if its name is acceptable (no directory, `.dot` extension).
pub fn export_target(filename: Option<String>, title: &str) -> (res: Result<String, DotViewerError>)
    ensures
        is_valid_filename(export_name(opt_text(filename), title@)) <==> res is Ok,
        res matches Ok(f) ==> f@ == export_name(opt_text(filename), title@),
        res matches Err(e) ==> (e matches DotViewerError::CommandError(m)
            && m@ == "invalid dot filename: "@ + export_name(opt_text(filename), title@)),
{
    let name = export_filename(filename, title);
    if valid_filename(name.as_str()) {
        Ok(name)
    } else {
        let mut m = String::from_str("invalid dot filename: ");
        m.append(name.as_str());
        Err(DotViewerError::CommandError(m))
    }
}

/// The path xdot is launched on: the given file of the exports directory, or the most
/// recent export.
pub fn xdot_path(filename: Option<String>) -> (res: String)
    ensures
        res@ == "./exports/"@ + match opt_text(filename) {
            Some(f) => f,
            None => "current.dot"@,
        },
{
    let mut path = String::from_str("./exports/");
    match filename {
        Some(f) => path.append(f.as_str()),
        None => path.append("current.dot"),
    }
    path
}

/// The work `command` asks for, in a view titled `title`, `key` being the command line.
pub fn exec_step(command: Command, title: &str, key: &str) -> (res: Step)
    ensures
        command matches Command::Neighbors(n) ==> (match n.depth {
            Some(d) => res == Step::Neighbors(d),
            None => res matches Step::Fail(DotViewerError::CommandError(m)) && m@ == "No argument supplied for neighbors"@,
        }),
        command matches Command::Export(e) ==> (if is_valid_filename(export_name(opt_text(e.filename), title@)) {
            res matches Step::Export(f) && f@ == export_name(opt_text(e.filename), title@)
        } else {
            res matches Step::Fail(DotViewerError::CommandError(m))
                && m@ == "invalid dot filename: "@ + export_name(opt_text(e.filename), title@)
        }),
        command matches Command::Xdot(x) ==> (res matches Step::Xdot(p) && p@ == "./exports/"@ + match opt_text(x.filename) {
            Some(f) => f,
            None => "current.dot"@,
        }),
        command is Filter ==> res is Filter,
        command is Help ==> res == Step::Popup(PopupMode::Help),
        command is Subgraph ==> res == Step::Popup(PopupMode::Tree),
        command is NoMatch ==> (res matches Step::Fail(DotViewerError::CommandError(m)) && m@ == "No such command "@ + key@),
{
    match command {
        Command::Neighbors(n) => match n.depth {
            Some(d) => Step::Neighbors(d),
            None => Step::Fail(DotViewerError::CommandError(String::from_str("No argument supplied for neighbors"))),
        },
        Command::Export(e) => match export_target(e.filename, title) {
            Ok(f) => Step::Export(f),
            Err(err) => Step::Fail(err),
        },
        Command::Xdot(x) => Step::Xdot(xdot_path(x.filename)),
        Command::Filter => Step::Filter,
        Command::Help => Step::Popup(PopupMode::Help),
        Command::Subgraph => Step::Popup(PopupMode::Tree),
        Command::NoMatch => {
            let mut m = String::from_str("No such command ");
            m.append(key);
            Step::Fail(DotViewerError::CommandError(m))
        },
    }
}

/// A file name that the export accepts: no directory part, and the `.dot` extension.
pub open spec fn is_valid_filename(filename: Seq<char>) -> bool {
    !filename.contains('/') && filename.len() >= 4 && filename.subrange(filename.len() - 4, filename.len() as int) == ".dot"@
}


/// A file name is accepted exactly when it has no directory part and is some name followed
/// by the `.dot` extension: in particular, every name without `/` gets accepted once `.dot`
/// is added to it.
pub proof fn lemma_valid_filename(name: Seq<char>)
    ensures
        is_valid_filename(name) <==> (!name.contains('/') && exists|stem: Seq<char>| #[trigger] (stem + ".dot"@) == name),
        !name.contains('/') ==> is_valid_filename(name + ".dot"@),
{
    reveal_strlit(".dot");
    let ext = ".dot"@;
    assert(ext.len() == 4);
    assert(!ext.contains('/')) by {
        if ext.contains('/') {
            let j = choose|j: int| 0 <= j < ext.len() && ext[j] == '/';
        }
    }
    if is_valid_filename(name) {
        let stem = name.take(name.len() - 4);
        assert(stem + ext =~= name);
    }
    if !name.contains('/') && exists|stem: Seq<char>| #[trigger] (stem + ".dot"@) == name {
        let stem = choose|stem: Seq<char>| #[trigger] (stem + ".dot"@) == name;
        assert(name.subrange(name.len() - 4, name.len() as int) =~= ext);
    }
    let full = name + ext;
    if !name.contains('/') {
        assert(full.subrange(full.len() - 4, full.len() as int) =~= ext);
        assert(!full.contains('/')) by {
            if full.contains('/') {
                let j = choose|j: int| 0 <= j < full.len() && full[j] == '/';
                if j < name.len() {
                    assert(name[j] == '/');
                } else {
                    assert(ext[j - name.len()] == '/');
                }
            }
        }
    }
}

/// Whether `filename` has no directory part and ends with `.dot`.
pub fn valid_filename(filename: &str) -> (res: bool)
    ensures
        res == is_valid_filename(filename@),
{
    let n = filename.unicode_len();
    let mut i: usize = 0;
    while i < n
        invariant
            n == filename@.len(),
            i <= n,
            forall|j: int| 0 <= j < i ==> filename@[j] != '/',
        decreases n - i,
    {
        if filename.get_char(i) == '/' {
            assert(filename@.contains('/') ) by {
                assert(filename@[i as int] == '/');
            }
            return false;
        }
        i = i + 1;
    }
    assert(!filename@.contains('/'));
    if n < 4 {
        return false;
    }
    let tail = filename.substring_char(n - 4, n);
    proof {
        reveal_strlit(".dot");
    }
    let ok = tail.get_char(0) == '.' && tail.get_char(1) == 'd' && tail.get_char(2) == 'o' && tail.get_char(3) == 't';
    assert(ok == (tail@ =~= ".dot"@));
    ok
}

} // verus!
