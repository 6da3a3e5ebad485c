//! The command language of the viewer's command mode, read with a multicall command-line
//! parser: the first word names the command, the rest are its arguments.
use vstd::prelude::*;
use vstd::string::*;
use clap::{Arg, Command as ClapCommand};
use crate::words::{split_whitespace, same_text, words};
use crate::app::utils::trie::Trie;
use crate::viewer::utils::input::texts;

verus! {

/// A command of the command mode.
#[derive(Debug, Clone, PartialEq, Eq, Hash)]
pub enum Command {
    Neighbors(Neighbors),
    Export(Export),
    Xdot(Xdot),
    Filter,
    Help,
    Subgraph,
    NoMatch,
}

/// Export the neighbors of the current node, up to an optional depth.
#[derive(Debug, Clone, PartialEq, Eq, Hash)]
pub struct Neighbors {
    pub depth: Option<usize>,
}

/// Export the current view, to an optional file name.
#[derive(Debug, Clone, PartialEq, Eq, Hash)]
pub struct Export {
    pub filename: Option<String>,
}

/// Launch xdot, on an optional file name.
#[derive(Debug, Clone, PartialEq, Eq, Hash)]
pub struct Xdot {
    pub filename: Option<String>,
}

/// The text of an optional string.
pub open spec fn opt_text(s: Option<String>) -> Option<Seq<char>> {
    match s {
        Some(t) => Some(t@),
        None => None,
    }
}

/// A command, with the texts of its file names.
pub enum CommandView {
    Neighbors(Option<usize>),
    Export(Option<Seq<char>>),
    Xdot(Option<Seq<char>>),
    Filter,
    Help,
    Subgraph,
    NoMatch,
}

impl View for Command {
    type V = CommandView;

    open spec fn view(&self) -> CommandView {
        match self {
            Command::Neighbors(n) => CommandView::Neighbors(n.depth),
            Command::Export(e) => CommandView::Export(e.filename.deep_view()),
            Command::Xdot(x) => CommandView::Xdot(x.filename.deep_view()),
            Command::Filter => CommandView::Filter,
            Command::Help => CommandView::Help,
            Command::Subgraph => CommandView::Subgraph,
            Command::NoMatch => CommandView::NoMatch,
        }
    }
}

/// The commands, in the order they are declared: each name with the name of its one
/// optional positional argument.
pub open spec fn command_defs() -> Seq<(Seq<char>, Option<Seq<char>>)> {
    seq![
        ("neighbors"@, Some("depth"@)),
        ("export"@, Some("filename"@)),
        ("xdot"@, Some("filename"@)),
        ("filter"@, None),
        ("help"@, None),
        ("subgraph"@, None),
    ]
}

/// The names of the commands, in the order they are declared.
pub open spec fn command_names() -> Seq<Seq<char>> {
    seq!["neighbors"@, "export"@, "xdot"@, "filter"@, "help"@, "subgraph"@]
}

/// The names of the commands, in the order they are declared.
pub fn subcommand_names() -> (res: Vec<String>)
    ensures
        res@.map_values(|s: String| s@) == command_names(),
{
    let res = vec![
        String::from_str("neighbors"),
        String::from_str("export"),
        String::from_str("xdot"),
        String::from_str("filter"),
        String::from_str("help"),
        String::from_str("subgraph"),
    ];
    assert(res@.map_values(|s: String| s@) =~= command_names());
    res
}

/// The commands: `neighbors [depth]`, `export [filename]`, `xdot [filename]`, `filter`,
/// `help` and `subgraph`.
pub fn subcommands() -> (res: Vec<(&'static str, Option<&'static str>)>)
    ensures
        res.deep_view() == command_defs(),
{
    let res = vec![
        ("neighbors", Some("depth")),
        ("export", Some("filename")),
        ("xdot", Some("filename")),
        ("filter", None),
        ("help", None),
        ("subgraph", None),
    ];
    assert(res.deep_view() =~= command_defs());
    res
}

/// What the multicall command-line parser makes of `words`, for a root command named `root`
/// with the commands `defs`: `None` when it refuses the words, else the name of the command
/// that matched with the text of its positional argument, when one was given.
pub uninterp spec fn multicall_match(root: Seq<char>, defs: Seq<(Seq<char>, Option<Seq<char>>)>, words: Seq<Seq<char>>) -> Option<(Seq<char>, Option<Seq<char>>)>;

/// Reads `words` with clap: a `clap::Command` named `root`, set to `multicall`,
/// `disable_help_subcommand` and `subcommand_required`, with one subcommand per entry of
/// `defs` (its name, and its positional argument when it has one), parsed by
/// `try_get_matches_from`; a refusal comes back as `None`, else the name that
/// `ArgMatches::subcommand` gives and the text of its argument from `try_get_one`. The
/// outcome is a function of the three arguments alone. Of which lines clap accepts, only this
/// is stated: with this viewer's commands, a line made of one command name matches that
/// command with no argument.
#[verifier::external_body]
fn match_command_line(root: &'static str, defs: &Vec<(&'static str, Option<&'static str>)>, words: Vec<&str>) -> (res: Option<(String, Option<String>)>)
    ensures
        res.deep_view() == multicall_match(root@, defs.deep_view(), words.deep_view()),
        (root@ == "dot-viewer"@ && defs.deep_view() == command_defs() && words.deep_view().len() == 1
            && command_names().contains(words.deep_view()[0])) ==> res.deep_view() == Some((words.deep_view()[0], None::<Seq<char>>)),
{
    let cmd = ClapCommand::new(root).multicall(true).disable_help_subcommand(true).subcommand_required(true);
    let cmd = cmd.subcommands(defs.iter().map(|(name, arg)| ClapCommand::new(*name).args(arg.map(|a| Arg::new(a)))));
    let matches = cmd.try_get_matches_from(words).ok()?;
    let (name, sub) = matches.subcommand()?;
    let value = sub.ids().next().and_then(|id| sub.try_get_one::<String>(id.as_str()).ok().flatten().cloned());
    Some((name.to_string(), value))
}

/// `c` is an ASCII decimal digit.
pub open spec fn is_digit(c: char) -> bool {
    48 <= (c as u32) <= 57
}

/// The value of a string of decimal digits.
pub open spec fn digits_value(t: Seq<char>) -> nat
    decreases t.len(),
{
    if t.len() == 0 {
        0
    } else {
        digits_value(t.drop_last()) * 10 + ((t.last() as u32) - 48) as nat
    }
}

/// The digits of a number written with an optional leading `+`.
pub open spec fn unsigned_digits(t: Seq<char>) -> Seq<char> {
    if t.len() > 0 && t[0] == '+' {
        t.drop_first()
    } else {
        t
    }
}

/// The `usize` that `t` writes in decimal, with an optional leading `+`: at least one ASCII
/// digit, and a value that fits.
pub open spec fn usize_of(t: Seq<char>) -> Option<usize> {
    let d = unsigned_digits(t);
    if d.len() > 0 && (forall|i: int| 0 <= i < d.len() ==> is_digit(#[trigger] d[i])) && digits_value(d) <= usize::MAX {
        Some(digits_value(d) as usize)
    } else {
        None
    }
}

/// A string of digits is worth at least any of its prefixes.
proof fn lemma_digits_value_grows(t: Seq<char>, k: int)
    requires
        0 <= k <= t.len(),
        forall|i: int| 0 <= i < t.len() ==> is_digit(#[trigger] t[i]),
    ensures
        digits_value(t.take(k)) <= digits_value(t),
    decreases t.len(),
{
    if k < t.len() {
        let d = t.drop_last();
        assert(forall|i: int| 0 <= i < d.len() ==> d[i] == t[i]);
        lemma_digits_value_grows(d, k);
        assert(d.take(k) =~= t.take(k));
    } else {
        assert(t.take(k) =~= t);
    }
}

/// Reads a `usize` written in decimal with an optional leading `+`, as `usize::from_str`
/// does.
pub fn parse_usize(s: &str) -> (res: Option<usize>)
    ensures
        res == usize_of(s@),
{
    let n = s.unicode_len();
    let mut st: usize = 0;
    if n > 0 && s.get_char(0) == '+' {
        st = 1;
    }
    let ghost d = unsigned_digits(s@);
    assert(d =~= s@.subrange(st as int, n as int));
    if st == n {
        return None;
    }
    let mut acc: usize = 0;
    let mut i: usize = st;
    while i < n
        invariant
            st <= i <= n,
            n == s@.len(),
            d == s@.subrange(st as int, n as int),
            d == unsigned_digits(s@),
            forall|j: int| 0 <= j < i - st ==> is_digit(#[trigger] d[j]),
            acc == digits_value(d.take(i - st)),
        decreases n - i,
    {
        let c = s.get_char(i);
        let cu = c as u32;
        if cu < 48 || cu > 57 {
            assert(!is_digit(d[i - st]));
            return None;
        }
        assert(d.take(i + 1 - st).drop_last() =~= d.take(i - st));
        assert(d.take(i + 1 - st).last() == c);
        let digit = (cu - 48) as usize;
        assert(digits_value(d.take(i + 1 - st)) == acc * 10 + digit);
        match acc.checked_mul(10) {
            Some(m) => match m.checked_add(digit) {
                Some(v) => {
                    acc = v;
                },
                None => {
                    proof { lemma_overflow_refused(d, i + 1 - st); }
                    return None;
                },
            },
            None => {
                proof { lemma_overflow_refused(d, i + 1 - st); }
                return None;
            },
        }
        i = i + 1;
    }
    assert(d.take(n - st) =~= d);
    Some(acc)
}

/// Digits whose prefix of length `k` is already worth more than any `usize` write no
/// `usize`.
proof fn lemma_overflow_refused(d: Seq<char>, k: int)
    requires
        0 < k <= d.len(),
        forall|j: int| 0 <= j < k ==> is_digit(#[trigger] d[j]),
        digits_value(d.take(k)) > usize::MAX,
    ensures
        !((forall|i: int| 0 <= i < d.len() ==> is_digit(#[trigger] d[i])) && digits_value(d) <= usize::MAX),
{
    if forall|i: int| 0 <= i < d.len() ==> is_digit(#[trigger] d[i]) {
        lemma_digits_value_grows(d, k);
    }
}

/// The command that a parse outcome stands for: the matched name's command, with its
/// argument (for `neighbors`, read as a `usize`, and no command when it is not one); a
/// refused line, or a name that is no command, stands for `NoMatch`.
pub open spec fn command_for(m: Option<(Seq<char>, Option<Seq<char>>)>) -> CommandView {
    match m {
        None => CommandView::NoMatch,
        Some((name, arg)) => if name == "neighbors"@ {
            match arg {
                None => CommandView::Neighbors(None),
                Some(t) => match usize_of(t) {
                    Some(n) => CommandView::Neighbors(Some(n)),
                    None => CommandView::NoMatch,
                },
            }
        } else if name == "export"@ {
            CommandView::Export(arg)
        } else if name == "xdot"@ {
            CommandView::Xdot(arg)
        } else if name == "filter"@ {
            CommandView::Filter
        } else if name == "help"@ {
            CommandView::Help
        } else if name == "subgraph"@ {
            CommandView::Subgraph
        } else {
            CommandView::NoMatch
        },
    }
}

/// The command that the command line `s` reads as.
pub open spec fn parsed_command(s: Seq<char>) -> CommandView {
    command_for(multicall_match("dot-viewer"@, command_defs(), words(s)))
}

/// Two command lines with the same words read as the same command.
pub proof fn lemma_parse_by_words(a: Seq<char>, b: Seq<char>)
    requires
        words(a) == words(b),
    ensures
        parsed_command(a) == parsed_command(b),
{
}

impl Command {
    /// The command for an outcome of the command-line parser: the matched name and the text
    /// of its argument, or `None` for a refused line.
    pub fn from_match(m: Option<(String, Option<String>)>) -> (res: Command)
        ensures
            res@ == command_for(m.deep_view()),
    {
        match m {
            None => Command::NoMatch,
            Some((name, arg)) => {
                if same_text(name.as_str(), "neighbors") {
                    match arg {
                        None => Command::Neighbors(Neighbors { depth: None }),
                        Some(t) => match parse_usize(t.as_str()) {
                            Some(n) => Command::Neighbors(Neighbors { depth: Some(n) }),
                            None => Command::NoMatch,
                        },
                    }
                } else if same_text(name.as_str(), "export") {
                    Command::Export(Export { filename: arg })
                } else if same_text(name.as_str(), "xdot") {
                    Command::Xdot(Xdot { filename: arg })
                } else if same_text(name.as_str(), "filter") {
                    Command::Filter
                } else if same_text(name.as_str(), "help") {
                    Command::Help
                } else if same_text(name.as_str(), "subgraph") {
                    Command::Subgraph
                } else {
                    Command::NoMatch
                }
            },
        }
    }

    /// Reads a command line: its words are handed to the command-line parser, and the command
    /// it matched is returned with its arguments; `NoMatch` when the parser refuses the line.
    pub fn parse(input: &str) -> (res: Command)
        ensures
            res@ == parsed_command(input@),
            words(input@).len() == 1 && command_names().contains(words(input@)[0])
                ==> res@ == command_for(Some((words(input@)[0], None))),
    {
        let inputs = split_whitespace(input);
        assert(inputs.deep_view() =~= words(input@));
        let defs = subcommands();
        let m = match_command_line("dot-viewer", &defs, inputs);
        Command::from_match(m)
    }
}

/// Completion of command names, and of their arguments (none so far).
pub struct CommandTrie {
    pub trie_cmd: Trie,
    pub trie_arg: Trie,
}

impl CommandTrie {
    /// Completion over the command names, and an empty completion for arguments.
    pub fn new() -> (res: CommandTrie)
        ensures
            texts(res.trie_cmd.items@) == command_names(),
            texts(res.trie_arg.items@) == Seq::<Seq<char>>::empty(),
            res.trie_cmd.wf(),
            res.trie_arg.wf(),
    {
        let names = subcommand_names();
        assert(texts(names@) =~= names@.map_values(|s: String| s@));
        let trie_cmd = Trie::new(&names);
        let none: Vec<String> = Vec::new();
        let trie_arg = Trie::new(&none);
        assert(texts(none@) =~= Seq::<Seq<char>>::empty());
        CommandTrie { trie_cmd, trie_arg }
    }
}

} // verus!
