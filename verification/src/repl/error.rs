//! Errors of the command line, with their messages.
use vstd::prelude::*;
use vstd::string::*;
use crate::viewer::utils::input::texts;
use crate::viewer::view::{debug_text, str_debug};

verus! {

/// What went wrong with a command.
#[derive(Debug)]
pub enum ReplError {
    UnknownCommandError(String, Vec<String>),
    ArgumentError,
    ParseError,
    NoGraphError,
    NoNodeError,
    FileError(String),
}

/// The debug texts of `v`, separated by commas.
pub open spec fn debug_items(v: Seq<Seq<char>>) -> Seq<char>
    decreases v.len(),
{
    if v.len() == 0 {
        Seq::empty()
    } else if v.len() == 1 {
        str_debug(v[0])
    } else {
        debug_items(v.drop_last()) + ", "@ + str_debug(v.last())
    }
}

/// The debug text of a list of strings, as `{:?}` prints it: the debug text of each string,
/// separated by commas, in square brackets.
pub open spec fn strings_debug(v: Seq<Seq<char>>) -> Seq<char> {
    "["@ + debug_items(v) + "]"@
}

/// Formats a list of strings as `{:?}` does.
fn debug_strings(v: &Vec<String>) -> (res: String)
    ensures
        res@ == strings_debug(texts(v@)),
{
    let mut r = String::from_str("[");
    let ghost t = texts(v@);
    for i in 0..v.len()
        invariant
            t == texts(v@),
            r@ == "["@ + debug_items(t.take(i as int)),
    {
        if i > 0 {
            r.append(", ");
        }
        let d = debug_text(v[i].as_str());
        r.append(d.as_str());
        proof {
            assert(t.take(i + 1).drop_last() =~= t.take(i as int));
            assert(t.take(i + 1).last() == v@[i as int]@);
            if i == 0 {
                assert(t.take(0) =~= Seq::<Seq<char>>::empty());
                assert(r@ =~= "["@ + debug_items(t.take(i + 1)));
            } else {
                assert(r@ =~= "["@ + debug_items(t.take(i + 1)));
            }
        }
    }
    assert(t.take(v.len() as int) =~= t);
    r.append("]");
    r
}

impl ReplError {
    /// The message shown for the error.
    pub open spec fn text(&self) -> Seq<char> {
        match self {
            ReplError::UnknownCommandError(command, arguments) =>
                "Unknown command "@ + command@ + " with arguments "@ + strings_debug(texts(arguments@)),
            ReplError::ArgumentError => "Wrong arguments"@,
            ReplError::ParseError => "Parse error"@,
            ReplError::NoGraphError => "There is no graph open. Please open a graph"@,
            ReplError::NoNodeError => "No such node in graph"@,
            ReplError::FileError(filename) => "Failed to open or write on "@ + filename@,
        }
    }

    /// The message shown for the error.
    pub fn message(&self) -> (res: String)
        ensures
            res@ == self.text(),
    {
        match self {
            ReplError::UnknownCommandError(command, arguments) => {
                let mut r = String::from_str("Unknown command ");
                r.append(command.as_str());
                r.append(" with arguments ");
                let d = debug_strings(arguments);
                r.append(d.as_str());
                r
            },
            ReplError::ArgumentError => String::from_str("Wrong arguments"),
            ReplError::ParseError => String::from_str("Parse error"),
            ReplError::NoGraphError => String::from_str("There is no graph open. Please open a graph"),
            ReplError::NoNodeError => String::from_str("No such node in graph"),
            ReplError::FileError(filename) => {
                let mut r = String::from_str("Failed to open or write on ");
                r.append(filename.as_str());
                r
            },
        }
    }
}

} // verus!
