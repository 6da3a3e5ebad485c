//! What a command that worked reports in the status line.
use vstd::prelude::*;
use vstd::string::*;

verus! {

/// The outcome of a command that worked.
#[derive(Debug)]
pub enum Success {
    ExportSuccess(String),
    XdotSuccess,
    Silent,
}

impl Default for Success {
    fn default() -> (res: Success)
        ensures
            res is Silent,
    {
        Success::Silent
    }
}

impl Success {
    /// The message shown for the outcome; nothing when silent.
    pub open spec fn text(&self) -> Seq<char> {
        match self {
            Success::ExportSuccess(filename) => "successfully exported to "@ + filename@,
            Success::XdotSuccess => "launched xdot"@,
            Success::Silent => Seq::empty(),
        }
    }

    /// The message shown for the outcome; empty when silent.
    pub fn message(&self) -> (res: String)
        ensures
            res@ == self.text(),
    {
        match self {
            Success::ExportSuccess(filename) => {
                let mut r = String::from_str("successfully exported to ");
                r.append(filename.as_str());
                r
            },
            Success::XdotSuccess => String::from_str("launched xdot"),
            Success::Silent => String::new(),
        }
    }
}

} // verus!
