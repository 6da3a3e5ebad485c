//! Errors of the viewer, each with the message shown in the status line.
use vstd::prelude::*;
use vstd::string::*;

verus! {

/// What went wrong in the viewer.
#[derive(Debug)]
pub enum DotViewerError {
    /// The graph library failed; its own message is shown.
    DotGraphError(String),
    ViewerError(String),
    /// No keybinding for a key, named as the terminal library prints it.
    KeyError(String),
    IOError(String),
    CommandError(String),
    XdotError,
    TabError(String),
}

/// A result of the viewer.
pub type DotViewerResult<T> = Result<T, DotViewerError>;

impl DotViewerError {
    /// The message shown for the error.
    pub open spec fn text(&self) -> Seq<char> {
        match self {
            DotViewerError::DotGraphError(m) => m@,
            DotViewerError::ViewerError(m) => "Err: viewer failed with, `"@ + m@ + "`"@,
            DotViewerError::KeyError(k) => "Err: no keybinding for "@ + k@,
            DotViewerError::IOError(m) => m@,
            DotViewerError::CommandError(m) => "Err: command failed with, `"@ + m@ + "`"@,
            DotViewerError::XdotError => "Err: failed to launch xdot.py"@,
            DotViewerError::TabError(m) => "Err: tab manipulation failed with, `"@ + m@ + "`"@,
        }
    }

    /// The message shown for the error.
    pub fn message(&self) -> (res: String)
        ensures
            res@ == self.text(),
    {
        match self {
            DotViewerError::DotGraphError(m) => m.clone(),
            DotViewerError::ViewerError(m) => {
                let mut r = String::from_str("Err: viewer failed with, `");
                r.append(m.as_str());
                r.append("`");
                r
            },
            DotViewerError::KeyError(k) => {
                let mut r = String::from_str("Err: no keybinding for ");
                r.append(k.as_str());
                r
            },
            DotViewerError::IOError(m) => m.clone(),
            DotViewerError::CommandError(m) => {
                let mut r = String::from_str("Err: command failed with, `");
                r.append(m.as_str());
                r.append("`");
                r
            },
            DotViewerError::XdotError => String::from_str("Err: failed to launch xdot.py"),
            DotViewerError::TabError(m) => {
                let mut r = String::from_str("Err: tab manipulation failed with, `");
                r.append(m.as_str());
                r.append("`");
                r
            },
        }
    }
}

} // verus!
