use dot_viewer::app::error::DotViewerError as AppError;
use dot_viewer::repl::error::ReplError;
use dot_viewer::viewer::error::DotViewerError;
use dot_viewer::viewer::help::Help;
use dot_viewer::viewer::success::Success;

#[test]
fn viewer_error_messages() {
    assert_eq!(DotViewerError::ViewerError(String::from("x")).message(), "Err: viewer failed with, `x`");
    assert_eq!(DotViewerError::KeyError(String::from("Char('z')")).message(), "Err: no keybinding for Char('z')");
    assert_eq!(DotViewerError::XdotError.message(), "Err: failed to launch xdot.py");
    assert_eq!(DotViewerError::TabError(String::from("t")).message(), "Err: tab manipulation failed with, `t`");
    assert_eq!(DotViewerError::DotGraphError(String::from("raw")).message(), "raw");
    assert_eq!(DotViewerError::IOError(String::from("disk")).message(), "disk");
    assert_eq!(DotViewerError::CommandError(String::from("c")).message(), "Err: command failed with, `c`");
}

#[test]
fn app_error_messages() {
    assert_eq!(AppError::IOError(String::from("io")).message(), "Err: file io failed with, `io`");
    assert_eq!(AppError::ViewerError(String::from("v")).message(), "Err: viewer failed with, `v`");
    assert_eq!(AppError::XdotError.message(), "Err: failed to launch xdot.py");
    assert_eq!(AppError::KeyError(String::from("Esc")).message(), "Err: no keybinding for Esc");
    assert_eq!(AppError::DotGraphError(String::from("g")).message(), "g");
    assert_eq!(AppError::TabError(String::from("t")).message(), "Err: tab manipulation failed with, `t`");
}

#[test]
fn success_messages() {
    assert!(matches!(Success::default(), Success::Silent));
    assert_eq!(Success::default().message(), "");
    assert_eq!(Success::XdotSuccess.message(), "launched xdot");
    assert_eq!(Success::ExportSuccess(String::from("a.dot")).message(), "successfully exported to a.dot");
}

#[test]
fn repl_error_messages() {
    let e = ReplError::UnknownCommandError(String::from("foo"), vec![String::from("a"), String::from("b\"c")]);
    assert_eq!(e.message(), "Unknown command foo with arguments [\"a\", \"b\\\"c\"]");
    let none = ReplError::UnknownCommandError(String::from("bar"), Vec::new());
    assert_eq!(none.message(), "Unknown command bar with arguments []");
    assert_eq!(ReplError::ArgumentError.message(), "Wrong arguments");
    assert_eq!(ReplError::ParseError.message(), "Parse error");
    assert_eq!(ReplError::NoGraphError.message(), "There is no graph open. Please open a graph");
    assert_eq!(ReplError::NoNodeError.message(), "No such node in graph");
    assert_eq!(ReplError::FileError(String::from("x.dot")).message(), "Failed to open or write on x.dot");
}

#[test]
fn help_table() {
    let help = Help::new();
    assert_eq!(help.header, vec!["When", "Key", "Command", "Actions"]);
    assert_eq!(help.rows.len(), 24);
    assert_eq!(help.rows[0], vec!["Quit", "q", "", "quit dot-viewer"]);
    assert_eq!(help.rows[2], vec!["", "", "", ""]);
    assert_eq!(help.rows[16], vec!["", "", "neighbors [depth]", "export [depth] neighbors of the current node to dot"]);
    assert_eq!(help.rows[23], vec!["", "enter", "", "change root to the selected subgraph"]);
}

#[test]
fn repl_helper_prompt() {
    let helper = dot_viewer::repl::helper::ReplHelper { colored_prompt: String::from("\x1b[1;32m>>\x1b[0m") };
    assert_eq!(helper.highlight_prompt(">>", true), "\x1b[1;32m>>\x1b[0m");
    assert_eq!(helper.highlight_prompt(">>", false), ">>");
}
