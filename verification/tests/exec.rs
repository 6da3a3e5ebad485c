use dot_viewer::viewer::app::{exec_step, export_filename, export_target, xdot_path, Step};
use dot_viewer::viewer::command::{Command, Export, Neighbors, Xdot};
use dot_viewer::viewer::error::DotViewerError;
use dot_viewer::viewer::modes::PopupMode;

#[test]
fn export_names() {
    assert_eq!(export_filename(None, "my graph - a"), "mygraph-a.dot");
    assert_eq!(export_filename(Some(String::from("x.dot")), "t"), "x.dot");
    assert_eq!(export_target(None, "g").ok(), Some(String::from("g.dot")));
    match export_target(Some(String::from("d/x.dot")), "g") {
        Err(DotViewerError::CommandError(m)) => assert_eq!(m, "invalid dot filename: d/x.dot"),
        _ => panic!("directories are refused"),
    }
}

#[test]
fn xdot_paths() {
    assert_eq!(xdot_path(None), "./exports/current.dot");
    assert_eq!(xdot_path(Some(String::from("a.dot"))), "./exports/a.dot");
}

#[test]
fn exec_steps() {
    assert!(matches!(exec_step(Command::Neighbors(Neighbors { depth: Some(2) }), "g", ""), Step::Neighbors(2)));
    match exec_step(Command::Neighbors(Neighbors { depth: None }), "g", "neighbors") {
        Step::Fail(e) => assert_eq!(e.message(), "Err: command failed with, `No argument supplied for neighbors`"),
        _ => panic!("a depth is needed"),
    }
    match exec_step(Command::Export(Export { filename: None }), "a b", "export") {
        Step::Export(f) => assert_eq!(f, "ab.dot"),
        _ => panic!("export"),
    }
    match exec_step(Command::Xdot(Xdot { filename: None }), "g", "xdot") {
        Step::Xdot(p) => assert_eq!(p, "./exports/current.dot"),
        _ => panic!("xdot"),
    }
    assert!(matches!(exec_step(Command::Filter, "g", "filter"), Step::Filter));
    assert!(matches!(exec_step(Command::Help, "g", "help"), Step::Popup(PopupMode::Help)));
    assert!(matches!(exec_step(Command::Subgraph, "g", "subgraph"), Step::Popup(PopupMode::Tree)));
    match exec_step(Command::NoMatch, "g", "frob") {
        Step::Fail(DotViewerError::CommandError(m)) => assert_eq!(m, "No such command frob"),
        _ => panic!("unknown command"),
    }
}
