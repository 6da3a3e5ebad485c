use dot_viewer::repl::repl::parse;
use dot_viewer::viewer::app::valid_filename;
use dot_viewer::words::{same_text, split_whitespace};

#[test]
fn split_on_any_whitespace() {
    assert_eq!(split_whitespace("  goto   a\tb\n"), vec!["goto", "a", "b"]);
    assert_eq!(split_whitespace(""), Vec::<&str>::new());
    assert_eq!(split_whitespace(" \u{3000} "), Vec::<&str>::new());
    assert_eq!(split_whitespace("héllo wörld"), vec!["héllo", "wörld"]);
    assert_eq!(split_whitespace("a\u{a0}b"), vec!["a", "b"]);
}

#[test]
fn split_agrees_with_std() {
    for s in ["x", " x y ", "\u{2003}k\u{85}l", "one  two\tthree\r\n"] {
        let ours = split_whitespace(s);
        let theirs: Vec<&str> = s.split_whitespace().collect();
        assert_eq!(ours, theirs);
    }
}

#[test]
fn parse_command_line() {
    let (command, arguments) = parse("open  graph.dot ");
    assert_eq!(command, "open");
    assert_eq!(arguments, vec!["graph.dot"]);
    let (command, arguments) = parse("show");
    assert_eq!(command, "show");
    assert!(arguments.is_empty());
}

#[test]
fn filenames() {
    assert!(valid_filename("a.dot"));
    assert!(valid_filename(".dot"));
    assert!(!valid_filename("dir/a.dot"));
    assert!(!valid_filename("a.txt"));
    assert!(!valid_filename("dot"));
    assert!(!valid_filename(""));
}

#[test]
fn text_equality() {
    assert!(same_text("abc", "abc"));
    assert!(!same_text("abc", "abd"));
    assert!(!same_text("ab", "abc"));
}

#[test]
fn prefixes() {
    assert!(dot_viewer::words::starts_with("graph", "gr"));
    assert!(dot_viewer::words::starts_with("graph", ""));
    assert!(!dot_viewer::words::starts_with("gr", "graph"));
    assert!(!dot_viewer::words::starts_with("graph", "gx"));
}
