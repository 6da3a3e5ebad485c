use dot_viewer::viewer::command::{parse_usize, subcommands, Command, CommandTrie, Export, Neighbors, Xdot};

#[test]
fn parse_commands() {
    assert_eq!(Command::parse("neighbors 3"), Command::Neighbors(Neighbors { depth: Some(3) }));
    assert_eq!(Command::parse("neighbors"), Command::Neighbors(Neighbors { depth: None }));
    assert_eq!(Command::parse("export a.dot"), Command::Export(Export { filename: Some(String::from("a.dot")) }));
    assert_eq!(Command::parse("export"), Command::Export(Export { filename: None }));
    assert_eq!(Command::parse("  xdot  b.dot "), Command::Xdot(Xdot { filename: Some(String::from("b.dot")) }));
    assert_eq!(Command::parse("filter"), Command::Filter);
    assert_eq!(Command::parse("help"), Command::Help);
    assert_eq!(Command::parse("subgraph"), Command::Subgraph);
}

#[test]
fn parse_refusals() {
    assert_eq!(Command::parse("neighbors three"), Command::NoMatch);
    assert_eq!(Command::parse("launch"), Command::NoMatch);
    assert_eq!(Command::parse("filter now"), Command::NoMatch);
    assert_eq!(Command::parse(""), Command::NoMatch);
}

#[test]
fn from_match_names() {
    assert_eq!(Command::from_match(Some((String::from("help"), None))), Command::Help);
    assert_eq!(
        Command::from_match(Some((String::from("neighbors"), Some(String::from("2"))))),
        Command::Neighbors(Neighbors { depth: Some(2) })
    );
    assert_eq!(Command::from_match(Some((String::from("neighbors"), Some(String::from("x"))))), Command::NoMatch);
    assert_eq!(
        Command::from_match(Some((String::from("export"), Some(String::from("g.dot"))))),
        Command::Export(Export { filename: Some(String::from("g.dot")) })
    );
    assert_eq!(Command::from_match(Some((String::from("other"), None))), Command::NoMatch);
    assert_eq!(Command::from_match(None), Command::NoMatch);
}

#[test]
fn parse_depths() {
    assert_eq!(parse_usize("0"), Some(0));
    assert_eq!(parse_usize("+12"), Some(12));
    assert_eq!(parse_usize("007"), Some(7));
    assert_eq!(parse_usize(""), None);
    assert_eq!(parse_usize("+"), None);
    assert_eq!(parse_usize("-1"), None);
    assert_eq!(parse_usize("1a"), None);
    assert_eq!(parse_usize("18446744073709551615"), Some(usize::MAX));
    assert_eq!(parse_usize("18446744073709551616"), None);
    assert_eq!(parse_usize("99999999999999999999999"), None);
}

#[test]
fn parse_words_alone() {
    assert_eq!(Command::parse("  neighbors   3 "), Command::parse("neighbors 3"));
    assert_eq!(Command::parse("neighbors +4"), Command::Neighbors(Neighbors { depth: Some(4) }));
    assert_eq!(Command::parse("neighbors -1"), Command::NoMatch);
    assert_eq!(Command::parse("export a.dot b.dot"), Command::NoMatch);
    assert_eq!(Command::parse("xdot"), Command::Xdot(Xdot { filename: None }));
}

#[test]
fn subcommand_table() {
    let defs = subcommands();
    assert_eq!(defs.len(), 6);
    assert_eq!(defs[0], ("neighbors", Some("depth")));
    assert_eq!(defs[3], ("filter", None));
}

#[test]
fn command_completion() {
    let trie = CommandTrie::new();
    assert_eq!(trie.trie_cmd.autocomplete("n"), Some(String::from("neighbors")));
    assert_eq!(trie.trie_cmd.autocomplete("su"), Some(String::from("subgraph")));
    assert_eq!(trie.trie_cmd.autocomplete("z"), None);
    assert_eq!(trie.trie_cmd.autocomplete(""), Some(String::new()));
    assert_eq!(trie.trie_arg.autocomplete(""), None);
}
