use dot_viewer::app::utils::trie::{longest_common_prefix, Trie};

fn names(v: &[&str]) -> Vec<String> {
    v.iter().map(|s| s.to_string()).collect()
}

#[test]
fn autocomplete() {
    let nodes = names(&["graph", "graphs", "node"]);
    let trie = Trie::new(&nodes);
    assert_eq!(trie.autocomplete("g"), Some("graph".to_string()));
}

#[test]
fn autocomplete_cases() {
    let trie = Trie::new(&names(&["abc", "abd", "b"]));
    assert_eq!(trie.autocomplete("a"), Some(String::from("ab")));
    assert_eq!(trie.autocomplete("b"), Some(String::from("b")));
    assert_eq!(trie.autocomplete("x"), None);
    assert_eq!(trie.autocomplete(""), Some(String::new()));
    let single = Trie::new(&names(&["alpha"]));
    assert_eq!(single.autocomplete(""), Some(String::from("alpha")));
    assert!(single.can_autocomplete("al"));
}

#[test]
fn prefix_words_are_not_completions() {
    let trie = Trie::new(&names(&["abc", "ab"]));
    assert_eq!(trie.autocomplete("a"), Some(String::from("abc")));
}

#[test]
fn common_prefix() {
    assert_eq!(longest_common_prefix(&names(&["flower", "flow", "flight"])), Some(String::from("fl")));
    assert_eq!(longest_common_prefix(&names(&["dog", "car"])), Some(String::new()));
    assert_eq!(longest_common_prefix(&names(&[])), None);
    assert_eq!(longest_common_prefix(&names(&["", "a"])), None);
    assert_eq!(longest_common_prefix(&names(&["same", "same"])), Some(String::from("same")));
}

#[test]
fn completion_cut_counts_characters_as_bytes() {
    let trie = Trie::new(&names(&["éab", "éac"]));
    assert!(trie.can_autocomplete("éa"));
    assert_eq!(trie.autocomplete("éa"), Some(String::from("é")));
    let single = Trie::new(&names(&["é"]));
    assert!(!single.can_autocomplete("é"));
}
