use dot_viewer::viewer::error::DotViewerError;
use dot_viewer::viewer::view::{Focus, GraphModel, View};

fn s(v: &[&str]) -> Vec<String> {
    v.iter().map(|x| x.to_string()).collect()
}

/// a -> b, a -> c, b -> c
fn model() -> GraphModel {
    GraphModel {
        ids: s(&["a", "b", "c"]),
        froms: vec![s(&[]), s(&["a"]), s(&["a", "b"])],
        tos: vec![s(&["b", "c"]), s(&["c"]), s(&[])],
        dots: s(&["a [label=\"start\"]", "b", "c [color=red]"]),
    }
}

#[test]
fn new_view_selects_first_node() {
    let view = View::new(String::from("g"), model());
    assert_eq!(view.current.state, Some(0));
    assert_eq!(view.current_id(), "a");
    assert!(view.prevs.items.is_empty());
    assert_eq!(view.nexts.items, s(&["b", "c"]));
    assert_eq!(view.nexts.state, Some(0));
    assert_eq!(view.focus, Focus::Current);
    assert!(view.matches.items.is_empty());
}

#[test]
fn goto_known_and_unknown() {
    let mut view = View::new(String::from("g"), model());
    assert!(view.goto("c").is_ok());
    assert_eq!(view.current_id(), "c");
    assert_eq!(view.prevs.items, s(&["a", "b"]));
    assert!(view.nexts.items.is_empty());
    match view.goto("zz") {
        Err(DotViewerError::ViewerError(m)) => assert_eq!(m, "no such node \"zz\""),
        _ => panic!("unknown node"),
    }
    assert_eq!(view.current_id(), "c");
}

#[test]
fn goto_adjacent_follows_focus() {
    let mut view = View::new(String::from("g"), model());
    match view.goto_adjacent() {
        Err(DotViewerError::ViewerError(m)) => assert_eq!(m, "no node selected"),
        _ => panic!("current list has no adjacent selection"),
    }
    view.focus = Focus::Next;
    view.nexts.next();
    assert!(view.goto_adjacent().is_ok());
    assert_eq!(view.current_id(), "c");
}

#[test]
fn fuzzy_search_and_goto_match() {
    let mut view = View::new(String::from("g"), model());
    view.update_fuzzy("b");
    assert_eq!(view.key, "b");
    assert_eq!(view.matches.items, vec![(1, vec![0])]);
    assert_eq!(view.matched_id(), Some(String::from("b")));
    assert!(view.goto_match().is_ok());
    assert_eq!(view.current_id(), "b");
    view.update_fuzzy("zz");
    assert!(view.matches.items.is_empty());
    assert_eq!(view.matched_id(), None);
    assert!(view.goto_match().is_err());
}

#[test]
fn regex_search_on_dot_text() {
    let mut view = View::new(String::from("g"), model());
    view.update_regex("color=\\w+");
    assert_eq!(view.matches.items, vec![(2, vec![0])]);
    view.update_regex("(");
    assert!(view.matches.items.is_empty());
    view.update_regex("[a-z]");
    assert_eq!(view.matches.items.len(), 3);
}

#[test]
fn completion_over_matches() {
    let mut view = View::new(String::from("g"), model());
    view.update_regex("^[bc]");
    view.update_trie();
    assert_eq!(view.trie.items, s(&["b", "c"]));
    assert_eq!(view.autocomplete("c"), Some(String::from("c")));
    assert_eq!(view.filter_ids(), s(&["b", "c"]));
}

#[test]
fn derived_views() {
    let mut view = View::new(String::from("g"), model());
    view.update_fuzzy("a");
    let empty = GraphModel { ids: vec![], froms: vec![], tos: vec![], dots: vec![] };
    match view.filtered(empty) {
        Err(e) => assert_eq!(e.message(), "Err: viewer failed with, `no match for keyword a`"),
        Ok(_) => panic!("empty filter"),
    }
    let v = view.filtered(model()).ok().unwrap();
    assert_eq!(v.title, "g - a");
    let n = view.neighbors_view(2, model()).ok().unwrap();
    assert_eq!(n.title, "g - neighbors-a-2");
    let empty = GraphModel { ids: vec![], froms: vec![], tos: vec![], dots: vec![] };
    assert!(view.neighbors_view(1, empty).is_err());
    let sub = view.subgraph_view("cluster_x", model()).ok().unwrap();
    assert_eq!(sub.title, "g - cluster_x");
}

#[test]
fn prefix_filter() {
    let mut view = View::new(String::from("g"), model());
    view.update_filter("b");
    assert_eq!(view.matches.items, vec![(1, vec![0])]);
    assert_eq!(view.key, "b");
    view.update_filter("");
    assert_eq!(view.matches.items, vec![(0, vec![]), (1, vec![]), (2, vec![])]);
}
