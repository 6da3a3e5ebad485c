use dot_viewer::viewer::utils::tree::{path_valid, selected_id, sort_by_id, Item};

fn leaf(id: &str) -> Item {
    Item::new(id.to_string(), Vec::new())
}

#[test]
fn children_are_ordered_by_id() {
    let root = Item::new(String::from("g"), vec![leaf("c"), leaf("a"), leaf("b")]);
    let ids: Vec<&str> = root.children.iter().map(|i| i.id.as_str()).collect();
    assert_eq!(ids, vec!["a", "b", "c"]);
    let sorted = sort_by_id(vec![leaf("x"), leaf("x"), leaf("w")]);
    let ids: Vec<&str> = sorted.iter().map(|i| i.id.as_str()).collect();
    assert_eq!(ids, vec!["w", "x", "x"]);
}

#[test]
fn paths_select_subgraphs() {
    let inner = Item::new(String::from("cluster_b"), vec![leaf("cluster_c")]);
    let root = Item::new(String::from("g"), vec![leaf("cluster_a"), inner]);
    let items = vec![root];
    assert_eq!(selected_id(&items, &[0]), Some(String::from("g")));
    assert_eq!(selected_id(&items, &[0, 1]), Some(String::from("cluster_b")));
    assert_eq!(selected_id(&items, &[0, 1, 0]), Some(String::from("cluster_c")));
    assert_eq!(selected_id(&items, &[]), None);
    assert!(path_valid(&items, &[0, 0]));
    assert!(!path_valid(&items, &[0, 2]));
    assert!(!path_valid(&items, &[1]));
}
