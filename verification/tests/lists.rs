use dot_viewer::app::utils::list::StatefulList;
use dot_viewer::viewer::utils::list::List;
use dot_viewer::viewer::utils::table::Table;

#[test]
fn list_selects_first_item() {
    let list = List::from_vec(vec![1, 2, 3]);
    assert_eq!(list.state, Some(0));
    assert_eq!(list.selected(), Some(1));
    let empty: List<u8> = List::from_vec(Vec::new());
    assert_eq!(empty.state, None);
    assert_eq!(empty.selected(), None);
}

#[test]
fn list_next_previous_wrap() {
    let mut list = List::from_vec(vec!['a', 'b', 'c']);
    list.previous();
    assert_eq!(list.selected(), Some('c'));
    list.next();
    assert_eq!(list.selected(), Some('a'));
    list.next();
    list.previous();
    assert_eq!(list.selected(), Some('a'));
    list.last();
    assert_eq!(list.state, Some(2));
    list.first();
    assert_eq!(list.state, Some(0));
    list.select(1);
    assert_eq!(list.state, Some(1));
    list.select(3);
    assert_eq!(list.state, Some(1));
}

#[test]
fn empty_list_stays_unselected() {
    let mut list: List<u8> = List::from_vec(Vec::new());
    list.next();
    list.previous();
    list.first();
    list.last();
    assert_eq!(list.state, None);
}

#[test]
fn list_find() {
    let list = List::from_vec(vec![String::from("x"), String::from("y"), String::from("y")]);
    assert_eq!(list.find("y"), Some(1));
    assert_eq!(list.find("z"), None);
}

#[test]
fn stateful_list_with_items() {
    let mut list = StatefulList::with_items(vec![5, 6]);
    assert_eq!(list.selected(), Some(5));
    list.next();
    assert_eq!(list.selected(), Some(6));
}

#[test]
fn table_rows_and_selection() {
    let rows: [&[&str]; 2] = [&["a", "b"], &["c", "d"]];
    let mut table = Table::new(&["h1", "h2"], &rows);
    assert_eq!(table.header, vec!["h1", "h2"]);
    assert_eq!(table.rows, vec![vec!["a", "b"], vec!["c", "d"]]);
    assert_eq!(table.state, Some(0));
    table.previous();
    assert_eq!(table.state, Some(1));
    table.next();
    assert_eq!(table.state, Some(0));
    let none: [&[&str]; 0] = [];
    let empty = Table::new(&["h"], &none);
    assert_eq!(empty.state, None);
}
