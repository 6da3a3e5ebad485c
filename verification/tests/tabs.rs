use dot_viewer::app::error::DotViewerError as AppError;
use dot_viewer::app::utils::tabs::StatefulTabs;
use dot_viewer::viewer::error::DotViewerError;
use dot_viewer::viewer::utils::tabs::Tabs;

#[test]
fn tabs_next_and_previous_wrap() {
    let mut tabs = Tabs::from_vec(vec![1, 2, 3]);
    assert_eq!(tabs.state, 0);
    tabs.previous();
    assert_eq!(tabs.state, 2);
    tabs.next();
    assert_eq!(tabs.state, 0);
    tabs.next();
    tabs.next();
    assert_eq!(tabs.state, 2);
    tabs.next();
    assert_eq!(tabs.state, 0);
}

#[test]
fn tabs_open_selects_new_tab() {
    let mut tabs = Tabs::from_vec(vec!["a"]);
    tabs.open("b");
    assert_eq!(tabs.state, 1);
    assert_eq!(tabs.tabs, vec!["a", "b"]);
}

#[test]
fn tabs_close_first_is_refused() {
    let mut tabs = Tabs::from_vec(vec!["a", "b"]);
    match tabs.close() {
        Err(DotViewerError::ViewerError(m)) => assert_eq!(m, "cannot close the first tab"),
        _ => panic!("closing the first tab must fail"),
    }
    assert_eq!(tabs.tabs, vec!["a", "b"]);
    assert_eq!(tabs.state, 0);
}

#[test]
fn tabs_close_last_selects_previous() {
    let mut tabs = Tabs::from_vec(vec!["a", "b", "c"]);
    tabs.select(2);
    assert!(tabs.close().is_ok());
    assert_eq!(tabs.tabs, vec!["a", "b"]);
    assert_eq!(tabs.state, 1);
}

#[test]
fn tabs_close_middle_keeps_index() {
    let mut tabs = Tabs::from_vec(vec!["a", "b", "c"]);
    tabs.select(1);
    assert!(tabs.close().is_ok());
    assert_eq!(tabs.tabs, vec!["a", "c"]);
    assert_eq!(tabs.state, 1);
}

#[test]
fn tabs_select_ignores_out_of_range() {
    let mut tabs = Tabs::from_vec(vec!["a", "b"]);
    tabs.select(5);
    assert_eq!(tabs.state, 0);
    tabs.select(1);
    assert_eq!(tabs.state, 1);
    *tabs.selected() = "z";
    assert_eq!(tabs.tabs, vec!["a", "z"]);
}

#[test]
fn stateful_tabs_need_a_tab() {
    match StatefulTabs::<u8>::with_tabs(Vec::new()) {
        Err(AppError::TabError(m)) => assert_eq!(m, "no tab given to tabs constructor"),
        _ => panic!("an empty list of tabs must be refused"),
    }
    let tabs = StatefulTabs::with_tabs(vec![7]).ok().unwrap();
    assert_eq!(tabs.state, 0);
    assert_eq!(tabs.tabs, vec![7]);
}

#[test]
fn stateful_tabs_navigation() {
    let mut tabs = StatefulTabs::with_tabs(vec![1, 2]).ok().unwrap();
    tabs.next();
    assert_eq!(tabs.state, 1);
    tabs.next();
    assert_eq!(tabs.state, 0);
    tabs.previous();
    assert_eq!(tabs.state, 1);
    tabs.open(3);
    assert_eq!(tabs.state, 2);
    assert_eq!(*tabs.selected(), 3);
    assert_eq!(tabs.close().ok().unwrap(), None);
    assert_eq!(tabs.tabs, vec![1, 2]);
    assert_eq!(tabs.state, 1);
    tabs.select(0);
    match tabs.close() {
        Err(e) => assert_eq!(e.message(), "Err: tab manipulation failed with, `cannot close the first tab`"),
        Ok(_) => panic!("closing the first tab must fail"),
    }
}
