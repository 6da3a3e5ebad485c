use dot_viewer::viewer::utils::input::Input;

#[test]
fn new_input_is_empty() {
    let input = Input::new();
    assert_eq!(input.key, "");
    assert_eq!(input.cursor, 0);
    assert!(input.history.is_empty());
    let d = Input::default();
    assert_eq!(d.key, "");
    assert_eq!(d.cursor, 0);
}

#[test]
fn set_puts_cursor_at_end() {
    let mut input = Input::new();
    input.set(String::from("abc"));
    assert_eq!(input.key(), "abc");
    assert_eq!(input.cursor, 3);
    input.set(String::from("é"));
    assert_eq!(input.cursor, 2);
}

#[test]
fn front_and_back_stop_at_the_ends() {
    let mut input = Input::new();
    input.set(String::from("ab"));
    input.front();
    assert_eq!(input.cursor, 2);
    input.back();
    input.back();
    assert_eq!(input.cursor, 0);
    input.back();
    assert_eq!(input.cursor, 0);
    input.front();
    assert_eq!(input.cursor, 1);
}

#[test]
fn insert_at_cursor() {
    let mut input = Input::new();
    input.insert('a');
    input.insert('c');
    input.back();
    input.insert('b');
    assert_eq!(input.key, "abc");
    assert_eq!(input.cursor, 2);
}

#[test]
fn insert_multibyte_moves_cursor_one_byte() {
    let mut input = Input::new();
    input.insert('é');
    assert_eq!(input.key, "é");
    assert_eq!(input.cursor, 1);
}

#[test]
fn delete_before_cursor() {
    let mut input = Input::new();
    input.set(String::from("abc"));
    input.delete();
    assert_eq!(input.key, "ab");
    assert_eq!(input.cursor, 2);
    input.back();
    input.delete();
    assert_eq!(input.key, "b");
    assert_eq!(input.cursor, 0);
    input.delete();
    assert_eq!(input.key, "b");
    assert_eq!(input.cursor, 0);
}

#[test]
fn insert_then_delete_restores() {
    let mut input = Input::new();
    input.set(String::from("xy"));
    input.back();
    input.insert('é');
    assert_eq!(input.key, "xéy");
    input.delete();
    assert_eq!(input.key, "xy");
    assert_eq!(input.cursor, 1);
}

#[test]
fn clear_keeps_history() {
    let mut input = Input::new();
    input.set(String::from("first"));
    input.clear();
    input.set(String::from("second"));
    input.clear();
    assert_eq!(input.key, "");
    assert_eq!(input.cursor, 0);
    assert_eq!(input.history, vec![String::from("first"), String::from("second")]);
}

#[test]
fn app_input_is_the_same_line() {
    let mut input = dot_viewer::app::utils::input::Input::new();
    input.insert('q');
    assert_eq!(input.key(), "q");
}
