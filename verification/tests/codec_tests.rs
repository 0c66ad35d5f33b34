use todo_list::store::TodoList;
use todo_list::task::TodoError;

#[test]
fn save_writes_one_line_per_task_in_the_exact_format() {
    let mut store = TodoList::new();
    assert_eq!(store.add_task("tea".to_string()), Ok(1));
    assert_eq!(store.add_task("milk, eggs, bread".to_string()), Ok(2));
    assert_eq!(store.complete_task(1), Ok(()));
    let text = store.save_tasks();
    assert_eq!(text, "1,completed,tea\n2,pending,milk\\, eggs\\, bread\n");
}

#[test]
fn save_of_an_empty_store_is_empty_text() {
    let store = TodoList::new();
    assert_eq!(store.save_tasks(), "");
}

#[test]
fn round_trip_keeps_ids_descriptions_and_flags() {
    let mut store = TodoList::new();
    assert_eq!(store.add_task("plain".to_string()), Ok(1));
    assert_eq!(store.add_task("milk, eggs, bread".to_string()), Ok(2));
    assert_eq!(store.add_task("ends with backslash \\".to_string()), Ok(3));
    assert_eq!(store.add_task("a\\,b already looks escaped".to_string()), Ok(4));
    assert_eq!(store.complete_task(2), Ok(()));
    let text = store.save_tasks();
    let loaded = TodoList::load_tasks(Some(&text)).unwrap();
    assert_eq!(loaded.list_tasks(), store.list_tasks());
    // next_id ends one above the greatest id read
    let mut loaded = loaded;
    assert_eq!(loaded.add_task("next".to_string()), Ok(5));
}

#[test]
fn load_reports_a_bad_id_with_its_line_number() {
    let text = "1,pending,fine\nabc,pending,bad id\n";
    let r = TodoList::load_tasks(Some(text));
    assert_eq!(r.err(), Some(TodoError::ParseError(2)));
}

#[test]
fn load_of_only_a_bad_id_line_reports_line_one() {
    let r = TodoList::load_tasks(Some("abc,pending,bad id"));
    assert_eq!(r.err(), Some(TodoError::ParseError(1)));
}

#[test]
fn load_without_a_file_yields_the_empty_store() {
    let mut store = TodoList::load_tasks(None).unwrap();
    assert!(store.list_tasks().is_empty());
    // next_id starts at one
    assert_eq!(store.add_task("first".to_string()), Ok(1));
}

#[test]
fn load_of_empty_text_yields_the_empty_store() {
    let mut store = TodoList::load_tasks(Some("")).unwrap();
    assert!(store.list_tasks().is_empty());
    assert_eq!(store.add_task("first".to_string()), Ok(1));
}

#[test]
fn load_skips_lines_without_exactly_three_fields() {
    let text = "no commas here\n1,pending,kept\n2,pending,too,many,fields\n";
    let store = TodoList::load_tasks(Some(text)).unwrap();
    let lines = store.list_tasks();
    assert_eq!(lines.len(), 1);
    assert_eq!(lines[0], "[ ] ID: 1, kept");
}

#[test]
fn load_unescapes_commas_in_the_description() {
    let store = TodoList::load_tasks(Some("1,pending,a\\,b\n")).unwrap();
    assert_eq!(store.list_tasks()[0], "[ ] ID: 1, a,b");
}

#[test]
fn load_reads_completed_exactly_and_anything_else_as_pending() {
    let text = "5,completed,done one\n6,Completed,not quite\n7,weird,odd\n";
    let mut store = TodoList::load_tasks(Some(text)).unwrap();
    let lines = store.list_tasks();
    assert_eq!(lines[0], "[x] ID: 5, done one");
    assert_eq!(lines[1], "[ ] ID: 6, not quite");
    assert_eq!(lines[2], "[ ] ID: 7, odd");
    // next_id ends one above the greatest id read
    assert_eq!(store.add_task("next".to_string()), Ok(8));
}

#[test]
fn load_accepts_ids_out_of_order() {
    let store = TodoList::load_tasks(Some("9,pending,late\n2,pending,early\n")).unwrap();
    let lines = store.list_tasks();
    assert_eq!(lines[0], "[ ] ID: 9, late");
    assert_eq!(lines[1], "[ ] ID: 2, early");
}
