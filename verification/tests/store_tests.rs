use todo_list::store::TodoList;
use todo_list::task::TodoError;

#[test]
fn add_whitespace_only_fails_and_leaves_store_unchanged() {
    let mut store = TodoList::new();
    let r = store.add_task("  ".to_string());
    assert_eq!(r, Err(TodoError::ValidationError));
    assert_eq!(store.list_tasks().len(), 0);
    // the counter did not move: the next add still gets id 1
    assert_eq!(store.add_task("first".to_string()), Ok(1));
}

#[test]
fn add_assigns_increasing_ids_in_listing_order() {
    let mut store = TodoList::new();
    assert_eq!(store.add_task("Buy milk".to_string()), Ok(1));
    assert_eq!(store.add_task("Walk dog".to_string()), Ok(2));
    let lines = store.list_tasks();
    assert_eq!(lines.len(), 2);
    assert_eq!(lines[0], "[ ] ID: 1, Buy milk");
    assert_eq!(lines[1], "[ ] ID: 2, Walk dog");
}

#[test]
fn add_trims_whitespace_around_description() {
    let mut store = TodoList::new();
    assert_eq!(store.add_task("  hello world \t\n".to_string()), Ok(1));
    let lines = store.list_tasks();
    assert_eq!(lines[0], "[ ] ID: 1, hello world");
}

#[test]
fn complete_unknown_id_fails_and_leaves_store_unchanged() {
    let mut store = TodoList::new();
    let r = store.complete_task(99);
    assert_eq!(r, Err(TodoError::NotFoundError(99)));
    assert_eq!(store.list_tasks().len(), 0);
    assert_eq!(store.add_task("still first".to_string()), Ok(1));
}

#[test]
fn complete_marks_the_task_done() {
    let mut store = TodoList::new();
    assert_eq!(store.add_task("one".to_string()), Ok(1));
    assert_eq!(store.add_task("two".to_string()), Ok(2));
    assert_eq!(store.complete_task(2), Ok(()));
    let lines = store.list_tasks();
    assert_eq!(lines[0], "[ ] ID: 1, one");
    assert_eq!(lines[1], "[x] ID: 2, two");
}

#[test]
fn remove_keeps_other_tasks_and_never_reuses_ids() {
    let mut store = TodoList::new();
    assert_eq!(store.add_task("first".to_string()), Ok(1));
    assert_eq!(store.add_task("second".to_string()), Ok(2));
    assert_eq!(store.remove_task(1), Ok(()));
    let lines = store.list_tasks();
    assert_eq!(lines.len(), 1);
    assert_eq!(lines[0], "[ ] ID: 2, second");
    // ids are never reused: the removal left next_id alone
    assert_eq!(store.add_task("third".to_string()), Ok(3));
}

#[test]
fn remove_unknown_id_fails() {
    let mut store = TodoList::new();
    assert_eq!(store.add_task("only".to_string()), Ok(1));
    assert_eq!(store.remove_task(7), Err(TodoError::NotFoundError(7)));
    assert_eq!(store.list_tasks().len(), 1);
}

#[test]
fn listing_an_empty_store_yields_no_lines() {
    let store = TodoList::new();
    assert!(store.list_tasks().is_empty());
}
