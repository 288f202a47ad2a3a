use borrow_and_ownership::appender::todo_push;
use borrow_and_ownership::record::Todo;

fn todo(task: &str, checked: bool) -> Todo {
    Todo { task: String::from(task), checked }
}

#[test]
fn two_records_are_kept_in_the_order_appended() {
    let first = todo("task2", false);
    let second = todo("task3", false);
    let mut todos: Vec<&Todo> = vec![];
    todo_push(&mut todos, &first);
    todo_push(&mut todos, &second);
    assert_eq!(todos.len(), 2);
    assert_eq!(todos[0].task, "task2");
    assert!(!todos[0].checked);
    assert_eq!(todos[1].task, "task3");
    assert!(!todos[1].checked);
    assert!(std::ptr::eq(todos[0], &first));
    assert!(std::ptr::eq(todos[1], &second));
}

#[test]
fn records_stay_readable_after_the_appends() {
    let first = todo("task2", false);
    let second = todo("task3", true);
    let mut todos: Vec<&Todo> = vec![];
    todo_push(&mut todos, &first);
    todo_push(&mut todos, &second);
    assert_eq!(format!("{:?}", first), "Todo { task: \"task2\", checked: false }");
    assert_eq!(format!("{:?}", second), "Todo { task: \"task3\", checked: true }");
    assert_eq!(
        format!("{:?}", todos),
        "[Todo { task: \"task2\", checked: false }, Todo { task: \"task3\", checked: true }]"
    );
}

#[test]
fn one_append_to_an_empty_list() {
    let only = todo("alone", true);
    let mut todos: Vec<&Todo> = Vec::new();
    todo_push(&mut todos, &only);
    assert_eq!(todos, vec![&only]);
}

#[test]
fn length_counts_every_append() {
    let owned: Vec<Todo> = (0..25).map(|n| todo(&format!("task{}", n), n % 2 == 0)).collect();
    let mut todos: Vec<&Todo> = Vec::new();
    for (done, item) in owned.iter().enumerate() {
        assert_eq!(todos.len(), done);
        todo_push(&mut todos, item);
        assert_eq!(todos.len(), done + 1);
    }
    assert_eq!(todos.len(), 25);
}

#[test]
fn appends_keep_insertion_order() {
    let owned: Vec<Todo> = (0..25).map(|n| todo(&format!("task{}", n), n % 3 == 0)).collect();
    let mut todos: Vec<&Todo> = Vec::new();
    for item in owned.iter() {
        todo_push(&mut todos, item);
    }
    for (at, item) in owned.iter().enumerate() {
        assert!(std::ptr::eq(todos[at], item));
        assert_eq!(todos[at].task, format!("task{}", at));
        assert_eq!(todos[at].checked, at % 3 == 0);
    }
}

#[test]
fn append_leaves_earlier_entries_in_place() {
    let a = todo("a", false);
    let b = todo("b", true);
    let c = todo("c", false);
    let mut todos: Vec<&Todo> = vec![&a, &b];
    todo_push(&mut todos, &c);
    assert_eq!(todos, vec![&a, &b, &c]);
}

#[test]
fn the_same_record_may_be_appended_twice() {
    let a = todo("again", false);
    let mut todos: Vec<&Todo> = Vec::new();
    todo_push(&mut todos, &a);
    todo_push(&mut todos, &a);
    assert_eq!(todos.len(), 2);
    assert!(std::ptr::eq(todos[0], todos[1]));
}

#[test]
fn a_record_changed_through_its_mutable_reference_is_appended_as_changed() {
    let mut a = todo("task1", false);
    let handle = &mut a;
    handle.checked = true;
    let mut todos: Vec<&Todo> = Vec::new();
    todo_push(&mut todos, &a);
    assert_eq!(todos[0], &Todo { task: String::from("task1"), checked: true });
}
