use clodo::model::TodoList;

#[test]
fn new_list_is_empty_with_next_id_one() {
    let list = TodoList::new();
    assert_eq!(list.todos.len(), 0);
    assert_eq!(list.next_id, 1);
}

#[test]
fn add_assigns_strictly_increasing_ids_from_one() {
    let mut list = TodoList::new();
    list.add_task(String::from("a"));
    list.add_task(String::from("b"));
    list.add_task(String::from("c"));
    assert_eq!(list.todos.len(), 3);
    assert_eq!(list.todos[0].id, 1);
    assert_eq!(list.todos[1].id, 2);
    assert_eq!(list.todos[2].id, 3);
    assert_eq!(list.next_id, 4);
}

#[test]
fn add_then_list_shows_one_pending_task() {
    let mut list = TodoList::new();
    list.add_task(String::from("X"));
    assert_eq!(list.todos.len(), 1);
    assert_eq!(list.todos[0].task, "X");
    assert!(!list.todos[0].completed);
}

#[test]
fn add_allows_empty_title() {
    let mut list = TodoList::new();
    list.add_task(String::new());
    assert_eq!(list.todos.len(), 1);
    assert_eq!(list.todos[0].task, "");
}

#[test]
fn mark_done_sets_completed_and_reports_success() {
    let mut list = TodoList::new();
    list.add_task(String::from("a"));
    list.add_task(String::from("b"));
    assert!(list.mark_done(2));
    assert!(!list.todos[0].completed);
    assert!(list.todos[1].completed);
    // Marking an already-completed task again still succeeds.
    assert!(list.mark_done(2));
    assert!(list.todos[1].completed);
}

#[test]
fn mark_done_on_missing_id_fails_and_mutates_nothing() {
    let mut list = TodoList::new();
    list.add_task(String::from("a"));
    assert!(!list.mark_done(7));
    assert_eq!(list.todos.len(), 1);
    assert_eq!(list.todos[0].id, 1);
    assert_eq!(list.todos[0].task, "a");
    assert!(!list.todos[0].completed);
    assert_eq!(list.next_id, 2);
}

#[test]
fn delete_removes_exactly_one_and_preserves_order() {
    let mut list = TodoList::new();
    list.add_task(String::from("a"));
    list.add_task(String::from("b"));
    list.add_task(String::from("c"));
    assert!(list.delete_task(2));
    assert_eq!(list.todos.len(), 2);
    assert_eq!(list.todos[0].id, 1);
    assert_eq!(list.todos[0].task, "a");
    assert_eq!(list.todos[1].id, 3);
    assert_eq!(list.todos[1].task, "c");
    assert_eq!(list.next_id, 4);
}

#[test]
fn delete_on_missing_id_fails_and_leaves_collection_unchanged() {
    let mut list = TodoList::new();
    list.add_task(String::from("a"));
    assert!(!list.delete_task(9));
    assert_eq!(list.todos.len(), 1);
    assert_eq!(list.todos[0].id, 1);
    assert_eq!(list.next_id, 2);
}

#[test]
fn edit_changes_only_the_title_of_the_match() {
    let mut list = TodoList::new();
    list.add_task(String::from("a"));
    list.add_task(String::from("b"));
    assert!(list.mark_done(2));
    assert!(list.edit_task(2, String::from("renamed")));
    assert_eq!(list.todos[1].id, 2);
    assert_eq!(list.todos[1].task, "renamed");
    assert!(list.todos[1].completed);
    assert_eq!(list.todos[0].task, "a");
    assert!(!list.todos[0].completed);
}

#[test]
fn edit_on_missing_id_fails() {
    let mut list = TodoList::new();
    list.add_task(String::from("a"));
    assert!(!list.edit_task(3, String::from("renamed")));
    assert_eq!(list.todos[0].task, "a");
}

#[test]
fn scenario_two_tasks_first_done() {
    let mut list = TodoList::new();
    list.add_task(String::from("Buy milk"));
    list.add_task(String::from("Walk dog"));
    assert!(list.mark_done(1));
    assert_eq!(list.todos.len(), 2);
    assert_eq!(list.todos[0].id, 1);
    assert_eq!(list.todos[0].task, "Buy milk");
    assert!(list.todos[0].completed);
    assert_eq!(list.todos[1].id, 2);
    assert_eq!(list.todos[1].task, "Walk dog");
    assert!(!list.todos[1].completed);
}

#[test]
fn ids_are_never_reused_after_deletion() {
    let mut list = TodoList::new();
    list.add_task(String::from("Buy milk"));
    list.add_task(String::from("Walk dog"));
    assert!(list.mark_done(1));
    assert!(list.delete_task(1));
    list.add_task(String::from("Read book"));
    assert_eq!(list.todos.len(), 2);
    assert_eq!(list.todos[1].id, 3);
    assert_eq!(list.todos[1].task, "Read book");
    assert_eq!(list.next_id, 4);
}
