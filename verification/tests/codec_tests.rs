use clodo::codec::load_from_string;
use clodo::codec::save_to_string;
use clodo::codec::LoadError;
use clodo::model::TodoList;

#[test]
fn save_writes_the_expected_text() {
    let mut list = TodoList::new();
    list.add_task(String::from("Buy milk"));
    list.add_task(String::from("Walk dog"));
    assert!(list.mark_done(1));
    let text = save_to_string(&list);
    assert_eq!(
        text,
        "{\"todos\":[{\"id\":1,\"task\":\"Buy milk\",\"completed\":true},\
         {\"id\":2,\"task\":\"Walk dog\",\"completed\":false}],\"next_id\":3}"
    );
}

#[test]
fn save_of_an_empty_list_writes_the_expected_text() {
    let list = TodoList::new();
    assert_eq!(save_to_string(&list), "{\"todos\":[],\"next_id\":1}");
}

#[test]
fn load_of_save_reproduces_the_list_exactly() {
    let mut list = TodoList::new();
    list.add_task(String::from("Buy milk"));
    list.add_task(String::from("Walk dog"));
    list.add_task(String::from(""));
    assert!(list.mark_done(2));
    assert!(list.delete_task(1));
    let text = save_to_string(&list);
    let loaded = load_from_string(&text).unwrap();
    assert_eq!(loaded.next_id, list.next_id);
    assert_eq!(loaded.todos.len(), list.todos.len());
    for (a, b) in loaded.todos.iter().zip(list.todos.iter()) {
        assert_eq!(a.id, b.id);
        assert_eq!(a.task, b.task);
        assert_eq!(a.completed, b.completed);
    }
}

#[test]
fn quotes_and_backslashes_in_titles_round_trip() {
    let mut list = TodoList::new();
    list.add_task(String::from("say \"hi\""));
    list.add_task(String::from("a\\b\\\\c"));
    list.add_task(String::from("unicode: äöü 話 🚀"));
    let text = save_to_string(&list);
    let loaded = load_from_string(&text).unwrap();
    assert_eq!(loaded.todos[0].task, "say \"hi\"");
    assert_eq!(loaded.todos[1].task, "a\\b\\\\c");
    assert_eq!(loaded.todos[2].task, "unicode: äöü 話 🚀");
}

#[test]
fn empty_collection_text_loads_as_a_fresh_list() {
    let loaded = load_from_string("{\"todos\":[],\"next_id\":1}").unwrap();
    let fresh = TodoList::new();
    assert_eq!(loaded.todos.len(), fresh.todos.len());
    assert_eq!(loaded.next_id, fresh.next_id);
}

#[test]
fn malformed_texts_are_rejected() {
    assert_eq!(load_from_string("").unwrap_err(), LoadError::Malformed);
    assert_eq!(load_from_string("not a list").unwrap_err(), LoadError::Malformed);
    assert_eq!(load_from_string("{\"todos\":[],\"next_id\":1").unwrap_err(), LoadError::Malformed);
    assert_eq!(load_from_string("{\"todos\":[],\"next_id\":1} ").unwrap_err(), LoadError::Malformed);
    assert_eq!(load_from_string("{\"todos\":[{\"id\":1,\"task\":\"a\",\"completed\":maybe}],\"next_id\":2}").unwrap_err(), LoadError::Malformed);
    assert_eq!(load_from_string("{\"todos\":[],\"next_id\":-1}").unwrap_err(), LoadError::Malformed);
}

#[test]
fn numbers_that_do_not_fit_are_rejected() {
    assert_eq!(
        load_from_string("{\"todos\":[],\"next_id\":4294967295}")
            .unwrap()
            .next_id,
        u32::MAX
    );
    assert_eq!(load_from_string("{\"todos\":[],\"next_id\":4294967296}").unwrap_err(), LoadError::Malformed);
}

#[test]
fn lists_breaking_the_invariant_are_rejected() {
    // Duplicate identifiers.
    assert_eq!(load_from_string(
            "{\"todos\":[{\"id\":1,\"task\":\"a\",\"completed\":false},\
             {\"id\":1,\"task\":\"b\",\"completed\":false}],\"next_id\":2}"
        ).unwrap_err(), LoadError::Invalid);
    // An identifier at or above the counter.
    assert_eq!(load_from_string("{\"todos\":[{\"id\":5,\"task\":\"a\",\"completed\":false}],\"next_id\":2}").unwrap_err(), LoadError::Invalid);
    // A counter below one.
    assert_eq!(load_from_string("{\"todos\":[],\"next_id\":0}").unwrap_err(), LoadError::Invalid);
}

#[test]
fn a_loaded_list_keeps_working() {
    let text = "{\"todos\":[{\"id\":2,\"task\":\"keep\",\"completed\":false}],\"next_id\":7}";
    let mut list = load_from_string(text).unwrap();
    list.add_task(String::from("new"));
    assert_eq!(list.todos[1].id, 7);
    assert_eq!(list.next_id, 8);
    assert!(list.mark_done(2));
    assert!(list.todos[0].completed);
}
