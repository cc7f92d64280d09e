//! Undo, redo, the fork barrier, and the error kinds.

use things_server::errors::ListError;
use things_server::id::Id;
use things_server::item::UpdateListItem;
use things_server::list::List;
use things_server::op::{Change, Operation};
use things_server::server::ServerList;

fn list_titles(list: &List) -> Vec<String> {
    list.titles()
}

#[test]
fn undo_then_redo_restores_the_items() {
    let mut list = ServerList::new().snapshot();
    let potatoes = list.add("potatoes");
    list.add("tomatoes");
    list.update(potatoes.id, UpdateListItem::new().title("spuds"))
        .unwrap();
    let before = list_titles(&list);

    list.undo().unwrap();
    list.redo().unwrap();
    assert_eq!(list_titles(&list), before);

    list.undo().unwrap();
    list.undo().unwrap();
    list.redo().unwrap();
    list.redo().unwrap();
    assert_eq!(list_titles(&list), before);
}

#[test]
fn undo_stops_at_the_fork() {
    let mut list = ServerList::new().snapshot();
    list.add("potatoes");
    list.add("tomatoes");
    assert!(list.undo().is_ok());
    assert!(list.undo().is_ok());
    assert_eq!(list.undo().unwrap_err(), ListError::NoMoreOps);
}

#[test]
fn redo_stops_at_the_newest_record() {
    let mut list = ServerList::new().snapshot();
    list.add("potatoes");
    assert_eq!(list.redo().unwrap_err(), ListError::NoMoreOps);
    list.undo().unwrap();
    assert!(list.redo().is_ok());
    assert_eq!(list.redo().unwrap_err(), ListError::NoMoreOps);
}

#[test]
fn undo_of_an_add_removes_the_item() {
    let mut list = ServerList::new().snapshot();
    list.add("potatoes");
    list.add("tomatoes");
    list.undo().unwrap();
    assert_eq!(list_titles(&list), ["potatoes"]);
}

#[test]
fn undo_of_a_remove_restores_the_position() {
    let mut list = ServerList::new().snapshot();
    let a = list.add("apples");
    list.add("beans");
    list.add("carrots");
    list.remove(a.id).unwrap();
    assert_eq!(list_titles(&list), ["beans", "carrots"]);
    list.undo().unwrap();
    assert_eq!(list_titles(&list), ["apples", "beans", "carrots"]);
}

#[test]
fn undo_of_a_move_restores_the_order() {
    let mut list = ServerList::new().snapshot();
    let potatoes = list.add("potatoes");
    let tomatoes = list.add("tomatoes");
    list.place_after(potatoes.id, Some(tomatoes.id)).unwrap();
    assert_eq!(list_titles(&list), ["tomatoes", "potatoes"]);
    list.undo().unwrap();
    assert_eq!(list_titles(&list), ["potatoes", "tomatoes"]);
}

#[test]
fn committing_only_the_anchor_changes_nothing() {
    let mut server = ServerList::new();
    let mut list = server.snapshot();
    list.add("potatoes");
    server.commit(&list.changes_to_commit()).unwrap();
    let before = server.titles();

    let idle = server.snapshot();
    let out = server.commit(&idle.changes_to_commit()).unwrap();
    assert_eq!(out.len(), 0);
    assert_eq!(server.titles(), before);
}

#[test]
fn removing_a_missing_item_is_not_found() {
    let mut list = ServerList::new().snapshot();
    list.add("potatoes");
    assert_eq!(list.remove(Id::new(9, 9)).unwrap_err(), ListError::NotFound);
    assert_eq!(
        list.update(Id::new(9, 9), UpdateListItem::new().tick())
            .unwrap_err(),
        ListError::NotFound
    );
    assert_eq!(
        list.place_after(Id::new(9, 9), None).unwrap_err(),
        ListError::NotFound
    );
}

#[test]
fn retitling_onto_another_item_is_refused() {
    let mut list = ServerList::new().snapshot();
    list.add("apples");
    let beans = list.add("beans");
    assert_eq!(
        list.update(beans.id, UpdateListItem::new().title("apples"))
            .unwrap_err(),
        ListError::InvariantViolated
    );
    assert_eq!(list_titles(&list), ["apples", "beans"]);
}

#[test]
fn committing_an_empty_slice_is_refused() {
    let mut server = ServerList::new();
    let empty: Vec<Change> = vec![];
    assert_eq!(server.commit(&empty).unwrap_err(), ListError::CannotCommit);
}

#[test]
fn committing_an_unknown_anchor_is_refused() {
    let mut server = ServerList::new();
    let slice = vec![Change { id: 77, stamp: 0, operation: Operation::Root }];
    assert_eq!(server.commit(&slice).unwrap_err(), ListError::CannotCommit);
}

#[test]
fn malformed_id_text_is_invalid() {
    assert_eq!(Id::parse("potatoes").unwrap_err(), ListError::InvalidId);
}

#[test]
fn example_list_holds_the_demonstration_items() {
    let l = things_server::example_list();
    assert_eq!(l.name, "example");
    let values: Vec<&str> = l.items.iter().map(|i| i.value.as_str()).collect();
    assert_eq!(values, ["first", "second", "third"]);
}
