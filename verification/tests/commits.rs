//! Committing replica changes to the root, with and without conflicts.

use things_server::item::UpdateListItem;
use things_server::list::List;
use things_server::server::ServerList;

fn list_titles(list: &List) -> Vec<String> {
    list.titles()
}

fn root_titles(server: &ServerList) -> Vec<String> {
    server.titles()
}

#[test]
fn commit_with_no_intervening_changes() {
    let mut server = ServerList::new();
    let mut list = server.snapshot();
    list.add("potatoes");
    let changes_in = list.changes_to_commit();
    let changes_out = server.commit(&changes_in).unwrap();
    assert_eq!(changes_out.len(), 1);

    let list = server.snapshot();
    assert_eq!(list_titles(&list), vec!["potatoes"]);
}

#[test]
fn commit_adds() {
    let mut server = ServerList::new();
    let mut list1 = server.snapshot();
    let mut list2 = server.snapshot();
    list1.add("potatoes");
    list2.add("tomatoes");
    let changes_out1 = server.commit(&list1.changes_to_commit()).unwrap();
    assert_eq!(changes_out1.len(), 1);
    let changes_out2 = server.commit(&list2.changes_to_commit()).unwrap();
    assert_eq!(changes_out2.len(), 2);

    let list = server.snapshot();
    assert_eq!(list_titles(&list), vec!["potatoes", "tomatoes"]);
}

#[test]
fn commit_changes_back_to_list() {
    let mut server = ServerList::new();
    let mut list1 = server.snapshot();
    list1.add("potatoes");
    let changes_in = list1.changes_to_commit();
    assert_eq!(changes_in.len(), 2);
    let changes_out = server.commit(&changes_in).unwrap();
    list1.apply_commit(&changes_out).unwrap();

    assert_eq!(list1.changes_to_commit().len(), 1);
}

#[test]
fn two_conflicting_adds() {
    let mut server = ServerList::new();
    let mut list1 = server.snapshot();
    let mut list2 = server.snapshot();
    list1.add("apples");
    list2.add("apples");

    let changes1 = server.commit(&list1.changes_to_commit()).unwrap();
    let changes2 = server.commit(&list2.changes_to_commit()).unwrap();

    assert_eq!(changes1, changes2);
}

#[test]
fn conflicting_add_then_edit() {
    let mut server = ServerList::new();
    let mut list1 = server.snapshot();
    let mut list2 = server.snapshot();
    list1.add("apples");
    let item = list2.add("apples");
    list2
        .update(item.into(), UpdateListItem::new().title("beans"))
        .unwrap();

    let changes1 = server.commit(&list1.changes_to_commit()).unwrap();
    let changes2 = server.commit(&list2.changes_to_commit()).unwrap();

    assert_eq!(changes1.len(), 1);
    assert_eq!(changes2.len(), 2);

    assert_eq!(root_titles(&server), vec!["apples", "beans"]);
}

#[test]
fn conflicting_add_on_edit() {
    let mut server = ServerList::new();
    let mut list1 = server.snapshot();
    let mut list2 = server.snapshot();
    let item = list1.add("apples");
    list1
        .update(item.into(), UpdateListItem::new().title("beans"))
        .unwrap();
    list2.add("beans");

    let changes1 = server.commit(&list1.changes_to_commit()).unwrap();
    let changes2 = server.commit(&list2.changes_to_commit()).unwrap();

    assert_eq!(changes1, changes2);
}

#[test]
fn conflicting_add_then_edits_on_both() {
    let mut server = ServerList::new();
    let mut list1 = server.snapshot();
    let mut list2 = server.snapshot();

    let item = list1.add("apples");
    list1
        .update(item.into(), UpdateListItem::new().title("beans"))
        .unwrap();

    let item = list2.add("beans");
    list2
        .update(item.into(), UpdateListItem::new().title("apples"))
        .unwrap();

    let changes1 = server.commit(&list1.changes_to_commit()).unwrap();
    let changes2 = server.commit(&list2.changes_to_commit()).unwrap();

    assert_eq!(changes1.len(), 1);
    assert_eq!(changes2.len(), 2);

    assert_eq!(root_titles(&server), vec!["beans", "apples"]);
}

#[test]
fn commit_a_move() {
    let mut server = ServerList::new();
    let mut list = server.snapshot();
    let potatoes = list.add("potatoes");
    let tomatoes = list.add("tomatoes");
    list.place_after(potatoes.id, Some(tomatoes.id)).unwrap();
    server.commit(&list.changes_to_commit()).unwrap();
    assert_eq!(root_titles(&server), vec!["tomatoes", "potatoes"]);
}

#[test]
fn commit_a_remove() {
    let mut server = ServerList::new();
    let mut list = server.snapshot();
    let potatoes = list.add("potatoes");
    list.add("tomatoes");
    server.commit(&list.changes_to_commit()).unwrap();

    let mut list2 = server.snapshot();
    list2.remove(potatoes.id).unwrap();
    server.commit(&list2.changes_to_commit()).unwrap();
    assert_eq!(root_titles(&server), vec!["tomatoes"]);
}

#[test]
fn converged_replicas_match_the_root() {
    let mut server = ServerList::new();
    let mut list1 = server.snapshot();
    let mut list2 = server.snapshot();
    list1.add("apples");
    list2.add("apples");

    let changes1 = server.commit(&list1.changes_to_commit()).unwrap();
    let changes2 = server.commit(&list2.changes_to_commit()).unwrap();
    list1.apply_commit(&changes1).unwrap();
    list2.apply_commit(&changes2).unwrap();

    assert_eq!(list_titles(&list1), root_titles(&server));
    assert_eq!(list_titles(&list2), root_titles(&server));
    assert_eq!(list_titles(&list1), list_titles(&list2));
}
