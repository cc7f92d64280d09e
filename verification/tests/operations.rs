//! Local operations on a single replica.

use things_server::item::UpdateListItem;
use things_server::list::List;
use things_server::server::ServerList;

fn list_titles(list: &List) -> Vec<String> {
    list.titles()
}

#[test]
fn add_remove_add_gives_new_item() {
    let mut list = ServerList::new().snapshot();
    let potatoes1 = list.add("potatoes");
    list.remove(potatoes1.id).unwrap();
    let potatoes2 = list.add("potatoes");
    assert_ne!(potatoes1, potatoes2);
}

#[test]
fn remove_by_item() {
    let mut list = ServerList::new().snapshot();
    let potatoes = list.add("potatoes");
    list.add("carrots");
    list.remove(potatoes.into()).unwrap();
    assert_eq!(list_titles(&list), ["carrots"]);
}

#[test]
fn add_add_gives_same_item() {
    let mut list = ServerList::new().snapshot();
    let potatoes1 = list.add("potatoes");
    let potatoes2 = list.add("potatoes");
    assert_eq!(potatoes1, potatoes2);
}

#[test]
fn edit_an_item() {
    let mut list = ServerList::new().snapshot();
    let potatoes = list.add("potatoes");
    list.update(potatoes.into(), UpdateListItem::new().title("potato"))
        .unwrap();
    assert_eq!(list_titles(&list), ["potato"]);
}

#[test]
fn move_an_item() {
    let mut list = ServerList::new().snapshot();
    let potatoes = list.add("potatoes");
    let tomatoes = list.add("tomatoes");
    list.add("crisps");

    assert_eq!(list_titles(&list), ["potatoes", "tomatoes", "crisps"]);
    list.place_after(potatoes.id, Some(tomatoes.id)).unwrap();
    assert_eq!(list_titles(&list), ["tomatoes", "potatoes", "crisps"]);
}

#[test]
fn move_item_to_start() {
    let mut list = ServerList::new().snapshot();
    let potatoes = list.add("potatoes");
    let tomatoes = list.add("tomatoes");
    list.add("crisps");

    assert_eq!(list_titles(&list), ["potatoes", "tomatoes", "crisps"]);
    list.place_after(tomatoes.id, None).unwrap();
    assert_eq!(list_titles(&list), ["tomatoes", "potatoes", "crisps"]);
}

#[test]
fn move_first_item_to_start_changes_nothing() {
    let mut list = ServerList::new().snapshot();
    let potatoes = list.add("potatoes");
    list.add("tomatoes");
    list.place_after(potatoes.id, None).unwrap();
    assert_eq!(list_titles(&list), ["potatoes", "tomatoes"]);
}

#[test]
fn tick_and_untick_set_the_done_flag() {
    let mut list = ServerList::new().snapshot();
    let potatoes = list.add("potatoes");
    assert!(!potatoes.done);
    let ticked = list
        .update(potatoes.id, UpdateListItem::new().tick())
        .unwrap();
    assert!(ticked.done);
    assert_eq!(ticked.title, "potatoes");
    let unticked = list
        .update(potatoes.id, UpdateListItem::new().untick())
        .unwrap();
    assert!(!unticked.done);
}

#[test]
fn titles_stay_unique() {
    let mut list = ServerList::new().snapshot();
    list.add("potatoes");
    list.add("tomatoes");
    list.add("potatoes");
    list.add("tomatoes");
    assert_eq!(list_titles(&list), ["potatoes", "tomatoes"]);
}

#[test]
fn ids_stay_unique() {
    let mut list = ServerList::new().snapshot();
    let a = list.add("potatoes");
    let b = list.add("tomatoes");
    list.remove(a.id).unwrap();
    let c = list.add("potatoes");
    assert_ne!(b.id, c.id);
    assert_ne!(a.id, c.id);
    let items = list.items();
    for i in 0..items.len() {
        for j in i + 1..items.len() {
            assert_ne!(items[i].id, items[j].id);
            assert_ne!(items[i].title, items[j].title);
        }
    }
}
