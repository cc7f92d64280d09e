//! List items and partial updates.

use vstd::prelude::*;

use crate::id::Id;

verus! {

/// The mathematical model of an item: its identifier, its title as a
/// character sequence, and its done flag.
pub struct ItemView {
    pub id: Id,
    pub title: Seq<char>,
    pub done: bool,
}

/// One entry of a replicated list.
#[derive(Debug, PartialEq)]
pub struct ListItem {
    pub id: Id,
    pub title: String,
    pub done: bool,
}

impl View for ListItem {
    type V = ItemView;

    open spec fn view(&self) -> ItemView {
        ItemView { id: self.id, title: self.title@, done: self.done }
    }
}

impl DeepView for ListItem {
    type V = ItemView;

    open spec fn deep_view(&self) -> ItemView {
        self@
    }
}

impl Clone for ListItem {
    fn clone(&self) -> (r: Self)
        ensures
            r == *self,
    {
        ListItem { id: self.id, title: self.title.clone(), done: self.done }
    }
}

impl From<ListItem> for Id {
    /// An item converts to the identifier it carries.
    fn from(item: ListItem) -> (r: Id)
        ensures
            r == item.id,
    {
        item.id
    }
}

impl vstd::std_specs::convert::FromSpecImpl<ListItem> for Id {
    open spec fn obeys_from_spec() -> bool {
        true
    }

    open spec fn from_spec(item: ListItem) -> Id {
        item.id
    }
}

/// The view of a sequence of items.
pub open spec fn items_deep(s: Seq<ListItem>) -> Seq<ItemView> {
    Seq::new(s.len(), |i: int| s[i]@)
}

/// A partial update of an item: fields left unset keep the old value.
pub struct UpdateListItem {
    title: Option<String>,
    done: Option<bool>,
}

impl UpdateListItem {
    /// The spec-level title change, if any.
    pub closed spec fn title_change(&self) -> Option<Seq<char>> {
        match self.title {
            Some(ref t) => Some(t@),
            None => None,
        }
    }

    /// The spec-level done change, if any.
    pub closed spec fn done_change(&self) -> Option<bool> {
        self.done
    }

    /// The item that results from applying this update to `old`.
    pub open spec fn updated(&self, old: ItemView) -> ItemView {
        ItemView {
            id: old.id,
            title: match self.title_change() {
                Some(t) => t,
                None => old.title,
            },
            done: match self.done_change() {
                Some(d) => d,
                None => old.done,
            },
        }
    }

    /// An empty update: applying it leaves an item unchanged.
    pub fn new() -> (r: Self)
        ensures
            r.title_change() is None,
            r.done_change() is None,
    {
        UpdateListItem { title: None, done: None }
    }

    /// Sets the new title.
    pub fn title(self, title: &str) -> (r: Self)
        ensures
            r.title_change() == Some(title@),
            r.done_change() == self.done_change(),
    {
        UpdateListItem { title: Some(String::from_str(title)), done: self.done }
    }

    /// Marks the item done.
    pub fn tick(self) -> (r: Self)
        ensures
            r.title_change() == self.title_change(),
            r.done_change() == Some(true),
    {
        self.done(true)
    }

    /// Marks the item not done.
    pub fn untick(self) -> (r: Self)
        ensures
            r.title_change() == self.title_change(),
            r.done_change() == Some(false),
    {
        self.done(false)
    }

    /// Sets the done flag.
    pub fn done(self, done: bool) -> (r: Self)
        ensures
            r.title_change() == self.title_change(),
            r.done_change() == Some(done),
    {
        UpdateListItem { title: self.title, done: Some(done) }
    }

    /// Builds the item that replaces `old`, taking each set field of the
    /// update and keeping the rest.
    pub(crate) fn update(self, old: &ListItem) -> (r: ListItem)
        ensures
            r@ == self.updated(old@),
    {
        let title = match self.title {
            Some(t) => t,
            None => old.title.clone(),
        };
        let done = match self.done {
            Some(d) => d,
            None => old.done,
        };
        ListItem { id: old.id, title, done }
    }
}

} // verus!
