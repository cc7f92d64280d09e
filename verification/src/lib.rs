//! A collaborative, replicated shopping list.
//!
//! Clients fork a snapshot of an authoritative root list, edit it locally as
//! an ordered log of operations, and later push those operations back for
//! commit.  The root rebases incoming operations against the ones it has
//! confirmed in the meantime, so that concurrent edits converge.

pub mod errors;
pub mod id;
pub mod item;
pub mod list;
pub mod log;
pub mod op;
pub mod server;
pub mod state;
pub mod transform;

use vstd::prelude::*;

verus! {

/// A list snapshot as served to read-only clients.
pub struct List {
    pub name: String,
    pub items: Vec<Item>,
}

/// One entry of a [`List`] snapshot.
pub struct Item {
    pub value: String,
}

/// Builds the demonstration list served on the read-only endpoint.
pub fn example_list() -> (l: List)
    ensures
        l.name@ == "example"@,
        l.items@.len() == 3,
        l.items@[0].value@ == "first"@,
        l.items@[1].value@ == "second"@,
        l.items@[2].value@ == "third"@,
{
    let mut items: Vec<Item> = Vec::new();
    items.push(Item { value: String::from_str("first") });
    items.push(Item { value: String::from_str("second") });
    items.push(Item { value: String::from_str("third") });
    List { name: String::from_str("example"), items }
}

} // verus!
