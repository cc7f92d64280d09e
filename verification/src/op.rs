//! Operations and log records.

use vstd::prelude::*;

use crate::id::Id;
use crate::item::{ItemView, ListItem};

verus! {

/// The mathematical model of an operation.
pub enum OpView {
    Root,
    Add(ItemView),
    Remove(int, ItemView),
    Edit(ItemView, ItemView),
    MoveTo { id: Id, old_loc: int, new_loc: int },
}

/// The operations of a sequence of records.
pub open spec fn ops_of(s: Seq<ChangeView>) -> Seq<OpView> {
    Seq::new(s.len(), |i: int| s[i].op)
}

/// One mutation of a list.
///
/// `Root` is the sentinel at the origin of a log; it is never applied.
/// `Remove` carries the index the item held when it was removed, so that a
/// revert can put it back in place.  `Edit` carries the replaced item in
/// full for the same reason.  `MoveTo` moves the item named by `id` from
/// `old_loc` to `new_loc`.
#[derive(Debug, PartialEq)]
pub enum Operation {
    Root,
    Add(ListItem),
    Remove(usize, ListItem),
    Edit(ListItem, ListItem),
    MoveTo { id: Id, old_loc: usize, new_loc: usize },
}

impl View for Operation {
    type V = OpView;

    open spec fn view(&self) -> OpView {
        match self {
            Operation::Root => OpView::Root,
            Operation::Add(item) => OpView::Add(item@),
            Operation::Remove(loc, item) => OpView::Remove(*loc as int, item@),
            Operation::Edit(old, new) => OpView::Edit(old@, new@),
            Operation::MoveTo { id, old_loc, new_loc } => OpView::MoveTo {
                id: *id,
                old_loc: *old_loc as int,
                new_loc: *new_loc as int,
            },
        }
    }
}

impl DeepView for Operation {
    type V = OpView;

    open spec fn deep_view(&self) -> OpView {
        self@
    }
}

impl Clone for Operation {
    fn clone(&self) -> (r: Self)
        ensures
            r == *self,
    {
        match self {
            Operation::Root => Operation::Root,
            Operation::Add(item) => Operation::Add(item.clone()),
            Operation::Remove(loc, item) => Operation::Remove(*loc, item.clone()),
            Operation::Edit(old, new) => Operation::Edit(old.clone(), new.clone()),
            Operation::MoveTo { id, old_loc, new_loc } => Operation::MoveTo {
                id: *id,
                old_loc: *old_loc,
                new_loc: *new_loc,
            },
        }
    }
}

/// The mathematical model of a log record.
pub struct ChangeView {
    pub id: u32,
    pub stamp: i64,
    pub op: OpView,
}

/// One record of a change log: an operation with the log-local sequence
/// number `id` and a wall-clock timestamp.
#[derive(Debug, PartialEq)]
pub struct Change {
    pub id: u32,
    pub stamp: i64,
    pub operation: Operation,
}

impl View for Change {
    type V = ChangeView;

    open spec fn view(&self) -> ChangeView {
        ChangeView { id: self.id, stamp: self.stamp, op: self.operation@ }
    }
}

impl DeepView for Change {
    type V = ChangeView;

    open spec fn deep_view(&self) -> ChangeView {
        self@
    }
}

impl Clone for Change {
    fn clone(&self) -> (r: Self)
        ensures
            r == *self,
    {
        Change { id: self.id, stamp: self.stamp, operation: self.operation.clone() }
    }
}

/// Relies on `chrono::Utc::now` and `chrono::DateTime::timestamp_millis`:
/// the current wall-clock time, as milliseconds since the Unix epoch.
/// Nothing is assumed of the returned value.  `Utc::now` panics on a system
/// clock set before the Unix epoch, an environment fault on a par with a
/// hardware fault.
#[verifier::external_body]
fn now_stamp() -> i64 {
    chrono::Utc::now().timestamp_millis()
}

impl Change {
    /// The root sentinel record that starts a fresh log.
    pub(crate) fn root() -> (r: Self)
        ensures
            r.id == 0,
            r.operation@ == OpView::Root,
    {
        Change { id: 0, stamp: now_stamp(), operation: Operation::Root }
    }

    /// A record numbered `id` for `operation`, stamped with the current time.
    pub(crate) fn new(id: u32, operation: Operation) -> (r: Self)
        ensures
            r.id == id,
            r.operation == operation,
    {
        Change { id, stamp: now_stamp(), operation }
    }
}

} // verus!
