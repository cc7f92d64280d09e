//! A replica of the list: the items paired with their change log.
//!
//! The replica's invariant ties the two together: the ghost history holds
//! the item state at every log position, each logged record applies one
//! history state to the next, and the visible items are the state at the
//! head cursor.  Undo and redo walk that history; commits replace the local
//! tail by the records the root accepted.

use vstd::prelude::*;

use crate::errors::ListError;
use crate::id::Id;
use crate::item::{items_deep, ItemView, ListItem, UpdateListItem};
use crate::log::{ascending_from, check_ascending, log_wf, records_deep, ChangeLog, LogView};
use crate::op::{ops_of, Change, ChangeView, Operation, OpView};
use crate::state::{
    apply_err, apply_norm, apply_ops, apply_result, batch_err, contains_id, contains_title,
    ids_below, idx_of_id, idx_of_title, lemma_apply_ids_below, lemma_apply_norm_prefix_fail,
    lemma_apply_normalizes, lemma_apply_then_revert, lemma_chain_determined,
    lemma_chain_to_apply_norm, lemma_idx_of_id, lemma_idx_of_title, move_seq, revert_result,
    wf_items,
};

verus! {

/// A local, mutable fork of the list.
pub struct List {
    pub(crate) agent_id: u32,
    pub(crate) max_item_id: u32,
    pub(crate) items: Vec<ListItem>,
    pub(crate) changes: ChangeLog,
    pub(crate) hist: Ghost<Seq<Seq<ItemView>>>,
}

impl List {
    /// The current items, as their mathematical model.
    pub closed spec fn items_view(&self) -> Seq<ItemView> {
        items_deep(self.items@)
    }

    /// The change log, as its mathematical model.
    pub closed spec fn log_view(&self) -> LogView {
        self.changes@
    }

    /// The item state at every log position: `states()[k]` is the list as
    /// it stood after the records up to position `k`.
    pub closed spec fn states(&self) -> Seq<Seq<ItemView>> {
        self.hist@
    }

    /// The agent identifier this replica stamps on the items it creates.
    pub closed spec fn agent(&self) -> u32 {
        self.agent_id
    }

    /// The largest item counter this replica has used.
    pub closed spec fn max_local(&self) -> u32 {
        self.max_item_id
    }

    /// Whether the head cursor sits on the newest record.
    pub open spec fn at_head(&self) -> bool {
        self.log_view().head == self.log_view().records.len() - 1
    }

    /// The replica invariant, without the freshness of this agent's item
    /// counters: the log is well formed, the history matches it record for
    /// record, and the visible items are the history state at the head.
    pub open spec fn inv_core(&self) -> bool {
        &&& log_wf(self.log_view())
        &&& self.states().len() == self.log_view().records.len()
        &&& self.items_view() == self.states()[self.log_view().head]
        &&& forall|k: int|
            0 <= k < self.states().len() ==> wf_items(#[trigger] self.states()[k])
        &&& forall|k: int|
            1 <= k < self.states().len() ==> apply_result(
                self.states()[k - 1],
                (#[trigger] self.log_view().records[k]).op,
            ) == Some((self.states()[k], self.log_view().records[k].op))
    }

    /// The replica invariant: the core invariant, and no item this agent
    /// created carries a counter above `max_local`, so minting
    /// `max_local + 1` always yields a fresh identifier.
    pub open spec fn inv(&self) -> bool {
        &&& self.inv_core()
        &&& ids_below(self.states().last(), self.agent(), self.max_local())
    }

    /// A fresh, empty list for `agent`, with only the root sentinel logged.
    pub(crate) fn make(agent: u32) -> (r: Self)
        ensures
            r.inv(),
            r.agent() == agent,
            r.max_local() == 0,
            r.items_view() =~= Seq::<ItemView>::empty(),
            r.log_view().records.len() == 1,
            r.log_view().records[0].id == 0,
            r.log_view().records[0].op == OpView::Root,
            r.log_view().fork == 0,
            r.log_view().head == 0,
    {
        let ghost states: Seq<Seq<ItemView>> = seq![Seq::empty()];
        let r = List {
            agent_id: agent,
            max_item_id: 0,
            items: Vec::new(),
            changes: ChangeLog::new(),
            hist: Ghost(states),
        };
        proof {
            assert(r.items_view() =~= Seq::<ItemView>::empty());
        }
        r
    }

    /// A fresh replica for `agent`, branched from this list's current state:
    /// it copies the items and anchors its log on this list's newest record.
    pub(crate) fn fork_from(&self, agent: u32) -> (r: Self)
        requires
            self.inv(),
        ensures
            r.inv(),
            r.agent() == agent,
            r.items_view() == self.items_view(),
            r.log_view().records =~= seq![self.log_view().records.last()],
            r.log_view().fork == 0,
            r.log_view().head == 0,
            r.states() =~= seq![self.items_view()],
            r.max_local() == 0 || exists|k: int|
                0 <= k < self.items_view().len() && (#[trigger] self.items_view()[k]).id.agent
                    == agent && self.items_view()[k].id.id == r.max_local(),
    {
        let items = clone_items(&self.items);
        let anchor = self.changes.last_record();
        let max_item_id = max_local_of(&items, agent);
        let ghost states: Seq<Seq<ItemView>> = seq![self.items_view()];
        let r = List {
            agent_id: agent,
            max_item_id,
            items,
            changes: ChangeLog::forked(anchor),
            hist: Ghost(states),
        };
        proof {
            assert(r.items_view() == self.items_view());
            assert(r.log_view().records =~= seq![self.log_view().records.last()]);
            assert(r.states().last() == r.items_view());
        }
        r
    }
}

/// Whether `post` is `pre` with exactly one record pushed: the log grew by
/// one, the head advanced onto the new record, the fork stayed, and the
/// history gained the new item state.
pub open spec fn pushed_op(pre: List, post: List) -> bool {
    &&& post.log_view().records.len() == pre.log_view().records.len() + 1
    &&& post.log_view().records.drop_last() == pre.log_view().records
    &&& post.log_view().records.last().id == pre.log_view().records.last().id + 1
    &&& post.log_view().head == pre.log_view().head + 1
    &&& post.log_view().fork == pre.log_view().fork
    &&& post.states() == pre.states().push(post.items_view())
    &&& post.agent() == pre.agent()
}

/// Whether `post` shows the same state as `pre`: same items, same log, same
/// history, same counters.
pub open spec fn same_state(pre: List, post: List) -> bool {
    &&& post.items_view() == pre.items_view()
    &&& post.log_view() == pre.log_view()
    &&& post.states() == pre.states()
    &&& post.agent() == pre.agent()
    &&& post.max_local() == pre.max_local()
}

/// Whether `post` is `pre` after one successful undo: the head stepped back
/// one record, everything else stayed, and the items are the history state
/// the head now sits on.
pub open spec fn undo_step(pre: List, post: List) -> bool {
    &&& pre.log_view().head > pre.log_view().fork
    &&& post.log_view().records == pre.log_view().records
    &&& post.log_view().fork == pre.log_view().fork
    &&& post.log_view().head == pre.log_view().head - 1
    &&& post.states() == pre.states()
    &&& post.agent() == pre.agent()
    &&& post.max_local() == pre.max_local()
    &&& post.items_view() == pre.states()[pre.log_view().head - 1]
}

/// Whether `post` is `pre` after one successful redo: the head advanced one
/// record, everything else stayed, and the items are the history state the
/// head now sits on.
pub open spec fn redo_step(pre: List, post: List) -> bool {
    &&& pre.log_view().head < pre.log_view().records.len() - 1
    &&& post.log_view().records == pre.log_view().records
    &&& post.log_view().fork == pre.log_view().fork
    &&& post.log_view().head == pre.log_view().head + 1
    &&& post.states() == pre.states()
    &&& post.agent() == pre.agent()
    &&& post.max_local() == pre.max_local()
    &&& post.items_view() == pre.states()[pre.log_view().head + 1]
}

/// Undo then redo is the identity: taking one operation back and replaying
/// it leaves the items, the log, and every cursor exactly where they were.
pub proof fn lemma_undo_redo_inverse(pre: List, mid: List, post: List)
    requires
        pre.inv(),
        undo_step(pre, mid),
        redo_step(mid, post),
    ensures
        post.items_view() == pre.items_view(),
        post.log_view() == pre.log_view(),
        post.states() == pre.states(),
        post.max_local() == pre.max_local(),
{
    assert(pre.items_view() == pre.states()[pre.log_view().head]);
}

/// Undo stops at the fork.  A run of successful undos — `trace` holds the
/// replica before the first and after each one — steps the head down one
/// record at a time, so it can be no longer than `head - fork`; the run
/// that takes exactly `head - fork` steps leaves the head on the fork,
/// where [`List::undo`] yields nothing but `NoMoreOps`.
pub proof fn lemma_undo_stops_at_fork(trace: Seq<List>)
    requires
        trace.len() >= 1,
        trace[0].log_view().fork <= trace[0].log_view().head,
        forall|k: int| 1 <= k < trace.len() ==> undo_step(trace[k - 1], #[trigger] trace[k]),
    ensures
        trace.len() - 1 <= trace[0].log_view().head - trace[0].log_view().fork,
        trace.last().log_view().head == trace[0].log_view().head - (trace.len() - 1),
        trace.last().log_view().fork == trace[0].log_view().fork,
        trace.len() - 1 == trace[0].log_view().head - trace[0].log_view().fork
            ==> trace.last().log_view().head == trace.last().log_view().fork,
    decreases trace.len(),
{
    if trace.len() > 1 {
        let shorter = trace.drop_last();
        assert(forall|k: int|
            1 <= k < shorter.len() ==> undo_step(shorter[k - 1], #[trigger] shorter[k])) by {
            assert(forall|k: int| 0 <= k < shorter.len() ==> #[trigger] shorter[k] == trace[k]);
        }
        lemma_undo_stops_at_fork(shorter);
        assert(shorter[0] == trace[0]);
        assert(shorter.last() == trace[trace.len() - 2]);
        assert(undo_step(trace[trace.len() - 2], trace.last()));
        assert(trace[trace.len() - 2].log_view().head > trace[trace.len() - 2].log_view().fork);
    }
}

/// The destination index of a move that puts the item at `p` directly after
/// the item at `q`.
pub open spec fn place_dest(p: int, q: int) -> int {
    if p <= q {
        q
    } else {
        q + 1
    }
}

impl List {
    /// Pushes a record for `op` and applies it.  The caller warrants that
    /// `op` applies cleanly to the current items and is its own normalized
    /// form, as every locally built operation is.
    fn push_apply(&mut self, op: Operation)
        requires
            old(self).inv(),
            old(self).at_head(),
            old(self).log_view().records.last().id < u32::MAX,
            apply_result(old(self).items_view(), op@) is Some,
            apply_result(old(self).items_view(), op@)->Some_0.1 == op@,
            ids_below(
                apply_result(old(self).items_view(), op@)->Some_0.0,
                old(self).agent(),
                old(self).max_local(),
            ),
        ensures
            final(self).inv(),
            final(self).at_head(),
            pushed_op(*old(self), *final(self)),
            final(self).log_view().records.last().op == op@,
            final(self).items_view() == apply_result(old(self).items_view(), op@)->Some_0.0,
            final(self).max_local() == old(self).max_local(),
    {
        let ghost pre = *self;
        let ghost op_v = op@;
        proof {
            lemma_apply_then_revert(pre.items_view(), op_v);
        }
        let c = self.changes.push(op);
        let r = apply_change(&mut self.items, &c);
        match r {
            Ok(_) => {},
            Err(_) => {
                proof {
                    assert(false);
                }
            },
        }
        let ghost states = self.hist@.push(items_deep(self.items@));
        self.hist = Ghost(states);
        proof {
            let post = *self;
            assert(post.log_view().records.drop_last() =~= pre.log_view().records);
            assert(post.states().drop_last() =~= pre.states());
            assert forall|k: int|
                1 <= k < post.states().len() implies apply_result(
                post.states()[k - 1],
                (#[trigger] post.log_view().records[k]).op,
            ) == Some((post.states()[k], post.log_view().records[k].op)) by {
                if k < post.states().len() - 1 {
                    assert(post.log_view().records[k] == pre.log_view().records[k]);
                    assert(post.states()[k - 1] == pre.states()[k - 1]);
                    assert(post.states()[k] == pre.states()[k]);
                } else {
                    assert(post.states()[k - 1] == pre.states()[pre.states().len() - 1]);
                    assert(pre.items_view() == pre.states().last());
                }
            }
            assert(post.states().last() == post.items_view());
        }
    }

    /// Returns the item titled `title`, creating it at the tail of the list
    /// if no item carries that title yet.  A fresh item gets the next local
    /// identifier and is logged as an `Add`; an existing item is returned
    /// unchanged, and nothing is logged.
    pub fn add(&mut self, title: &str) -> (r: ListItem)
        requires
            old(self).inv(),
            old(self).at_head(),
            old(self).max_local() < u32::MAX,
            old(self).log_view().records.last().id < u32::MAX,
        ensures
            final(self).inv(),
            final(self).at_head(),
            final(self).agent() == old(self).agent(),
            contains_title(old(self).items_view(), title@) ==> {
                &&& same_state(*old(self), *final(self))
                &&& r@ == old(self).items_view()[idx_of_title(old(self).items_view(), title@)]
            },
            !contains_title(old(self).items_view(), title@) ==> {
                &&& r@ == (ItemView {
                    id: Id { agent: old(self).agent(), id: (old(self).max_local() + 1) as u32 },
                    title: title@,
                    done: false,
                })
                &&& pushed_op(*old(self), *final(self))
                &&& final(self).log_view().records.last().op == OpView::Add(r@)
                &&& final(self).items_view() == old(self).items_view().push(r@)
                &&& final(self).max_local() == old(self).max_local() + 1
            },
    {
        let ghost s = self.items_view();
        let title_string = String::from_str(title);
        match find_by_title(&self.items, &title_string) {
            Some(p) => {
                proof {
                    lemma_idx_of_title(s, p as int);
                }
                self.items[p].clone()
            },
            None => {
                self.max_item_id = self.max_item_id + 1;
                let item = ListItem {
                    id: Id { agent: self.agent_id, id: self.max_item_id },
                    title: title_string,
                    done: false,
                };
                let r = item.clone();
                proof {
                    assert(!contains_id(s, item@.id)) by {
                        if contains_id(s, item@.id) {
                            let k = idx_of_id(s, item@.id);
                            assert(0 <= k < s.len() && s[k].id == item@.id);
                        }
                    }
                    assert(apply_result(s, OpView::Add(item@)) == Some(
                        (s.push(item@), OpView::Add(item@)),
                    ));
                    lemma_apply_ids_below(s, OpView::Add(item@), self.agent_id, self.max_item_id);
                }
                self.push_apply(Operation::Add(item));
                r
            },
        }
    }

    /// Removes the item carrying `id`, logging a `Remove` that remembers
    /// its position, and returns it.  A missing identifier is `NotFound`.
    pub fn remove(&mut self, id: Id) -> (r: Result<ListItem, ListError>)
        requires
            old(self).inv(),
            old(self).at_head(),
            old(self).log_view().records.last().id < u32::MAX,
        ensures
            final(self).inv(),
            final(self).at_head(),
            final(self).agent() == old(self).agent(),
            match r {
                Ok(item) => {
                    let s = old(self).items_view();
                    let p = idx_of_id(s, id);
                    &&& contains_id(s, id)
                    &&& item@ == s[p]
                    &&& pushed_op(*old(self), *final(self))
                    &&& final(self).log_view().records.last().op == OpView::Remove(p, item@)
                    &&& final(self).items_view() == s.remove(p)
                    &&& final(self).max_local() == old(self).max_local()
                },
                Err(e) => {
                    &&& e == ListError::NotFound
                    &&& !contains_id(old(self).items_view(), id)
                    &&& same_state(*old(self), *final(self))
                },
            },
    {
        let ghost s = self.items_view();
        let p = match find_by_id(&self.items, id) {
            Some(p) => p,
            None => {
                return Err(ListError::NotFound);
            },
        };
        proof {
            lemma_idx_of_id(s, p as int);
        }
        let item = self.items[p].clone();
        let op = Operation::Remove(p, item.clone());
        proof {
            assert(apply_result(s, op@) == Some((s.remove(p as int), op@)));
            lemma_apply_ids_below(s, op@, self.agent_id, self.max_item_id);
        }
        self.push_apply(op);
        Ok(item)
    }

    /// Replaces the item carrying `id` by the result of `update`, logging an
    /// `Edit` that remembers the replaced item.  A missing identifier is
    /// `NotFound`; retitling the item to a title another item already holds
    /// is `InvariantViolated`.
    pub fn update(&mut self, id: Id, update: UpdateListItem) -> (r: Result<ListItem, ListError>)
        requires
            old(self).inv(),
            old(self).at_head(),
            old(self).log_view().records.last().id < u32::MAX,
        ensures
            final(self).inv(),
            final(self).at_head(),
            final(self).agent() == old(self).agent(),
            match r {
                Ok(item) => {
                    let s = old(self).items_view();
                    let p = idx_of_id(s, id);
                    &&& contains_id(s, id)
                    &&& item@ == update.updated(s[p])
                    &&& pushed_op(*old(self), *final(self))
                    &&& final(self).log_view().records.last().op == OpView::Edit(s[p], item@)
                    &&& final(self).items_view() == s.update(p, item@)
                    &&& final(self).max_local() == old(self).max_local()
                },
                Err(e) => {
                    let s = old(self).items_view();
                    &&& same_state(*old(self), *final(self))
                    &&& !contains_id(s, id) ==> e == ListError::NotFound
                    &&& contains_id(s, id) ==> {
                        let new = update.updated(s[idx_of_id(s, id)]);
                        &&& e == ListError::InvariantViolated
                        &&& new.title != s[idx_of_id(s, id)].title
                        &&& contains_title(s, new.title)
                    }
                },
            },
    {
        let ghost s = self.items_view();
        let p = match find_by_id(&self.items, id) {
            Some(p) => p,
            None => {
                return Err(ListError::NotFound);
            },
        };
        proof {
            lemma_idx_of_id(s, p as int);
        }
        let old_item = self.items[p].clone();
        let new_item = update.update(&old_item);
        let same_title = new_item.title == self.items[p].title;
        if !same_title {
            if let Some(_) = find_by_title(&self.items, &new_item.title) {
                return Err(ListError::InvariantViolated);
            }
        }
        let r = new_item.clone();
        let op = Operation::Edit(old_item, new_item);
        proof {
            assert(apply_result(s, op@) == Some((s.update(p as int, r@), op@)));
            lemma_apply_ids_below(s, op@, self.agent_id, self.max_item_id);
        }
        self.push_apply(op);
        Ok(r)
    }

    /// Moves the item carrying `move_id` to sit directly after the item
    /// carrying `after_id`, or to the front of the list when `after_id` is
    /// `None`, logging a `MoveTo`.  Either identifier missing is `NotFound`.
    pub fn place_after(&mut self, move_id: Id, after_id: Option<Id>) -> (r: Result<(), ListError>)
        requires
            old(self).inv(),
            old(self).at_head(),
            old(self).log_view().records.last().id < u32::MAX,
        ensures
            final(self).inv(),
            final(self).at_head(),
            final(self).agent() == old(self).agent(),
            final(self).max_local() == old(self).max_local(),
            match r {
                Ok(_) => {
                    let s = old(self).items_view();
                    let p = idx_of_id(s, move_id);
                    &&& contains_id(s, move_id)
                    &&& match after_id {
                        Some(a) => {
                            let d = place_dest(p, idx_of_id(s, a));
                            &&& contains_id(s, a)
                            &&& pushed_op(*old(self), *final(self))
                            &&& final(self).log_view().records.last().op == (OpView::MoveTo {
                                id: move_id,
                                old_loc: p,
                                new_loc: d,
                            })
                            &&& final(self).items_view() == move_seq(s, p, d)
                        },
                        None => {
                            &&& p == 0 ==> same_state(*old(self), *final(self))
                            &&& p != 0 ==> {
                                &&& pushed_op(*old(self), *final(self))
                                &&& final(self).log_view().records.last().op == (OpView::MoveTo {
                                    id: move_id,
                                    old_loc: p,
                                    new_loc: 0,
                                })
                                &&& final(self).items_view() == move_seq(s, p, 0)
                            }
                        },
                    }
                },
                Err(e) => {
                    &&& e == ListError::NotFound
                    &&& !(contains_id(old(self).items_view(), move_id) && (after_id matches Some(a)
                        ==> contains_id(old(self).items_view(), a)))
                    &&& same_state(*old(self), *final(self))
                },
            },
    {
        let ghost s = self.items_view();
        let p = match find_by_id(&self.items, move_id) {
            Some(p) => p,
            None => {
                return Err(ListError::NotFound);
            },
        };
        proof {
            lemma_idx_of_id(s, p as int);
        }
        let new_loc: usize = match after_id {
            Some(a) => {
                let q = match find_by_id(&self.items, a) {
                    Some(q) => q,
                    None => {
                        return Err(ListError::NotFound);
                    },
                };
                proof {
                    lemma_idx_of_id(s, q as int);
                }
                if p <= q {
                    q
                } else {
                    q + 1
                }
            },
            None => {
                if p == 0 {
                    return Ok(());
                }
                0
            },
        };
        let op = Operation::MoveTo { id: move_id, old_loc: p, new_loc };
        proof {
            assert(apply_result(s, op@) == Some((move_seq(s, p as int, new_loc as int), op@)));
            lemma_apply_ids_below(s, op@, self.agent_id, self.max_item_id);
        }
        self.push_apply(op);
        Ok(())
    }

    /// Takes back the newest local operation: reverts it on the items and
    /// steps the head down, keeping the record for redo.  At the fork there
    /// is nothing local left, and undo is `NoMoreOps`.
    pub fn undo(&mut self) -> (r: Result<Change, ListError>)
        requires
            old(self).inv(),
        ensures
            final(self).inv(),
            final(self).agent() == old(self).agent(),
            match r {
                Ok(c) => {
                    &&& undo_step(*old(self), *final(self))
                    &&& c@ == old(self).log_view().records[old(self).log_view().head]
                },
                Err(e) => {
                    &&& e == ListError::NoMoreOps
                    &&& old(self).log_view().head == old(self).log_view().fork
                    &&& same_state(*old(self), *final(self))
                },
            },
    {
        let ghost pre = *self;
        match self.changes.previous() {
            None => Err(ListError::NoMoreOps),
            Some(c) => {
                proof {
                    let h = pre.log_view().head;
                    assert(apply_result(pre.states()[h - 1], c@.op) == Some(
                        (pre.states()[h], c@.op),
                    ));
                    lemma_apply_then_revert(pre.states()[h - 1], c@.op);
                }
                revert_change(&mut self.items, &c);
                Ok(c)
            },
        }
    }

    /// Replays the operation most recently taken back: advances the head
    /// one record and applies it again.  At the newest record there is
    /// nothing to replay, and redo is `NoMoreOps`.
    pub fn redo(&mut self) -> (r: Result<Change, ListError>)
        requires
            old(self).inv(),
        ensures
            final(self).inv(),
            final(self).agent() == old(self).agent(),
            match r {
                Ok(c) => {
                    &&& redo_step(*old(self), *final(self))
                    &&& c@ == old(self).log_view().records[old(self).log_view().head + 1]
                },
                Err(e) => {
                    &&& e == ListError::NoMoreOps
                    &&& old(self).log_view().head == old(self).log_view().records.len() - 1
                    &&& same_state(*old(self), *final(self))
                },
            },
    {
        let ghost pre = *self;
        match self.changes.next() {
            None => Err(ListError::NoMoreOps),
            Some(c) => {
                proof {
                    let h = pre.log_view().head;
                    assert(apply_result(pre.states()[h], c@.op) == Some(
                        (pre.states()[h + 1], c@.op),
                    ));
                }
                let r = apply_change(&mut self.items, &c);
                match r {
                    Ok(_) => {},
                    Err(_) => {
                        proof {
                            assert(false);
                        }
                    },
                }
                Ok(c)
            },
        }
    }

    /// Applies a batch of records, all or nothing.  On success every record
    /// is appended to the log in its normalized form, with its id and stamp
    /// kept, and the appended copies are returned.  On the first failing
    /// record every earlier application is reverted, the log is restored,
    /// and the failure is returned.
    pub(crate) fn apply_all(&mut self, changes: &Vec<Change>) -> (r: Result<Vec<Change>, ListError>)
        requires
            old(self).inv_core(),
            old(self).at_head(),
            ascending_from(records_deep(changes@), old(self).log_view().records.last().id),
        ensures
            final(self).inv_core(),
            final(self).at_head(),
            final(self).agent() == old(self).agent(),
            match r {
                Ok(out) => {
                    &&& final(self).inv()
                    &&& apply_norm(old(self).items_view(), ops_of(records_deep(changes@)))
                        == Some((final(self).items_view(), ops_of(records_deep(out@))))
                    &&& out@.len() == changes@.len()
                    &&& forall|k: int|
                        0 <= k < out@.len() ==> (#[trigger] records_deep(out@)[k]).id
                            == records_deep(changes@)[k].id && records_deep(out@)[k].stamp
                            == records_deep(changes@)[k].stamp
                    &&& final(self).log_view().records == old(self).log_view().records
                        + records_deep(out@)
                    &&& final(self).log_view().head == old(self).log_view().head + out@.len()
                    &&& final(self).log_view().fork == old(self).log_view().fork
                    &&& final(self).max_local() >= old(self).max_local()
                    &&& final(self).states().subrange(0, old(self).states().len() as int) == old(
                        self,
                    ).states()
                    &&& final(self).states().len() == old(self).states().len() + out@.len()
                    &&& (ids_below(
                        final(self).items_view(),
                        old(self).agent(),
                        old(self).max_local(),
                    ) ==> final(self).max_local() == old(self).max_local())
                },
                Err(e) => {
                    &&& same_state(*old(self), *final(self))
                    &&& apply_norm(old(self).items_view(), ops_of(records_deep(changes@)))
                        is None
                    &&& e == batch_err(old(self).items_view(), ops_of(records_deep(changes@)))
                },
            },
    {
        let ghost pre = *self;
        let ghost in_views = records_deep(changes@);
        let ghost in_ops = ops_of(in_views);
        let mut out: Vec<Change> = Vec::new();
        let mut i: usize = 0;
        proof {
            assert(in_views.take(0) =~= Seq::<ChangeView>::empty());
            assert(ops_of(in_views.take(0)) =~= Seq::<OpView>::empty());
            assert(ops_of(records_deep(out@)) =~= Seq::<OpView>::empty());
            assert(pre.log_view().records + records_deep(out@) =~= pre.log_view().records);
        }
        while i < changes.len()
            invariant
                pre == *old(self),
                self.inv_core(),
                self.at_head(),
                self.agent() == pre.agent(),
                self.max_local() == pre.max_local(),
                self.states().len() == pre.states().len() + i,
                self.states().subrange(0, pre.states().len() as int) == pre.states(),
                pre.inv_core(),
                pre.at_head(),
                0 <= i <= changes@.len(),
                in_views == records_deep(changes@),
                in_ops == ops_of(in_views),
                ascending_from(in_views, pre.log_view().records.last().id),
                out@.len() == i,
                forall|k: int|
                    0 <= k < i ==> (#[trigger] records_deep(out@)[k]).id == in_views[k].id
                        && records_deep(out@)[k].stamp == in_views[k].stamp,
                self.log_view().records == pre.log_view().records + records_deep(out@),
                self.log_view().head == pre.log_view().head + i,
                self.log_view().fork == pre.log_view().fork,
                apply_norm(pre.items_view(), ops_of(in_views.take(i as int))) == Some(
                    (self.items_view(), ops_of(records_deep(out@))),
                ),
            decreases changes@.len() - i
        {
            let ghost cur = *self;
            let ghost cur_items = self.items_view();
            let c = &changes[i];
            proof {
                assert(c@ == in_views[i as int]);
                assert(wf_items(cur_items)) by {
                    assert(cur.items_view() == cur.states()[cur.log_view().head]);
                }
            }
            let step = apply_change(&mut self.items, c);
            match step {
                Ok(nc) => {
                    proof {
                        // The new record's id continues the ascent.
                        assert(self.changes@.records.last() == if i == 0 {
                            pre.log_view().records.last()
                        } else {
                            records_deep(out@)[i - 1]
                        }) by {
                            assert(cur.log_view().records == pre.log_view().records
                                + records_deep(out@));
                        }
                        if i > 0 {
                            assert(records_deep(out@)[i - 1].id == in_views[i - 1].id);
                            assert(in_views[i - 1].id < in_views[i as int].id);
                        }
                    }
                    self.changes.push_change(&nc);
                    let ghost states = self.hist@.push(items_deep(self.items@));
                    self.hist = Ghost(states);
                    let ghost out_prev = records_deep(out@);
                    out.push(nc);
                    proof {
                        let post = *self;
                        assert(records_deep(out@).drop_last() =~= out_prev);
                        // Chain: the appended normalized record applies the
                        // previous head state to the new one.
                        lemma_apply_normalizes(cur_items, c@.op);
                        lemma_apply_then_revert(cur_items, c@.op);
                        assert(post.log_view().records =~= pre.log_view().records
                            + records_deep(out@));
                        assert(post.states().subrange(0, pre.states().len() as int) =~= pre.states());
                        assert forall|k: int|
                            1 <= k < post.states().len() implies apply_result(
                            post.states()[k - 1],
                            (#[trigger] post.log_view().records[k]).op,
                        ) == Some((post.states()[k], post.log_view().records[k].op)) by {
                            if k < post.states().len() - 1 {
                                assert(post.log_view().records[k] == cur.log_view().records[k]);
                                assert(post.states()[k - 1] == cur.states()[k - 1]);
                                assert(post.states()[k] == cur.states()[k]);
                            } else {
                                assert(post.states()[k - 1] == cur.states().last());
                                assert(cur.items_view() == cur.states().last());
                                assert(post.log_view().records[k] == nc@);
                            }
                        }
                        // The batch-so-far result extends by this step.
                        assert(in_views.take(i + 1) =~= in_views.take(i as int).push(
                            in_views[i as int],
                        ));
                        assert(ops_of(in_views.take(i + 1)) =~= ops_of(in_views.take(
                            i as int,
                        )).push(in_views[i as int].op));
                        crate::state::lemma_apply_norm_snoc(
                            pre.items_view(),
                            ops_of(in_views.take(i as int)),
                            in_views[i as int].op,
                        );
                        assert(ops_of(records_deep(out@)) =~= ops_of(out_prev).push(nc@.op));
                        assert forall|k: int|
                            0 <= k <= i as int implies (#[trigger] records_deep(out@)[k]).id
                            == in_views[k].id && records_deep(out@)[k].stamp
                            == in_views[k].stamp by {
                            if k < i as int {
                                assert(records_deep(out@)[k] == out_prev[k]);
                            } else {
                                assert(records_deep(out@)[k] == nc@);
                            }
                        }
                    }
                    i += 1;
                },
                Err(e) => {
                    proof {
                        assert(in_ops[i as int] == in_views[i as int].op);
                        assert(in_ops.take(i as int) =~= ops_of(in_views.take(i as int)));
                        lemma_apply_norm_prefix_fail(pre.items_view(), in_ops, i as int);
                    }
                    // Roll the already applied records back, newest first.
                    let mut m: usize = i;
                    while m > 0
                        invariant
                            pre == *old(self),
                            self.inv_core(),
                            self.at_head(),
                            self.agent() == pre.agent(),
                            self.max_local() == pre.max_local(),
                            pre.inv_core(),
                            pre.at_head(),
                            e == batch_err(pre.items_view(), ops_of(records_deep(changes@))),
                            apply_norm(pre.items_view(), ops_of(records_deep(changes@))) is None,
                            0 <= m <= i <= out@.len(),
                            self.states().len() == pre.states().len() + m,
                            self.states().subrange(0, pre.states().len() as int) == pre.states(),
                            self.log_view().records == pre.log_view().records + records_deep(
                                out@,
                            ).take(m as int),
                            self.log_view().head == pre.log_view().head + m,
                            self.log_view().fork == pre.log_view().fork,
                        decreases m
                    {
                        let ghost cur2 = *self;
                        proof {
                            let ln = cur2.states().len();
                            assert(apply_result(
                                cur2.states()[ln - 2],
                                cur2.log_view().records.last().op,
                            ) == Some((cur2.states()[ln - 1], cur2.log_view().records.last().op)));
                            lemma_apply_then_revert(
                                cur2.states()[ln - 2],
                                cur2.log_view().records.last().op,
                            );
                            assert(cur2.items_view() == cur2.states()[ln - 1]);
                        }
                        let rec = self.changes.pop();
                        revert_change(&mut self.items, &rec);
                        let ghost states = self.hist@.drop_last();
                        self.hist = Ghost(states);
                        m -= 1;
                        proof {
                            assert(self.log_view().records =~= pre.log_view().records
                                + records_deep(out@).take(m as int));
                            assert(self.states().subrange(0, pre.states().len() as int)
                                =~= pre.states());
                            assert(self.items_view() == self.states().last());
                        }
                    }
                    proof {
                        assert(records_deep(out@).take(0) =~= Seq::<ChangeView>::empty());
                        assert(self.log_view().records =~= pre.log_view().records);
                        assert(self.states() =~= pre.states());
                        assert(self.items_view() == pre.items_view()) by {
                            assert(self.states()[self.log_view().head] == pre.states()[
                                pre.log_view().head]);
                        }
                        assert(self.log_view() == pre.log_view());
                    }
                    return Err(e);
                },
            }
        }
        proof {
            assert(in_views.take(i as int) =~= in_views);
        }
        // Items brought in by the batch may carry this agent's identifiers:
        // account for them, so that freshly minted identifiers stay fresh.
        let m = max_local_of(&self.items, self.agent_id);
        if m > self.max_item_id {
            self.max_item_id = m;
        }
        proof {
            assert(ids_below(self.states().last(), self.agent(), self.max_local())) by {
                assert(self.states().last() == self.items_view());
            }
        }
        Ok(out)
    }

    /// Integrates the slice a commit returned: rolls the local operations
    /// back to the fork state, applies the accepted records in their place,
    /// and marks everything committed.  On any failure the replica is
    /// restored in full, local operations included.
    ///
    /// The records must carry strictly increasing ids continuing past the
    /// fork anchor, as every slice the root returns does; anything else is
    /// `CannotCommit`.  A replica mid-undo cannot integrate a commit:
    /// that is `InvariantViolated`.
    #[verifier::rlimit(50)]
    pub fn apply_commit(&mut self, changes: &Vec<Change>) -> (r: Result<(), ListError>)
        requires
            old(self).inv(),
        ensures
            final(self).inv(),
            final(self).agent() == old(self).agent(),
            match r {
                Ok(_) => {
                    let base = old(self).states()[old(self).log_view().fork];
                    &&& old(self).at_head()
                    &&& ascending_from(
                        records_deep(changes@),
                        old(self).log_view().records[old(self).log_view().fork].id,
                    )
                    &&& apply_ops(base, ops_of(records_deep(changes@))) == Some(
                        final(self).items_view(),
                    )
                    &&& final(self).log_view().fork == final(self).log_view().head
                    &&& final(self).at_head()
                    &&& final(self).log_view().records.len() == old(self).log_view().fork + 1
                        + changes@.len()
                    &&& final(self).log_view().records.subrange(
                        0,
                        old(self).log_view().fork + 1,
                    ) == old(self).log_view().records.subrange(0, old(self).log_view().fork + 1)
                    &&& forall|k: int|
                        0 <= k < changes@.len() ==> (#[trigger] final(self).log_view().records[
                            old(self).log_view().fork + 1 + k
                        ]).id == records_deep(changes@)[k].id && final(self).log_view().records[
                            old(self).log_view().fork + 1 + k
                        ].stamp == records_deep(changes@)[k].stamp
                    &&& ops_of(
                        final(self).log_view().records.skip(old(self).log_view().fork + 1),
                    ) == apply_norm(base, ops_of(records_deep(changes@)))->Some_0.1
                },
                Err(e) => {
                    let base = old(self).states()[old(self).log_view().fork];
                    &&& same_state(*old(self), *final(self))
                    &&& !old(self).at_head() ==> e == ListError::InvariantViolated
                    &&& (old(self).at_head() && !ascending_from(
                        records_deep(changes@),
                        old(self).log_view().records[old(self).log_view().fork].id,
                    )) ==> e == ListError::CannotCommit
                    &&& (old(self).at_head() && ascending_from(
                        records_deep(changes@),
                        old(self).log_view().records[old(self).log_view().fork].id,
                    )) ==> {
                        &&& apply_norm(base, ops_of(records_deep(changes@))) is None
                        &&& e == batch_err(base, ops_of(records_deep(changes@)))
                    }
                },
            },
    {
        let ghost pre = *self;
        if !self.changes.is_at_head() {
            return Err(ListError::InvariantViolated);
        }
        let anchor_id = self.changes.fork_id();
        if !check_ascending(changes, anchor_id) {
            return Err(ListError::CannotCommit);
        }
        let saved = self.changes.local_tail();
        let ghost saved_views = records_deep(saved@);
        let ghost fork = pre.log_view().fork;
        // Roll the local operations back to the fork state.
        let mut m: usize = self.changes.head_pos() - self.changes.fork_pos();
        proof {
            assert(self.log_view().records =~= pre.log_view().records.subrange(
                0,
                fork + 1 + m,
            ));
            assert(self.states() =~= pre.states().subrange(0, fork + 1 + m));
        }
        while m > 0
            invariant
                pre == *old(self),
                self.inv_core(),
                self.at_head(),
                self.agent() == pre.agent(),
                self.max_local() == pre.max_local(),
                pre.inv(),
                pre.at_head(),
                fork == pre.log_view().fork,
                0 <= m <= pre.log_view().head - fork,
                self.log_view().records == pre.log_view().records.subrange(0, fork + 1 + m),
                self.states() == pre.states().subrange(0, fork + 1 + m),
                self.log_view().head == fork + m,
                self.log_view().fork == fork,
            decreases m
        {
            let ghost cur = *self;
            proof {
                let ln = cur.states().len();
                assert(apply_result(cur.states()[ln - 2], cur.log_view().records.last().op)
                    == Some((cur.states()[ln - 1], cur.log_view().records.last().op)));
                lemma_apply_then_revert(
                    cur.states()[ln - 2],
                    cur.log_view().records.last().op,
                );
                assert(cur.items_view() == cur.states()[ln - 1]);
            }
            let rec = self.changes.pop();
            revert_change(&mut self.items, &rec);
            let ghost states = self.hist@.drop_last();
            self.hist = Ghost(states);
            m -= 1;
            proof {
                assert(self.log_view().records =~= pre.log_view().records.subrange(
                    0,
                    fork + 1 + m,
                ));
                assert(self.states() =~= pre.states().subrange(0, fork + 1 + m));
                assert(self.items_view() == self.states().last());
            }
        }
        let ghost base = pre.states()[fork];
        proof {
            assert(self.items_view() == base);
            assert(self.log_view().records.last() == pre.log_view().records[fork]);
        }
        let first = self.apply_all(changes);
        match first {
            Ok(out) => {
                self.changes.advance_fork_to_head();
                proof {
                    assert(self.items_view() == self.states()[self.log_view().head]);
                    let out_views = records_deep(out@);
                    assert(self.log_view().records.subrange(0, fork + 1)
                        =~= pre.log_view().records.subrange(0, fork + 1));
                    assert(self.log_view().records.skip(fork + 1) =~= out_views);
                    assert(ops_of(self.log_view().records.skip(fork + 1)) =~= ops_of(out_views));
                    assert forall|k: int|
                        0 <= k < changes@.len() implies (#[trigger] self.log_view().records[
                            fork + 1 + k
                        ]).id == records_deep(changes@)[k].id && self.log_view().records[
                            fork + 1 + k
                        ].stamp == records_deep(changes@)[k].stamp by {
                        assert(self.log_view().records[fork + 1 + k] == out_views[k]);
                    }
                }
                Ok(())
            },
            Err(e) => {
                // Put the local operations back; they applied before from
                // the very same state, so they apply again.
                proof {
                    let st = pre.states().subrange(fork, pre.log_view().head + 1);
                    let ops = ops_of(saved_views);
                    assert(st.len() == ops.len() + 1);
                    assert forall|k: int|
                        0 <= k < ops.len() implies apply_result(st[k], #[trigger] ops[k])
                        == Some((st[k + 1], ops[k])) by {
                        assert(ops[k] == pre.log_view().records[fork + 1 + k].op);
                        assert(st[k] == pre.states()[fork + k]);
                        assert(st[k + 1] == pre.states()[fork + 1 + k]);
                    }
                    lemma_chain_to_apply_norm(st, ops);
                    assert(st[0] == base);
                    assert(ascending_from(saved_views, pre.log_view().records[fork].id)) by {
                        assert forall|i: int|
                            0 <= i < saved_views.len() implies (#[trigger] saved_views[i]).id
                            > pre.log_view().records[fork].id by {
                            assert(saved_views[i] == pre.log_view().records[fork + 1 + i]);
                        }
                        assert forall|i: int, j: int|
                            0 <= i < j < saved_views.len() implies (#[trigger] saved_views[i]).id
                            < (#[trigger] saved_views[j]).id by {
                            assert(saved_views[i] == pre.log_view().records[fork + 1 + i]);
                            assert(saved_views[j] == pre.log_view().records[fork + 1 + j]);
                        }
                    }
                }
                let ghost before_restore = *self;
                let restore = self.apply_all(&saved);
                match restore {
                    Ok(out2) => {},
                    Err(_) => {
                        proof {
                            assert(false);
                        }
                    },
                }
                proof {
                    // The restored records are the saved ones, record for
                    // record, so the log is back to what it was.
                    let st = pre.states().subrange(fork, pre.log_view().head + 1);
                    let ops = ops_of(saved_views);
                    let out_views = records_deep(restore->Ok_0@);
                    assert(ops_of(out_views) == ops);
                    assert forall|k: int|
                        0 <= k < out_views.len() implies #[trigger] out_views[k]
                        == saved_views[k] by {
                        assert(out_views[k].op == ops_of(out_views)[k]);
                        assert(saved_views[k].op == ops[k]);
                    }
                    assert(out_views =~= saved_views);
                    assert(self.log_view().records =~= pre.log_view().records) by {
                        assert(pre.log_view().records.subrange(0, fork + 1) + saved_views
                            =~= pre.log_view().records);
                    }
                    assert(self.items_view() == pre.items_view()) by {
                        assert(st.last() == pre.states()[pre.log_view().head]);
                    }
                    // The rebuilt history states equal the old ones, step by
                    // step: application is a function.
                    let all_ops = ops_of(pre.log_view().records);
                    assert(self.states().len() == pre.states().len());
                    assert forall|k: int|
                        fork < k < self.states().len() implies apply_result(
                        self.states()[k - 1],
                        #[trigger] all_ops[k],
                    ) == Some((self.states()[k], all_ops[k])) by {
                        assert(all_ops[k] == self.log_view().records[k].op);
                    }
                    assert forall|k: int|
                        fork < k < pre.states().len() implies apply_result(
                        pre.states()[k - 1],
                        #[trigger] all_ops[k],
                    ) == Some((pre.states()[k], all_ops[k])) by {
                        assert(all_ops[k] == pre.log_view().records[k].op);
                    }
                    assert(self.states()[fork] == pre.states()[fork]) by {
                        assert(self.states().subrange(0, before_restore.states().len() as int)
                            == before_restore.states());
                        assert(before_restore.states()[fork] == pre.states()[fork]);
                    }
                    lemma_chain_determined(self.states(), pre.states(), all_ops, fork);
                    assert forall|k: int|
                        0 <= k < self.states().len() implies #[trigger] self.states()[k]
                        == pre.states()[k] by {
                        if k < fork {
                            assert(self.states().subrange(
                                0,
                                before_restore.states().len() as int,
                            ) == before_restore.states());
                            assert(self.states()[k] == before_restore.states()[k]);
                        }
                    }
                    assert(self.states() =~= pre.states());
                    assert(self.max_local() == pre.max_local()) by {
                        assert(ids_below(pre.items_view(), pre.agent(), pre.max_local())) by {
                            assert(pre.items_view() == pre.states().last());
                        }
                    }
                    assert(self.log_view() == pre.log_view());
                }
                Err(e)
            },
        }
    }

    /// No two items of a valid replica share an identifier, and no two
    /// share a title.
    pub proof fn lemma_items_unique(&self, i: int, j: int)
        requires
            self.inv(),
            0 <= i < j < self.items_view().len(),
        ensures
            self.items_view()[i].id != self.items_view()[j].id,
            self.items_view()[i].title != self.items_view()[j].title,
    {
        assert(self.items_view() == self.states()[self.log_view().head]);
    }

    /// The records from the fork to the head: the committed anchor first,
    /// then the local operations to propose.
    pub fn changes_to_commit(&self) -> (r: Vec<Change>)
        requires
            self.inv(),
        ensures
            records_deep(r@) =~= self.log_view().records.subrange(
                self.log_view().fork,
                self.log_view().head + 1,
            ),
            r@.len() == self.log_view().head - self.log_view().fork + 1,
    {
        self.changes.to_commit()
    }

    /// The position of the record with id `id`, if the log holds one.
    pub(crate) fn record_position(&self, id: u32) -> (r: Option<usize>)
        requires
            self.inv(),
        ensures
            match r {
                Some(p) => p < self.log_view().records.len() && self.log_view().records[
                    p as int
                ].id == id,
                None => forall|k: int|
                    0 <= k < self.log_view().records.len() ==> (#[trigger] self.log_view().records[
                        k
                    ]).id != id,
            },
    {
        self.changes.position_of(id)
    }

    /// A copy of the records strictly after position `p`.
    pub(crate) fn confirmed_since(&self, p: usize) -> (r: Vec<Change>)
        requires
            self.inv(),
            p < self.log_view().records.len(),
        ensures
            records_deep(r@) =~= self.log_view().records.subrange(
                p + 1,
                self.log_view().records.len() as int,
            ),
            r@.len() == self.log_view().records.len() - p - 1,
    {
        self.changes.tail_after(p)
    }

    /// The id of the newest record.
    pub(crate) fn last_record_id(&self) -> (r: u32)
        requires
            self.inv(),
        ensures
            r == self.log_view().records.last().id,
    {
        self.changes.last_record().id
    }

    /// Moves the fork onto the head: every record now counts as committed.
    pub(crate) fn mark_all_committed(&mut self)
        requires
            old(self).inv(),
        ensures
            final(self).inv(),
            final(self).items_view() == old(self).items_view(),
            final(self).log_view().records == old(self).log_view().records,
            final(self).log_view().head == old(self).log_view().head,
            final(self).log_view().fork == old(self).log_view().head,
            final(self).states() == old(self).states(),
            final(self).agent() == old(self).agent(),
            final(self).max_local() == old(self).max_local(),
    {
        self.changes.advance_fork_to_head();
    }

    /// The current items, in list order.
    pub fn items(&self) -> (r: &Vec<ListItem>)
        ensures
            items_deep(r@) == self.items_view(),
    {
        &self.items
    }

    /// The current titles, in list order.
    pub fn titles(&self) -> (r: Vec<String>)
        ensures
            r@.len() == self.items_view().len(),
            forall|k: int| 0 <= k < r@.len() ==> (#[trigger] r@[k])@ == self.items_view()[k].title,
    {
        let mut r: Vec<String> = Vec::new();
        let mut k: usize = 0;
        while k < self.items.len()
            invariant
                0 <= k <= self.items@.len(),
                r@.len() == k,
                forall|j: int|
                    0 <= j < k ==> (#[trigger] r@[j])@ == items_deep(self.items@)[j].title,
            decreases self.items@.len() - k
        {
            r.push(self.items[k].title.clone());
            k += 1;
        }
        r
    }
}

/// A copy of the items, equal element for element.
fn clone_items(v: &Vec<ListItem>) -> (r: Vec<ListItem>)
    ensures
        r@ =~= v@,
{
    let mut r: Vec<ListItem> = Vec::new();
    let mut k: usize = 0;
    while k < v.len()
        invariant
            0 <= k <= v@.len(),
            r@ =~= v@.subrange(0, k as int),
        decreases v@.len() - k
    {
        r.push(v[k].clone());
        k += 1;
    }
    r
}

/// The position of the item carrying `id`, if one is present.
fn find_by_id(items: &Vec<ListItem>, id: Id) -> (r: Option<usize>)
    ensures
        match r {
            Some(p) => p < items@.len() && items_deep(items@)[p as int].id == id,
            None => !contains_id(items_deep(items@), id),
        },
{
    let mut k: usize = 0;
    while k < items.len()
        invariant
            0 <= k <= items@.len(),
            forall|j: int| 0 <= j < k ==> (#[trigger] items_deep(items@)[j]).id != id,
        decreases items@.len() - k
    {
        if items[k].id == id {
            return Some(k);
        }
        k += 1;
    }
    None
}

/// The position of the item carrying the title `title`, if one is present.
fn find_by_title(items: &Vec<ListItem>, title: &String) -> (r: Option<usize>)
    ensures
        match r {
            Some(p) => p < items@.len() && items_deep(items@)[p as int].title == title@,
            None => !contains_title(items_deep(items@), title@),
        },
{
    let mut k: usize = 0;
    while k < items.len()
        invariant
            0 <= k <= items@.len(),
            forall|j: int| 0 <= j < k ==> (#[trigger] items_deep(items@)[j]).title != title@,
        decreases items@.len() - k
    {
        if items[k].title == *title {
            return Some(k);
        }
        k += 1;
    }
    None
}

/// The largest item counter used for `agent` among `items`: zero where none
/// is, otherwise the counter of some item `agent` created.
fn max_local_of(items: &Vec<ListItem>, agent: u32) -> (m: u32)
    ensures
        forall|k: int|
            0 <= k < items@.len() ==> ((#[trigger] items_deep(items@)[k]).id.agent == agent
                ==> items_deep(items@)[k].id.id <= m),
        m == 0 || exists|k: int|
            0 <= k < items@.len() && (#[trigger] items_deep(items@)[k]).id.agent == agent
                && items_deep(items@)[k].id.id == m,
{
    let mut m: u32 = 0;
    let mut k: usize = 0;
    while k < items.len()
        invariant
            0 <= k <= items@.len(),
            forall|j: int|
                0 <= j < k ==> ((#[trigger] items_deep(items@)[j]).id.agent == agent
                    ==> items_deep(items@)[j].id.id <= m),
            m == 0 || exists|j: int|
                0 <= j < items@.len() && (#[trigger] items_deep(items@)[j]).id.agent == agent
                    && items_deep(items@)[j].id.id == m,
        decreases items@.len() - k
    {
        if items[k].id.agent == agent && items[k].id.id > m {
            m = items[k].id.id;
            proof {
                assert(items_deep(items@)[k as int].id.agent == agent
                    && items_deep(items@)[k as int].id.id == m);
            }
        }
        k += 1;
    }
    m
}

/// Applies one record's operation to the items.  On success the items hold
/// the new state, and the returned record is the normalized form: same id
/// and stamp, with the operation pinned to the index it acted on and the
/// item value it displaced.  On failure the items are untouched.
pub(crate) fn apply_change(items: &mut Vec<ListItem>, change: &Change) -> (r: Result<
    Change,
    ListError,
>)
    requires
        wf_items(items_deep(old(items)@)),
    ensures
        match r {
            Ok(nc) => apply_result(items_deep(old(items)@), change@.op) == Some(
                (items_deep(final(items)@), nc@.op),
            ) && nc@.id == change@.id && nc@.stamp == change@.stamp,
            Err(e) => apply_result(items_deep(old(items)@), change@.op) is None && final(items)@
                == old(items)@ && e == apply_err(items_deep(old(items)@), change@.op),
        },
{
    let ghost s = items_deep(items@);
    match &change.operation {
        Operation::Root => Err(ListError::InvariantViolated),
        Operation::Add(item) => {
            if let Some(_) = find_by_id(items, item.id) {
                return Err(ListError::InvariantViolated);
            }
            if let Some(_) = find_by_title(items, &item.title) {
                return Err(ListError::InvariantViolated);
            }
            items.push(item.clone());
            proof {
                assert(items_deep(final(items)@) =~= s.push(item@));
            }
            Ok(change.clone())
        },
        Operation::Remove(_, item) => {
            let p = match find_by_id(items, item.id) {
                Some(p) => p,
                None => {
                    return Err(ListError::NotFound);
                },
            };
            proof {
                lemma_idx_of_id(s, p as int);
            }
            let removed = items.remove(p);
            proof {
                assert(items_deep(final(items)@) =~= s.remove(p as int));
            }
            Ok(
                Change {
                    id: change.id,
                    stamp: change.stamp,
                    operation: Operation::Remove(p, removed),
                },
            )
        },
        Operation::Edit(old_item, new_item) => {
            let p = match find_by_id(items, old_item.id) {
                Some(p) => p,
                None => {
                    return Err(ListError::NotFound);
                },
            };
            proof {
                lemma_idx_of_id(s, p as int);
            }
            if new_item.id != old_item.id {
                return Err(ListError::InvariantViolated);
            }
            let same_title = items[p].title == new_item.title;
            if !same_title {
                if let Some(_) = find_by_title(items, &new_item.title) {
                    return Err(ListError::InvariantViolated);
                }
            }
            let prev = items[p].clone();
            let slot = &mut items[p];
            *slot = new_item.clone();
            proof {
                assert(items_deep(final(items)@) =~= s.update(p as int, new_item@));
            }
            Ok(
                Change {
                    id: change.id,
                    stamp: change.stamp,
                    operation: Operation::Edit(prev, new_item.clone()),
                },
            )
        },
        Operation::MoveTo { id, old_loc: _, new_loc } => {
            let p = match find_by_id(items, *id) {
                Some(p) => p,
                None => {
                    return Err(ListError::NotFound);
                },
            };
            proof {
                lemma_idx_of_id(s, p as int);
            }
            if *new_loc >= items.len() {
                return Err(ListError::NotFound);
            }
            let it = items.remove(p);
            items.insert(*new_loc, it);
            proof {
                assert(items_deep(final(items)@) =~= move_seq(s, p as int, *new_loc as int));
            }
            Ok(
                Change {
                    id: change.id,
                    stamp: change.stamp,
                    operation: Operation::MoveTo { id: *id, old_loc: p, new_loc: *new_loc },
                },
            )
        },
    }
}

/// Reverts one normalized record on the items, restoring the state they had
/// before it was applied.  The caller warrants that the record matches the
/// state, so the revert cannot fail.
pub(crate) fn revert_change(items: &mut Vec<ListItem>, change: &Change)
    requires
        wf_items(items_deep(old(items)@)),
        revert_result(items_deep(old(items)@), change@.op) is Some,
    ensures
        items_deep(final(items)@) == revert_result(items_deep(old(items)@), change@.op)->Some_0,
{
    let ghost s = items_deep(items@);
    match &change.operation {
        Operation::Root => {
            proof {
                assert(false);
            }
        },
        Operation::Add(_) => {
            items.pop();
            proof {
                assert(items_deep(final(items)@) =~= s.drop_last());
            }
        },
        Operation::Remove(loc, item) => {
            items.insert(*loc, item.clone());
            proof {
                assert(items_deep(final(items)@) =~= s.insert(*loc as int, item@));
            }
        },
        Operation::Edit(old_item, new_item) => {
            let p = match find_by_id(items, new_item.id) {
                Some(p) => p,
                None => {
                    proof {
                        assert(false);
                    }
                    unreached()
                },
            };
            proof {
                lemma_idx_of_id(s, p as int);
            }
            let slot = &mut items[p];
            *slot = old_item.clone();
            proof {
                assert(items_deep(final(items)@) =~= s.update(p as int, old_item@));
            }
        },
        Operation::MoveTo { id: _, old_loc, new_loc } => {
            let it = items.remove(*new_loc);
            items.insert(*old_loc, it);
            proof {
                assert(items_deep(final(items)@) =~= move_seq(s, *new_loc as int, *old_loc as int));
            }
        },
    }
}

} // verus!
