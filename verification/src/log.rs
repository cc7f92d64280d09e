//! The change log: an ordered sequence of records with two cursors.
//!
//! Records at indices `(fork, head]` are local, unconfirmed operations;
//! records at `[0, fork]` are committed.  Undo retreats `head` toward
//! `fork`; redo advances it toward the newest record.  Record ids are
//! strictly increasing within one log.

use vstd::prelude::*;

use crate::op::{Change, ChangeView, Operation};

verus! {

/// The mathematical model of a change log.
pub struct LogView {
    pub records: Seq<ChangeView>,
    pub fork: int,
    pub head: int,
}

/// The view of a sequence of records.
pub open spec fn records_deep(s: Seq<Change>) -> Seq<ChangeView> {
    Seq::new(s.len(), |i: int| s[i]@)
}

/// Well-formedness of a log: it is never empty, the cursors sit in order
/// inside it, and record ids strictly increase.
pub open spec fn log_wf(v: LogView) -> bool {
    &&& v.records.len() >= 1
    &&& 0 <= v.fork <= v.head < v.records.len()
    &&& forall|i: int, j: int|
        0 <= i < j < v.records.len() ==> (#[trigger] v.records[i]).id < (
        #[trigger] v.records[j]).id
}

/// Whether the record ids of `cs` strictly increase, all above `lo`.
pub open spec fn ascending_from(cs: Seq<ChangeView>, lo: u32) -> bool {
    &&& forall|i: int, j: int|
        0 <= i < j < cs.len() ==> (#[trigger] cs[i]).id < (#[trigger] cs[j]).id
    &&& forall|i: int| 0 <= i < cs.len() ==> (#[trigger] cs[i]).id > lo
}

/// Whether the record at `k` exceeds its predecessor (or `lo`, for the
/// first record).
pub open spec fn above_prev(cs: Seq<ChangeView>, lo: u32, k: int) -> bool {
    cs[k].id > (if k == 0 {
        lo as int
    } else {
        cs[k - 1].id as int
    })
}

/// Record ids that each exceed their predecessor ascend as a whole.
pub proof fn lemma_stepwise_ascending(cs: Seq<ChangeView>, lo: u32)
    requires
        forall|k: int| 0 <= k < cs.len() ==> #[trigger] above_prev(cs, lo, k),
    ensures
        ascending_from(cs, lo),
{
    assert forall|i: int| 0 <= i < cs.len() implies (#[trigger] cs[i]).id > lo by {
        lemma_stepwise_above(cs, lo, i);
    }
    assert forall|i: int, j: int| 0 <= i < j < cs.len() implies (#[trigger] cs[i]).id < (
    #[trigger] cs[j]).id by {
        lemma_stepwise_between(cs, lo, i, j);
    }
}

proof fn lemma_stepwise_above(cs: Seq<ChangeView>, lo: u32, i: int)
    requires
        forall|k: int| 0 <= k < cs.len() ==> #[trigger] above_prev(cs, lo, k),
        0 <= i < cs.len(),
    ensures
        cs[i].id > lo,
    decreases i,
{
    assert(above_prev(cs, lo, i));
    if i > 0 {
        lemma_stepwise_above(cs, lo, i - 1);
    }
}

proof fn lemma_stepwise_between(cs: Seq<ChangeView>, lo: u32, i: int, j: int)
    requires
        forall|k: int| 0 <= k < cs.len() ==> #[trigger] above_prev(cs, lo, k),
        0 <= i < j < cs.len(),
    ensures
        cs[i].id < cs[j].id,
    decreases j - i,
{
    assert(above_prev(cs, lo, j));
    if i + 1 < j {
        lemma_stepwise_between(cs, lo, i, j - 1);
    }
}

/// Whether the record ids of `cs` each exceed their predecessor, the first
/// one exceeding `lo`.  Decidable left to right, and equivalent to
/// [`ascending_from`].
pub fn check_ascending(changes: &Vec<Change>, lo: u32) -> (b: bool)
    ensures
        b == ascending_from(records_deep(changes@), lo),
{
    let ghost cs = records_deep(changes@);
    let mut prev: u32 = lo;
    let mut k: usize = 0;
    while k < changes.len()
        invariant
            0 <= k <= cs.len(),
            cs == records_deep(changes@),
            prev == (if k == 0 {
                lo as int
            } else {
                cs[k - 1].id as int
            }),
            forall|j: int| 0 <= j < k ==> #[trigger] above_prev(cs, lo, j),
        decreases cs.len() - k
    {
        if changes[k].id <= prev {
            proof {
                assert(!above_prev(cs, lo, k as int));
                if ascending_from(cs, lo) {
                    if k == 0 {
                        assert(cs[0].id > lo);
                    } else {
                        assert(cs[k - 1].id < cs[k as int].id);
                    }
                }
            }
            return false;
        }
        prev = changes[k].id;
        k += 1;
    }
    proof {
        lemma_stepwise_ascending(cs, lo);
    }
    true
}

/// In a well-formed log, positions are recoverable from record ids.
pub proof fn lemma_log_ids_unique(v: LogView, i: int, j: int)
    requires
        log_wf(v),
        0 <= i < v.records.len(),
        0 <= j < v.records.len(),
        v.records[i].id == v.records[j].id,
    ensures
        i == j,
{
}

/// An ordered log of changes with the `fork` and `head` cursors.
#[derive(Debug)]
pub struct ChangeLog {
    pub(crate) head: usize,
    pub(crate) fork: usize,
    pub(crate) changes: Vec<Change>,
}

impl View for ChangeLog {
    type V = LogView;

    closed spec fn view(&self) -> LogView {
        LogView {
            records: records_deep(self.changes@),
            fork: self.fork as int,
            head: self.head as int,
        }
    }
}

impl ChangeLog {
    /// Whether this log is well formed.
    pub open spec fn wf(&self) -> bool {
        log_wf(self@)
    }

    /// The id of the newest record.
    pub open spec fn last_id(&self) -> u32 {
        self@.records.last().id
    }

    /// A fresh log holding only the root sentinel.
    pub(crate) fn new() -> (r: Self)
        ensures
            r.wf(),
            r@.records.len() == 1,
            r@.records[0].id == 0,
            r@.records[0].op == crate::op::OpView::Root,
            r@.fork == 0,
            r@.head == 0,
    {
        let mut changes: Vec<Change> = Vec::new();
        changes.push(Change::root());
        let r = ChangeLog { head: 0, fork: 0, changes };
        proof {
            assert(r@.records =~= seq![r.changes@[0]@]);
        }
        r
    }

    /// A log forked from a single anchor record: the anchor becomes both the
    /// fork and the head.
    pub(crate) fn forked(anchor: Change) -> (r: Self)
        ensures
            r.wf(),
            r@.records =~= seq![anchor@],
            r@.fork == 0,
            r@.head == 0,
    {
        let mut changes: Vec<Change> = Vec::new();
        changes.push(anchor);
        let r = ChangeLog { head: 0, fork: 0, changes };
        proof {
            assert(r@.records =~= seq![r.changes@[0]@]);
        }
        r
    }

    /// Whether the head cursor sits on the newest record.
    pub fn is_at_head(&self) -> (b: bool)
        requires
            self.wf(),
        ensures
            b == (self@.head == self@.records.len() - 1),
    {
        self.head == self.changes.len() - 1
    }

    /// Appends a fresh record for `op`, numbered one past the newest record,
    /// and advances the head onto it.  Returns a copy of the new record.
    pub(crate) fn push(&mut self, op: Operation) -> (r: Change)
        requires
            old(self).wf(),
            old(self)@.head == old(self)@.records.len() - 1,
            old(self).last_id() < u32::MAX,
        ensures
            final(self).wf(),
            r@.id == old(self).last_id() + 1,
            r@.op == op@,
            final(self)@.records =~= old(self)@.records.push(r@),
            final(self)@.head == old(self)@.head + 1,
            final(self)@.fork == old(self)@.fork,
    {
        let last = self.changes.len() - 1;
        let id = self.changes[last].id + 1;
        let c = Change::new(id, op);
        let r = c.clone();
        self.changes.push(c);
        self.head = self.head + 1;
        proof {
            assert(final(self)@.records =~= old(self)@.records.push(r@));
        }
        r
    }

    /// Appends a copy of the given record, keeping its id and stamp, and
    /// advances the head onto it.
    pub(crate) fn push_change(&mut self, c: &Change)
        requires
            old(self).wf(),
            old(self)@.head == old(self)@.records.len() - 1,
            c@.id > old(self).last_id(),
        ensures
            final(self).wf(),
            final(self)@.records =~= old(self)@.records.push(c@),
            final(self)@.head == old(self)@.head + 1,
            final(self)@.fork == old(self)@.fork,
    {
        let h = self.changes.len();
        self.changes.push(c.clone());
        self.head = h;
        proof {
            assert(final(self)@.records =~= old(self)@.records.push(c@));
        }
    }

    /// Removes the newest record, stepping the head back off it.  Only
    /// records above the fork may be removed.
    pub(crate) fn pop(&mut self) -> (r: Change)
        requires
            old(self).wf(),
            old(self)@.head == old(self)@.records.len() - 1,
            old(self)@.head > old(self)@.fork,
        ensures
            final(self).wf(),
            r@ == old(self)@.records.last(),
            final(self)@.records =~= old(self)@.records.drop_last(),
            final(self)@.head == old(self)@.head - 1,
            final(self)@.fork == old(self)@.fork,
    {
        self.head = self.head - 1;
        let r = match self.changes.pop() {
            Some(c) => c,
            None => {
                proof {
                    assert(false);
                }
                unreached()
            },
        };
        proof {
            assert(final(self)@.records =~= old(self)@.records.drop_last());
        }
        r
    }

    /// Steps the head back one record and yields a copy of the record it
    /// left, or `None` at the fork.
    pub(crate) fn previous(&mut self) -> (r: Option<Change>)
        requires
            old(self).wf(),
        ensures
            final(self).wf(),
            final(self)@.records == old(self)@.records,
            final(self)@.fork == old(self)@.fork,
            old(self)@.head == old(self)@.fork ==> r is None && final(self)@.head == old(
                self,
            )@.head,
            old(self)@.head > old(self)@.fork ==> (r matches Some(c) && c@ == old(
                self,
            )@.records[old(self)@.head] && final(self)@.head == old(self)@.head - 1),
    {
        if self.head <= self.fork {
            None
        } else {
            let c = self.changes[self.head].clone();
            self.head = self.head - 1;
            Some(c)
        }
    }

    /// Advances the head one record and yields a copy of the record it
    /// reached, or `None` at the newest record.
    pub(crate) fn next(&mut self) -> (r: Option<Change>)
        requires
            old(self).wf(),
        ensures
            final(self).wf(),
            final(self)@.records == old(self)@.records,
            final(self)@.fork == old(self)@.fork,
            old(self)@.head == old(self)@.records.len() - 1 ==> r is None && final(self)@.head
                == old(self)@.head,
            old(self)@.head < old(self)@.records.len() - 1 ==> (r matches Some(c) && c@ == old(
                self,
            )@.records[old(self)@.head + 1] && final(self)@.head == old(self)@.head + 1),
    {
        if self.head < self.changes.len() - 1 {
            self.head = self.head + 1;
            Some(self.changes[self.head].clone())
        } else {
            None
        }
    }

    /// Moves the fork cursor up to the head: everything at or below the head
    /// counts as committed from now on.
    pub(crate) fn advance_fork_to_head(&mut self)
        requires
            old(self).wf(),
        ensures
            final(self).wf(),
            final(self)@.records == old(self)@.records,
            final(self)@.head == old(self)@.head,
            final(self)@.fork == old(self)@.head,
    {
        self.fork = self.head;
    }

    /// The head cursor's position.
    pub(crate) fn head_pos(&self) -> (r: usize)
        ensures
            r == self@.head,
    {
        self.head
    }

    /// The fork cursor's position.
    pub(crate) fn fork_pos(&self) -> (r: usize)
        ensures
            r == self@.fork,
    {
        self.fork
    }

    /// The id of the record at the fork.
    pub(crate) fn fork_id(&self) -> (r: u32)
        requires
            self.wf(),
        ensures
            r == self@.records[self@.fork].id,
    {
        self.changes[self.fork].id
    }

    /// A copy of the records strictly between the fork and the head: the
    /// local, unconfirmed operations.
    pub(crate) fn local_tail(&self) -> (r: Vec<Change>)
        requires
            self.wf(),
        ensures
            records_deep(r@) =~= self@.records.subrange(self@.fork + 1, self@.head + 1),
            r@.len() == self@.head - self@.fork,
    {
        proof {
            vstd::std_specs::vec::axiom_spec_len(&self.changes);
        }
        self.clone_range(self.fork + 1, self.head + 1)
    }

    /// A copy of the newest record.
    pub(crate) fn last_record(&self) -> (r: Change)
        requires
            self.wf(),
        ensures
            r@ == self@.records.last(),
    {
        let last = self.changes.len() - 1;
        self.changes[last].clone()
    }

    /// The position of the record with id `id`, if one exists.
    pub(crate) fn position_of(&self, id: u32) -> (r: Option<usize>)
        requires
            self.wf(),
        ensures
            match r {
                Some(p) => p < self@.records.len() && self@.records[p as int].id == id,
                None => forall|k: int|
                    0 <= k < self@.records.len() ==> (#[trigger] self@.records[k]).id != id,
            },
    {
        let mut k: usize = 0;
        while k < self.changes.len()
            invariant
                self.wf(),
                0 <= k <= self@.records.len(),
                forall|j: int| 0 <= j < k ==> (#[trigger] self@.records[j]).id != id,
            decreases self@.records.len() - k
        {
            if self.changes[k].id == id {
                return Some(k);
            }
            k += 1;
        }
        None
    }

    /// A copy of the records strictly after position `p`.
    pub(crate) fn tail_after(&self, p: usize) -> (r: Vec<Change>)
        requires
            self.wf(),
            p < self@.records.len(),
        ensures
            records_deep(r@) =~= self@.records.subrange(p + 1, self@.records.len() as int),
            r@.len() == self@.records.len() - p - 1,
    {
        let n = self.changes.len();
        self.clone_range(p + 1, n)
    }

    /// A copy of the records from the fork to the head, inclusive: the fork
    /// anchor first, then the local operations.
    pub(crate) fn to_commit(&self) -> (r: Vec<Change>)
        requires
            self.wf(),
        ensures
            records_deep(r@) =~= self@.records.subrange(self@.fork, self@.head + 1),
            r@.len() == self@.head - self@.fork + 1,
    {
        proof {
            vstd::std_specs::vec::axiom_spec_len(&self.changes);
        }
        self.clone_range(self.fork, self.head + 1)
    }

    /// A copy of the records in positions `[from, to)`.
    fn clone_range(&self, from: usize, to: usize) -> (r: Vec<Change>)
        requires
            from <= to <= self.changes@.len(),
        ensures
            records_deep(r@) =~= records_deep(self.changes@).subrange(from as int, to as int),
            r@.len() == to - from,
    {
        let mut r: Vec<Change> = Vec::new();
        let mut k: usize = from;
        while k < to
            invariant
                from <= k <= to <= self.changes@.len(),
                r@.len() == k - from,
                forall|j: int| 0 <= j < r@.len() ==> #[trigger] r@[j] == self.changes@[from + j],
            decreases to - k
        {
            r.push(self.changes[k].clone());
            k += 1;
        }
        r
    }
}

} // verus!
