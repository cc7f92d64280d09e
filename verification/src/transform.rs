//! The transform engine: squashing a slice before commit, and rebasing
//! incoming operations against the operations confirmed since the fork.
//!
//! Both passes are pure; their executable forms return exactly what the
//! spec-level functions compute.

use vstd::prelude::*;

use crate::errors::ListError;
use crate::id::Id;
use crate::item::{ItemView, ListItem};
use crate::log::records_deep;
use crate::op::{Change, ChangeView, Operation, OpView};

verus! {

/// Whether an operation mentions the item named `id`.
pub open spec fn op_touches(op: OpView, id: Id) -> bool {
    match op {
        OpView::Root => false,
        OpView::Add(it) => it.id == id,
        OpView::Remove(loc, it) => it.id == id,
        OpView::Edit(old, new) => old.id == id || new.id == id,
        OpView::MoveTo { id: m, old_loc, new_loc } => m == id,
    }
}

/// The record `acc` becomes when an `Add` at its place absorbs the edit
/// `new`: the added item is replaced, the id and stamp stay.
pub open spec fn absorbed(acc: ChangeView, new: ItemView) -> ChangeView {
    ChangeView { id: acc.id, stamp: acc.stamp, op: OpView::Add(new) }
}

/// Folds the edit `c` into the nearest preceding `Add` of the same item,
/// provided no operation between the two touches it: `Some` is the folded
/// sequence, `None` leaves `c` to be kept as it is.
pub open spec fn squash_into(acc: Seq<ChangeView>, c: ChangeView) -> Option<Seq<ChangeView>>
    decreases acc.len(),
{
    match c.op {
        OpView::Edit(old, new) => {
            if acc.len() == 0 {
                None
            } else {
                let last = acc.last();
                if op_touches(last.op, old.id) {
                    match last.op {
                        OpView::Add(x) => if x == old {
                            Some(acc.update(acc.len() - 1, absorbed(last, new)))
                        } else {
                            None
                        },
                        _ => None,
                    }
                } else {
                    match squash_into(acc.drop_last(), c) {
                        Some(s) => Some(s.push(last)),
                        None => None,
                    }
                }
            }
        },
        _ => None,
    }
}

/// Walks `rest` left to right over the accumulator `acc`, folding each
/// add-then-edit pair into a single add.
pub open spec fn squash_rec(acc: Seq<ChangeView>, rest: Seq<ChangeView>) -> Seq<ChangeView>
    decreases rest.len(),
{
    if rest.len() == 0 {
        acc
    } else {
        let acc2 = match squash_into(acc, rest[0]) {
            Some(a) => a,
            None => acc.push(rest[0]),
        };
        squash_rec(acc2, rest.drop_first())
    }
}

/// The squash of a commit slice: the anchor at the front passes through
/// untouched, and in the rest every `Add` directly followed (with nothing
/// touching the item in between) by an `Edit` of the same item becomes the
/// single `Add` of the edited item.
pub open spec fn spec_squash(cs: Seq<ChangeView>) -> Seq<ChangeView> {
    if cs.len() == 0 {
        Seq::empty()
    } else {
        seq![cs[0]] + squash_rec(Seq::empty(), cs.drop_first())
    }
}

/// The largest index of `acc` whose operation touches the item named `id`,
/// or `-1` where none does.
pub open spec fn last_touch(acc: Seq<ChangeView>, id: Id) -> int
    decreases acc.len(),
{
    if acc.len() == 0 {
        -1
    } else if op_touches(acc.last().op, id) {
        acc.len() - 1
    } else {
        last_touch(acc.drop_last(), id)
    }
}

proof fn lemma_last_touch(acc: Seq<ChangeView>, id: Id)
    ensures
        -1 <= last_touch(acc, id) < acc.len(),
        last_touch(acc, id) >= 0 ==> op_touches(acc[last_touch(acc, id)].op, id),
        forall|q: int|
            last_touch(acc, id) < q < acc.len() ==> !op_touches((#[trigger] acc[q]).op, id),
    decreases acc.len(),
{
    if acc.len() > 0 {
        lemma_last_touch(acc.drop_last(), id);
        assert forall|q: int|
            last_touch(acc, id) < q < acc.len() implies !op_touches(
            (#[trigger] acc[q]).op,
            id,
        ) by {
            if q < acc.len() - 1 {
                assert(acc.drop_last()[q] == acc[q]);
            }
        }
    }
}

/// Touching is all that steers the scan: records that touch the same items
/// at the same places have the same last touch.
proof fn lemma_last_touch_congruent(a: Seq<ChangeView>, b: Seq<ChangeView>, id: Id)
    requires
        a.len() == b.len(),
        forall|k: int|
            0 <= k < a.len() ==> op_touches((#[trigger] a[k]).op, id) == op_touches(b[k].op, id),
    ensures
        last_touch(a, id) == last_touch(b, id),
    decreases a.len(),
{
    if a.len() > 0 {
        assert(op_touches(a.last().op, id) == op_touches(b.last().op, id));
        assert forall|k: int|
            0 <= k < a.drop_last().len() implies op_touches(
            (#[trigger] a.drop_last()[k]).op,
            id,
        ) == op_touches(b.drop_last()[k].op, id) by {
            assert(a.drop_last()[k] == a[k]);
            assert(b.drop_last()[k] == b[k]);
        }
        lemma_last_touch_congruent(a.drop_last(), b.drop_last(), id);
    }
}

/// What folding an edit into `acc` does, spelled out: it rewrites the last
/// record touching the edited item, provided that record is the `Add` of
/// exactly the item the edit starts from.
proof fn lemma_squash_into_characterized(acc: Seq<ChangeView>, c: ChangeView)
    requires
        c.op is Edit,
    ensures
        ({
            let old = c.op->Edit_0;
            let new = c.op->Edit_1;
            let lt = last_touch(acc, old.id);
            squash_into(acc, c) == (if lt >= 0 && (acc[lt].op matches OpView::Add(x) && x == old) {
                Some(acc.update(lt, absorbed(acc[lt], new)))
            } else {
                None::<Seq<ChangeView>>
            })
        }),
    decreases acc.len(),
{
    let old = c.op->Edit_0;
    let new = c.op->Edit_1;
    let lt = last_touch(acc, old.id);
    lemma_last_touch(acc, old.id);
    if acc.len() > 0 {
        if op_touches(acc.last().op, old.id) {
            assert(lt == acc.len() - 1);
        } else {
            lemma_squash_into_characterized(acc.drop_last(), c);
            let lt2 = last_touch(acc.drop_last(), old.id);
            assert(lt2 == lt);
            if lt >= 0 && (acc.drop_last()[lt].op matches OpView::Add(x) && x == old) {
                assert(acc.drop_last()[lt] == acc[lt]);
                assert(acc.drop_last().update(lt, absorbed(acc[lt], new)).push(acc.last())
                    =~= acc.update(lt, absorbed(acc[lt], new)));
            } else {
                if lt >= 0 {
                    assert(acc.drop_last()[lt] == acc[lt]);
                }
            }
        }
    }
}

/// Whether every edit in `cs` keeps its item's identifier, as every edit a
/// replica logs does.
pub open spec fn edit_ids_stable(cs: Seq<ChangeView>) -> bool {
    forall|k: int|
        0 <= k < cs.len() ==> ((#[trigger] cs[k]).op matches OpView::Edit(o, n) ==> o.id == n.id)
}

/// Whether `t` holds no foldable pair left: no record folds into the ones
/// before it.
pub open spec fn squash_stable(t: Seq<ChangeView>) -> bool {
    forall|k: int| 0 <= k < t.len() ==> squash_into(t.take(k), #[trigger] t[k]) is None
}

/// The fold keeps its accumulator free of foldable pairs.
proof fn lemma_squash_rec_stable(acc: Seq<ChangeView>, rest: Seq<ChangeView>)
    requires
        squash_stable(acc),
        edit_ids_stable(rest),
    ensures
        squash_stable(squash_rec(acc, rest)),
    decreases rest.len(),
{
    if rest.len() > 0 {
        let c = rest[0];
        assert(edit_ids_stable(rest.drop_first())) by {
            assert(forall|k: int|
                0 <= k < rest.drop_first().len() ==> #[trigger] rest.drop_first()[k] == rest[k
                    + 1]);
        }
        match squash_into(acc, c) {
            Some(acc2) => {
                assert(c.op is Edit);
                let old = c.op->Edit_0;
                let new = c.op->Edit_1;
                assert(new.id == old.id);
                lemma_squash_into_characterized(acc, c);
                let j = last_touch(acc, old.id);
                lemma_last_touch(acc, old.id);
                let x = acc[j].op->Add_0;
                assert(x == old);
                assert(acc2 == acc.update(j, absorbed(acc[j], new)));
                assert forall|k: int|
                    0 <= k < acc2.len() implies squash_into(
                    acc2.take(k),
                    #[trigger] acc2[k],
                ) is None by {
                    if acc2[k].op is Edit {
                        assert(k != j);
                        let o = acc2[k].op->Edit_0;
                        if k < j {
                            assert(acc2.take(k) =~= acc.take(k));
                            assert(acc2[k] == acc[k]);
                        } else {
                            // The prefix changed only at `j`, where the
                            // added item kept its identifier, so the scan
                            // for this edit ends where it ended before, and
                            // it cannot end at `j`: a touching edit after
                            // `j` would have blocked the fold.
                            assert(acc2[k] == acc[k]);
                            lemma_squash_into_characterized(acc.take(k), acc[k]);
                            lemma_squash_into_characterized(acc2.take(k), acc[k]);
                            assert forall|q: int|
                                0 <= q < k implies op_touches(
                                (#[trigger] acc2.take(k)[q]).op,
                                o.id,
                            ) == op_touches(acc.take(k)[q].op, o.id) by {
                                if q == j {
                                    assert(acc2[j].op == OpView::Add(new));
                                    assert(acc[j].op == OpView::Add(x));
                                    assert(new.id == x.id);
                                } else {
                                    assert(acc2[q] == acc[q]);
                                }
                            }
                            lemma_last_touch_congruent(acc2.take(k), acc.take(k), o.id);
                            let lt = last_touch(acc.take(k), o.id);
                            lemma_last_touch(acc.take(k), o.id);
                            if lt == j {
                                // Impossible: this edit touches the folded
                                // item, and it sits after `j`.
                                assert(op_touches(acc.take(k)[j].op, o.id));
                                assert(o.id == x.id);
                                assert(op_touches(acc[k].op, x.id));
                                assert(false);
                            } else if lt >= 0 {
                                assert(acc2.take(k)[lt] == acc.take(k)[lt]);
                            }
                        }
                    }
                }
                lemma_squash_rec_stable(acc2, rest.drop_first());
            },
            None => {
                let acc2 = acc.push(c);
                assert forall|k: int|
                    0 <= k < acc2.len() implies squash_into(
                    acc2.take(k),
                    #[trigger] acc2[k],
                ) is None by {
                    if k < acc.len() {
                        assert(acc2.take(k) =~= acc.take(k));
                        assert(acc2[k] == acc[k]);
                    } else {
                        assert(acc2.take(k) =~= acc);
                        assert(acc2[k] == c);
                    }
                }
                lemma_squash_rec_stable(acc2, rest.drop_first());
            },
        }
    }
}

/// Folding a sequence with no foldable pair left changes nothing.
proof fn lemma_squash_rec_fixed(t: Seq<ChangeView>, i: int)
    requires
        squash_stable(t),
        0 <= i <= t.len(),
    ensures
        squash_rec(t.take(i), t.skip(i)) == t,
    decreases t.len() - i,
{
    if i == t.len() {
        assert(t.skip(i) =~= Seq::<ChangeView>::empty());
        assert(t.take(i) =~= t);
    } else {
        assert(t.skip(i)[0] == t[i]);
        assert(squash_into(t.take(i), t[i]) is None);
        assert(t.take(i).push(t[i]) =~= t.take(i + 1));
        assert(t.skip(i).drop_first() =~= t.skip(i + 1));
        lemma_squash_rec_fixed(t, i + 1);
    }
}

/// Squashing is idempotent: a slice whose edits keep their items'
/// identifiers squashes to a slice with nothing left to fold, so squashing
/// it again returns it unchanged.
pub proof fn lemma_squash_idempotent(cs: Seq<ChangeView>)
    requires
        edit_ids_stable(cs),
    ensures
        spec_squash(spec_squash(cs)) == spec_squash(cs),
{
    if cs.len() == 0 {
    } else {
        let rest = cs.drop_first();
        assert(edit_ids_stable(rest)) by {
            assert(forall|k: int| 0 <= k < rest.len() ==> #[trigger] rest[k] == cs[k + 1]);
        }
        assert(squash_stable(Seq::<ChangeView>::empty()));
        lemma_squash_rec_stable(Seq::<ChangeView>::empty(), rest);
        let tail = squash_rec(Seq::<ChangeView>::empty(), rest);
        let out = spec_squash(cs);
        assert(out == seq![cs[0]] + tail);
        assert(out.len() >= 1);
        assert(out[0] == cs[0]);
        assert(out.drop_first() =~= tail);
        assert(tail.take(0) =~= Seq::<ChangeView>::empty());
        assert(tail.skip(0) =~= tail);
        lemma_squash_rec_fixed(tail, 0);
        assert(spec_squash(out) == seq![out[0]] + squash_rec(
            Seq::<ChangeView>::empty(),
            tail,
        ));
        assert(spec_squash(out) == out);
    }
}

/// What the transform decides for one incoming record: emit it, drop it in
/// favour of a confirmed record, or give up.
pub enum TransformStep {
    Apply,
    Skip(ChangeView),
    Conflict,
}

/// The decision one confirmed record forces on the incoming record `c`, or
/// `None` where it does not interfere and the scan continues.
pub open spec fn step_rule(conf: ChangeView, c: ChangeView) -> Option<TransformStep> {
    match (conf.op, c.op) {
        (OpView::Add(ci), OpView::Add(ii)) => if ci.id == ii.id {
            Some(TransformStep::Conflict)
        } else if ci.title == ii.title {
            Some(TransformStep::Skip(conf))
        } else {
            None
        },
        (OpView::Add(ci), OpView::Edit(io, _)) => if ci.id == io.id {
            if ci.title == io.title {
                Some(TransformStep::Apply)
            } else {
                Some(TransformStep::Conflict)
            }
        } else {
            None
        },
        (OpView::Edit(co, cn), OpView::Add(ii)) => if co.id == ii.id {
            Some(TransformStep::Conflict)
        } else if ii.title == cn.title {
            Some(TransformStep::Skip(conf))
        } else {
            None
        },
        (OpView::Edit(co, cn), OpView::Edit(io, _)) => if co.id == io.id {
            if co.title == io.title {
                Some(TransformStep::Apply)
            } else {
                Some(TransformStep::Conflict)
            }
        } else {
            None
        },
        (OpView::Remove(cl, ci), OpView::Remove(il, ii)) => if ci.id == ii.id {
            Some(TransformStep::Skip(conf))
        } else {
            None
        },
        (OpView::Remove(cl, ci), OpView::Edit(io, _)) => if ci.id == io.id {
            Some(TransformStep::Conflict)
        } else {
            None
        },
        (OpView::Add(ci), OpView::Remove(il, ii)) => if ci.id == ii.id {
            Some(TransformStep::Apply)
        } else {
            None
        },
        _ => None,
    }
}

/// The decision for the incoming record `c`, scanning the confirmed records
/// newest first so that the most recent interfering operation wins.  An
/// incoming `Root` can never be applied.
pub open spec fn spec_transform_one(confirmed: Seq<ChangeView>, c: ChangeView) -> TransformStep
    decreases confirmed.len(),
{
    if c.op is Root {
        TransformStep::Conflict
    } else if confirmed.len() == 0 {
        TransformStep::Apply
    } else {
        match step_rule(confirmed.last(), c) {
            Some(step) => step,
            None => spec_transform_one(confirmed.drop_last(), c),
        }
    }
}

/// The identifier `k` maps to, under the remap accumulated from skipped
/// adds: newest entry first.
pub open spec fn remap_lookup(m: Seq<(Id, Id)>, k: Id) -> Option<Id>
    decreases m.len(),
{
    if m.len() == 0 {
        None
    } else if m[0].0 == k {
        Some(m[0].1)
    } else {
        remap_lookup(m.drop_first(), k)
    }
}

/// `op` with its item identifiers redirected through the remap.  Adds carry
/// freshly minted identifiers and are left alone.
pub open spec fn remap_op(m: Seq<(Id, Id)>, op: OpView) -> OpView {
    match op {
        OpView::Root => OpView::Root,
        OpView::Add(it) => OpView::Add(it),
        OpView::Remove(loc, it) => match remap_lookup(m, it.id) {
            Some(n) => OpView::Remove(loc, ItemView { id: n, title: it.title, done: it.done }),
            None => op,
        },
        OpView::Edit(old, new) => match remap_lookup(m, old.id) {
            Some(n) => OpView::Edit(
                ItemView { id: n, title: old.title, done: old.done },
                ItemView { id: n, title: new.title, done: new.done },
            ),
            None => op,
        },
        OpView::MoveTo { id, old_loc, new_loc } => match remap_lookup(m, id) {
            Some(n) => OpView::MoveTo { id: n, old_loc, new_loc },
            None => op,
        },
    }
}

/// The record `c` with its operation redirected through the remap.
pub open spec fn remap_change(m: Seq<(Id, Id)>, c: ChangeView) -> ChangeView {
    ChangeView { id: c.id, stamp: c.stamp, op: remap_op(m, c.op) }
}

/// The remap after skipping the incoming record `c` in favour of the
/// confirmed record `conf`: a skipped add redirects its identifier to the
/// surviving item.
pub open spec fn skip_remap(m: Seq<(Id, Id)>, c: ChangeView, conf: ChangeView) -> Seq<(Id, Id)> {
    match (c.op, conf.op) {
        (OpView::Add(ii), OpView::Add(ei)) => seq![(ii.id, ei.id)] + m,
        (OpView::Add(ii), OpView::Edit(eo, en)) => seq![(ii.id, en.id)] + m,
        _ => m,
    }
}

/// Rebases the remaining incoming records over `confirmed`, carrying the
/// remap and the output built so far; `None` is an unresolvable conflict.
pub open spec fn transform_rec(
    confirmed: Seq<ChangeView>,
    rest: Seq<ChangeView>,
    m: Seq<(Id, Id)>,
    out: Seq<ChangeView>,
) -> Option<Seq<ChangeView>>
    decreases rest.len(),
{
    if rest.len() == 0 {
        Some(out)
    } else {
        let c = remap_change(m, rest[0]);
        match spec_transform_one(confirmed, c) {
            TransformStep::Apply => transform_rec(confirmed, rest.drop_first(), m, out.push(c)),
            TransformStep::Skip(conf) => transform_rec(
                confirmed,
                rest.drop_first(),
                skip_remap(m, c, conf),
                out,
            ),
            TransformStep::Conflict => None,
        }
    }
}

/// Rebases `incoming` onto `confirmed`: each incoming record is redirected
/// through the remap accumulated so far and then either emitted or skipped,
/// the skip of an add redirecting later references to the surviving item.
/// `None` is an unresolvable conflict.
pub open spec fn spec_transform(confirmed: Seq<ChangeView>, incoming: Seq<ChangeView>) -> Option<
    Seq<ChangeView>,
> {
    transform_rec(confirmed, incoming, Seq::empty(), Seq::empty())
}

/// With nothing confirmed since the fork there is nothing to rebase
/// against: the transform returns the incoming records unchanged.
pub proof fn lemma_transform_empty(incoming: Seq<ChangeView>)
    requires
        forall|k: int| 0 <= k < incoming.len() ==> !((#[trigger] incoming[k]).op is Root),
    ensures
        spec_transform(Seq::empty(), incoming) == Some(incoming),
{
    lemma_transform_empty_rec(incoming, Seq::empty());
    assert(Seq::<ChangeView>::empty() + incoming =~= incoming);
}

proof fn lemma_transform_empty_rec(rest: Seq<ChangeView>, out: Seq<ChangeView>)
    requires
        forall|k: int| 0 <= k < rest.len() ==> !((#[trigger] rest[k]).op is Root),
    ensures
        transform_rec(Seq::empty(), rest, Seq::empty(), out) == Some(out + rest),
    decreases rest.len(),
{
    if rest.len() == 0 {
        assert(out + rest =~= out);
    } else {
        let c = remap_change(Seq::empty(), rest[0]);
        assert(remap_op(Seq::empty(), rest[0].op) == rest[0].op);
        assert(c == rest[0]);
        assert(spec_transform_one(Seq::empty(), c) == TransformStep::Apply);
        lemma_transform_empty_rec(rest.drop_first(), out.push(c));
        assert(out.push(c) + rest.drop_first() =~= out + rest);
    }
}

/// The exec form of the remap: pairs searched front to back, newest first.
struct IdMap {
    pairs: Vec<(Id, Id)>,
}

impl IdMap {
    fn new() -> (r: Self)
        ensures
            r.pairs@ =~= Seq::<(Id, Id)>::empty(),
    {
        IdMap { pairs: Vec::new() }
    }

    fn lookup(&self, k: Id) -> (r: Option<Id>)
        ensures
            r == remap_lookup(self.pairs@, k),
    {
        let mut j: usize = 0;
        proof {
            assert(self.pairs@.skip(0) =~= self.pairs@);
        }
        while j < self.pairs.len()
            invariant
                0 <= j <= self.pairs@.len(),
                remap_lookup(self.pairs@, k) == remap_lookup(self.pairs@.skip(j as int), k),
            decreases self.pairs@.len() - j
        {
            proof {
                assert(self.pairs@.skip(j as int)[0] == self.pairs@[j as int]);
                assert(self.pairs@.skip(j as int).drop_first() =~= self.pairs@.skip(j + 1));
            }
            if self.pairs[j].0 == k {
                return Some(self.pairs[j].1);
            }
            j += 1;
        }
        proof {
            assert(self.pairs@.skip(j as int) =~= Seq::<(Id, Id)>::empty());
        }
        None
    }

    fn put(&mut self, k: Id, v: Id)
        ensures
            final(self).pairs@ =~= seq![(k, v)] + old(self).pairs@,
    {
        self.pairs.insert(0, (k, v));
    }
}

/// Whether `op` mentions the item named `id`.
fn op_touches_exec(op: &Operation, id: Id) -> (b: bool)
    ensures
        b == op_touches(op@, id),
{
    match op {
        Operation::Root => false,
        Operation::Add(it) => it.id == id,
        Operation::Remove(_, it) => it.id == id,
        Operation::Edit(old, new) => old.id == id || new.id == id,
        Operation::MoveTo { id: m, old_loc: _, new_loc: _ } => *m == id,
    }
}

/// Whether the two items are equal, field for field.
fn item_eq(a: &ListItem, b: &ListItem) -> (r: bool)
    ensures
        r == (a@ == b@),
{
    a.id == b.id && a.title == b.title && a.done == b.done
}

/// Folds `change`, where it is an edit, into the nearest `Add` of the same
/// item in `out`, in place.  Returns whether it was folded; an unfolded
/// record is for the caller to keep.
fn squash_one(out: &mut Vec<Change>, change: &Change) -> (merged: bool)
    ensures
        merged ==> squash_into(records_deep(old(out)@), change@) == Some(
            records_deep(final(out)@),
        ) && final(out)@.len() == old(out)@.len(),
        !merged ==> squash_into(records_deep(old(out)@), change@) is None && final(out)@ == old(
            out,
        )@,
{
    let ghost whole = records_deep(out@);
    let (edit_old, edit_new) = match &change.operation {
        Operation::Edit(old_item, new_item) => (old_item, new_item),
        _ => {
            return false;
        },
    };
    let mut j: usize = out.len();
    proof {
        assert(whole.take(j as int) =~= whole);
        assert(whole.skip(j as int) =~= Seq::<ChangeView>::empty());
        match squash_into(whole, change@) {
            Some(s) => {
                assert(s + Seq::<ChangeView>::empty() =~= s);
            },
            None => {},
        }
    }
    while j > 0
        invariant
            0 <= j <= out@.len(),
            out@ == old(out)@,
            whole == records_deep(out@),
            change@.op matches OpView::Edit(o, n) && o == edit_old@ && n == edit_new@,
            squash_into(whole, change@) == (match squash_into(whole.take(j as int), change@) {
                Some(s) => Some(s + whole.skip(j as int)),
                None => None::<Seq<ChangeView>>,
            }),
        decreases j
    {
        let ghost prefix = whole.take(j as int);
        proof {
            assert(prefix.last() == whole[j - 1]);
            assert(prefix.drop_last() =~= whole.take(j - 1));
        }
        if op_touches_exec(&out[j - 1].operation, edit_old.id) {
            match &out[j - 1].operation {
                Operation::Add(x) => {
                    if item_eq(x, edit_old) {
                        let merged_rec = Change {
                            id: out[j - 1].id,
                            stamp: out[j - 1].stamp,
                            operation: Operation::Add(edit_new.clone()),
                        };
                        proof {
                            assert(squash_into(prefix, change@) == Some(
                                prefix.update(j - 1, absorbed(whole[j - 1], edit_new@)),
                            ));
                        }
                        let slot = &mut out[j - 1];
                        *slot = merged_rec;
                        proof {
                            assert(records_deep(final(out)@) =~= whole.update(
                                j - 1,
                                absorbed(whole[j - 1], edit_new@),
                            ));
                            assert(prefix.update(j - 1, absorbed(whole[j - 1], edit_new@))
                                + whole.skip(j as int) =~= whole.update(
                                j - 1,
                                absorbed(whole[j - 1], edit_new@),
                            ));
                        }
                        return true;
                    } else {
                        proof {
                            assert(squash_into(prefix, change@) is None);
                        }
                        return false;
                    }
                },
                _ => {
                    proof {
                        assert(squash_into(prefix, change@) is None);
                    }
                    return false;
                },
            }
        }
        proof {
            let shorter = whole.take(j - 1);
            match squash_into(shorter, change@) {
                Some(s) => {
                    assert(squash_into(prefix, change@) == Some(s.push(prefix.last())));
                    assert(s.push(prefix.last()) + whole.skip(j as int) =~= s + whole.skip(
                        j - 1,
                    )) by {
                        assert(whole.skip(j - 1)[0] == whole[j - 1]);
                        assert(whole.skip(j - 1).drop_first() =~= whole.skip(j as int));
                    }
                },
                None => {
                    assert(squash_into(prefix, change@) is None);
                },
            }
        }
        j -= 1;
    }
    proof {
        assert(whole.take(0) =~= Seq::<ChangeView>::empty());
    }
    false
}

/// The exec form of a transform decision.
enum TransformOutcome {
    Apply,
    Skip(Change),
    Conflict,
}

/// The decision one confirmed record forces on the incoming record, or
/// `None` where the scan continues.
fn step_rule_exec(conf: &Change, c: &Change) -> (r: Option<TransformOutcome>)
    ensures
        match r {
            Some(TransformOutcome::Apply) => step_rule(conf@, c@) == Some(TransformStep::Apply),
            Some(TransformOutcome::Skip(s)) => step_rule(conf@, c@) == Some(
                TransformStep::Skip(s@),
            ),
            Some(TransformOutcome::Conflict) => step_rule(conf@, c@) == Some(
                TransformStep::Conflict,
            ),
            None => step_rule(conf@, c@) is None,
        },
{
    match (&conf.operation, &c.operation) {
        (Operation::Add(ci), Operation::Add(ii)) => {
            if ci.id == ii.id {
                Some(TransformOutcome::Conflict)
            } else if ci.title == ii.title {
                Some(TransformOutcome::Skip(conf.clone()))
            } else {
                None
            }
        },
        (Operation::Add(ci), Operation::Edit(io, _)) => {
            if ci.id == io.id {
                if ci.title == io.title {
                    Some(TransformOutcome::Apply)
                } else {
                    Some(TransformOutcome::Conflict)
                }
            } else {
                None
            }
        },
        (Operation::Edit(co, cn), Operation::Add(ii)) => {
            if co.id == ii.id {
                Some(TransformOutcome::Conflict)
            } else if ii.title == cn.title {
                Some(TransformOutcome::Skip(conf.clone()))
            } else {
                None
            }
        },
        (Operation::Edit(co, _), Operation::Edit(io, _)) => {
            if co.id == io.id {
                if co.title == io.title {
                    Some(TransformOutcome::Apply)
                } else {
                    Some(TransformOutcome::Conflict)
                }
            } else {
                None
            }
        },
        (Operation::Remove(_, ci), Operation::Remove(_, ii)) => {
            if ci.id == ii.id {
                Some(TransformOutcome::Skip(conf.clone()))
            } else {
                None
            }
        },
        (Operation::Remove(_, ci), Operation::Edit(io, _)) => {
            if ci.id == io.id {
                Some(TransformOutcome::Conflict)
            } else {
                None
            }
        },
        (Operation::Add(ci), Operation::Remove(_, ii)) => {
            if ci.id == ii.id {
                Some(TransformOutcome::Apply)
            } else {
                None
            }
        },
        _ => None,
    }
}

/// The decision for the incoming record `c`, scanning the confirmed records
/// newest first.
fn transform_one(confirmed: &Vec<Change>, c: &Change) -> (r: TransformOutcome)
    ensures
        match r {
            TransformOutcome::Apply => spec_transform_one(records_deep(confirmed@), c@)
                == TransformStep::Apply,
            TransformOutcome::Skip(s) => spec_transform_one(records_deep(confirmed@), c@)
                == TransformStep::Skip(s@),
            TransformOutcome::Conflict => spec_transform_one(records_deep(confirmed@), c@)
                == TransformStep::Conflict,
        },
{
    let ghost whole = records_deep(confirmed@);
    if let Operation::Root = &c.operation {
        return TransformOutcome::Conflict;
    }
    let mut j: usize = confirmed.len();
    proof {
        assert(whole.take(j as int) =~= whole);
    }
    while j > 0
        invariant
            0 <= j <= confirmed@.len(),
            whole == records_deep(confirmed@),
            !(c@.op is Root),
            spec_transform_one(whole, c@) == spec_transform_one(whole.take(j as int), c@),
        decreases j
    {
        let ghost prefix = whole.take(j as int);
        proof {
            assert(prefix.last() == whole[j - 1]);
            assert(prefix.drop_last() =~= whole.take(j - 1));
        }
        match step_rule_exec(&confirmed[j - 1], c) {
            Some(outcome) => {
                return outcome;
            },
            None => {},
        }
        j -= 1;
    }
    proof {
        assert(whole.take(0) =~= Seq::<ChangeView>::empty());
    }
    TransformOutcome::Apply
}

/// The record `c` with its item identifiers redirected through the remap.
fn apply_remap(m: &IdMap, c: &Change) -> (r: Change)
    ensures
        r@ == remap_change(m.pairs@, c@),
{
    match &c.operation {
        Operation::Remove(loc, it) => match m.lookup(it.id) {
            Some(n) => Change {
                id: c.id,
                stamp: c.stamp,
                operation: Operation::Remove(
                    *loc,
                    ListItem { id: n, title: it.title.clone(), done: it.done },
                ),
            },
            None => c.clone(),
        },
        Operation::Edit(old_item, new_item) => match m.lookup(old_item.id) {
            Some(n) => Change {
                id: c.id,
                stamp: c.stamp,
                operation: Operation::Edit(
                    ListItem { id: n, title: old_item.title.clone(), done: old_item.done },
                    ListItem { id: n, title: new_item.title.clone(), done: new_item.done },
                ),
            },
            None => c.clone(),
        },
        Operation::MoveTo { id, old_loc, new_loc } => match m.lookup(*id) {
            Some(n) => Change {
                id: c.id,
                stamp: c.stamp,
                operation: Operation::MoveTo { id: n, old_loc: *old_loc, new_loc: *new_loc },
            },
            None => c.clone(),
        },
        _ => c.clone(),
    }
}

/// Rebases `incoming` onto `confirmed`.  Emitted records are redirected
/// through the remap that earlier skipped adds accumulated; an incoming
/// operation that cannot be reconciled is `CannotCommit`.
pub(crate) fn transform(confirmed: &Vec<Change>, incoming: &Vec<Change>) -> (r: Result<
    Vec<Change>,
    ListError,
>)
    ensures
        match r {
            Ok(out) => spec_transform(records_deep(confirmed@), records_deep(incoming@)) == Some(
                records_deep(out@),
            ) && out@.len() <= incoming@.len(),
            Err(e) => spec_transform(records_deep(confirmed@), records_deep(incoming@)) is None
                && e == ListError::CannotCommit,
        },
{
    let ghost conf_views = records_deep(confirmed@);
    let ghost in_views = records_deep(incoming@);
    let mut m = IdMap::new();
    let mut out: Vec<Change> = Vec::new();
    let mut i: usize = 0;
    proof {
        assert(in_views.skip(0) =~= in_views);
        assert(records_deep(out@) =~= Seq::<ChangeView>::empty());
    }
    while i < incoming.len()
        invariant
            0 <= i <= in_views.len(),
            conf_views == records_deep(confirmed@),
            in_views == records_deep(incoming@),
            out@.len() <= i,
            transform_rec(conf_views, in_views.skip(i as int), m.pairs@, records_deep(out@))
                == spec_transform(conf_views, in_views),
        decreases in_views.len() - i
    {
        let ghost acc = records_deep(out@);
        proof {
            assert(in_views.skip(i as int)[0] == in_views[i as int]);
            assert(in_views.skip(i as int).drop_first() =~= in_views.skip(i + 1));
            assert(incoming@[i as int]@ == in_views[i as int]);
        }
        let rc = apply_remap(&m, &incoming[i]);
        match transform_one(confirmed, &rc) {
            TransformOutcome::Apply => {
                out.push(rc);
                proof {
                    assert(records_deep(out@) =~= acc.push(remap_change(
                        m.pairs@,
                        in_views[i as int],
                    )));
                }
            },
            TransformOutcome::Skip(conf) => {
                let ghost m_prev = m.pairs@;
                let ghost rcv = remap_change(m_prev, in_views[i as int]);
                match (&rc.operation, &conf.operation) {
                    (Operation::Add(ii), Operation::Add(ei)) => {
                        m.put(ii.id, ei.id);
                    },
                    (Operation::Add(ii), Operation::Edit(_, en)) => {
                        m.put(ii.id, en.id);
                    },
                    _ => {},
                }
                proof {
                    assert(m.pairs@ =~= skip_remap(m_prev, rcv, conf@));
                }
            },
            TransformOutcome::Conflict => {
                return Err(ListError::CannotCommit);
            },
        }
        i += 1;
    }
    proof {
        assert(in_views.skip(i as int) =~= Seq::<ChangeView>::empty());
    }
    Ok(out)
}

/// Squashes a commit slice: the anchor in front passes through untouched;
/// in the rest, adding an item and then editing it collapses to adding the
/// edited item.
pub(crate) fn squash_changes(changes: &Vec<Change>) -> (r: Vec<Change>)
    requires
        changes@.len() >= 1,
    ensures
        records_deep(r@) == spec_squash(records_deep(changes@)),
        1 <= r@.len() <= changes@.len(),
        r@[0]@ == changes@[0]@,
{
    let ghost cs = records_deep(changes@);
    let ghost rest = cs.drop_first();
    let mut tail: Vec<Change> = Vec::new();
    let mut i: usize = 1;
    proof {
        assert(records_deep(tail@) =~= Seq::<ChangeView>::empty());
        assert(rest.skip(0) =~= rest);
    }
    while i < changes.len()
        invariant
            1 <= i <= changes@.len(),
            cs == records_deep(changes@),
            rest == cs.drop_first(),
            tail@.len() <= i - 1,
            squash_rec(Seq::<ChangeView>::empty(), rest) == squash_rec(
                records_deep(tail@),
                rest.skip(i - 1),
            ),
        decreases changes@.len() - i
    {
        let ghost acc = records_deep(tail@);
        proof {
            assert(rest.skip(i - 1)[0] == cs[i as int]);
            assert(rest.skip(i - 1).drop_first() =~= rest.skip(i as int));
            assert(changes@[i as int]@ == cs[i as int]);
        }
        let merged = squash_one(&mut tail, &changes[i]);
        if !merged {
            tail.push(changes[i].clone());
            proof {
                assert(records_deep(tail@) =~= acc.push(cs[i as int]));
            }
        }
        i += 1;
    }
    proof {
        assert(rest.skip(i - 1) =~= Seq::<ChangeView>::empty());
    }
    let mut r: Vec<Change> = Vec::new();
    r.push(changes[0].clone());
    r.append(&mut tail);
    proof {
        assert(records_deep(r@) =~= seq![cs[0]] + squash_rec(Seq::<ChangeView>::empty(), rest));
    }
    r
}

} // verus!
