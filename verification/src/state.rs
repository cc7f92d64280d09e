//! The state model: what applying or reverting one operation means for the
//! sequence of items, and the laws relating the two.
//!
//! Applying an operation also *normalizes* it: the stored record carries the
//! index the operation actually acted on and the item value it actually
//! replaced or removed, so that a revert can restore the previous state
//! exactly.  [`lemma_apply_then_revert`] states that law; it is what makes
//! undo, redo, and batch rollback exact.

use vstd::prelude::*;

use crate::errors::ListError;
use crate::id::Id;
use crate::item::ItemView;
use crate::op::OpView;

verus! {

/// Well-formedness of a list state: no two items share an identifier, and no
/// two items share a title.
pub open spec fn wf_items(s: Seq<ItemView>) -> bool {
    forall|i: int, j: int|
        0 <= i < j < s.len() ==> (#[trigger] s[i]).id != (#[trigger] s[j]).id && s[i].title
            != s[j].title
}

/// Whether some item of `s` carries the identifier `id`.
pub open spec fn contains_id(s: Seq<ItemView>, id: Id) -> bool {
    exists|k: int| 0 <= k < s.len() && (#[trigger] s[k]).id == id
}

/// Whether some item of `s` carries the title `title`.
pub open spec fn contains_title(s: Seq<ItemView>, title: Seq<char>) -> bool {
    exists|k: int| 0 <= k < s.len() && (#[trigger] s[k]).title == title
}

/// The index of the item of `s` carrying `id`; meaningful only when
/// `contains_id(s, id)`, and unique when `s` is well formed.
pub open spec fn idx_of_id(s: Seq<ItemView>, id: Id) -> int {
    choose|k: int| 0 <= k < s.len() && (#[trigger] s[k]).id == id
}

/// In a well-formed state the index of an identifier is the position it was
/// seen at.
pub proof fn lemma_idx_of_id(s: Seq<ItemView>, k: int)
    requires
        wf_items(s),
        0 <= k < s.len(),
    ensures
        contains_id(s, s[k].id),
        idx_of_id(s, s[k].id) == k,
{
    assert(contains_id(s, s[k].id));
    let j = idx_of_id(s, s[k].id);
    assert(0 <= j < s.len() && s[j].id == s[k].id);
}

/// The index of the item of `s` carrying `title`; meaningful only when
/// `contains_title(s, title)`, and unique when `s` is well formed.
pub open spec fn idx_of_title(s: Seq<ItemView>, title: Seq<char>) -> int {
    choose|k: int| 0 <= k < s.len() && (#[trigger] s[k]).title == title
}

/// In a well-formed state the index of a title is the position it was seen
/// at.
pub proof fn lemma_idx_of_title(s: Seq<ItemView>, k: int)
    requires
        wf_items(s),
        0 <= k < s.len(),
    ensures
        contains_title(s, s[k].title),
        idx_of_title(s, s[k].title) == k,
{
    assert(contains_title(s, s[k].title));
    let j = idx_of_title(s, s[k].title);
    assert(0 <= j < s.len() && s[j].title == s[k].title);
}

/// Whether every item of `s` created by `agent` has a counter at most `m`.
pub open spec fn ids_below(s: Seq<ItemView>, agent: u32, m: u32) -> bool {
    forall|x: int|
        0 <= x < s.len() ==> ((#[trigger] s[x]).id.agent == agent ==> s[x].id.id <= m)
}

/// Applying an operation cannot introduce an item counter above `m` for
/// `agent`, unless the operation is an `Add` that itself carries one.
pub proof fn lemma_apply_ids_below(s: Seq<ItemView>, op: OpView, agent: u32, m: u32)
    requires
        apply_result(s, op) is Some,
        ids_below(s, agent, m),
        op matches OpView::Add(it) ==> (it.id.agent == agent ==> it.id.id <= m),
    ensures
        ids_below(apply_result(s, op)->Some_0.0, agent, m),
{
    let t = apply_result(s, op)->Some_0.0;
    match op {
        OpView::Root => {},
        OpView::Add(it) => {
            assert forall|x: int|
                0 <= x < t.len() && (#[trigger] t[x]).id.agent == agent implies t[x].id.id
                <= m by {
                if x < s.len() {
                    assert(t[x] == s[x]);
                }
            }
        },
        OpView::Remove(loc, it) => {
            let p = idx_of_id(s, it.id);
            s.remove_ensures(p);
            assert forall|x: int|
                0 <= x < t.len() && (#[trigger] t[x]).id.agent == agent implies t[x].id.id
                <= m by {
                if x < p {
                    assert(t[x] == s[x]);
                } else {
                    assert(t[x] == s[x + 1]);
                }
            }
        },
        OpView::Edit(old, new) => {
            let p = idx_of_id(s, old.id);
            assert(0 <= p < s.len() && s[p].id == old.id);
            assert forall|x: int|
                0 <= x < t.len() && (#[trigger] t[x]).id.agent == agent implies t[x].id.id
                <= m by {
                if x != p {
                    assert(t[x] == s[x]);
                } else {
                    assert(t[x] == new);
                    assert(new.id == s[p].id);
                }
            }
        },
        OpView::MoveTo { id, old_loc, new_loc } => {
            let p = idx_of_id(s, id);
            lemma_move_seq(s, p, new_loc);
            assert forall|x: int|
                0 <= x < t.len() && (#[trigger] t[x]).id.agent == agent implies t[x].id.id
                <= m by {
                assert(t[x] == s[move_src(p, new_loc, x)]);
            }
        },
    }
}

/// The state after moving the item at `from` to position `to`.
pub open spec fn move_seq(s: Seq<ItemView>, from: int, to: int) -> Seq<ItemView>
    recommends
        0 <= from < s.len(),
        0 <= to < s.len(),
{
    s.remove(from).insert(to, s[from])
}

/// The index of `s` that position `k` of `move_seq(s, from, to)` came from.
pub open spec fn move_src(from: int, to: int, k: int) -> int {
    if k == to {
        from
    } else {
        let k2: int = if k < to {
            k
        } else {
            k - 1
        };
        if k2 < from {
            k2
        } else {
            k2 + 1
        }
    }
}

/// A move permutes the items: each position of the result holds the source
/// item `move_src` names, and distinct positions name distinct sources.
pub proof fn lemma_move_seq(s: Seq<ItemView>, from: int, to: int)
    requires
        0 <= from < s.len(),
        0 <= to < s.len(),
    ensures
        move_seq(s, from, to).len() == s.len(),
        forall|k: int|
            0 <= k < s.len() ==> 0 <= #[trigger] move_src(from, to, k) < s.len() && move_seq(
                s,
                from,
                to,
            )[k] == s[move_src(from, to, k)],
        forall|i: int, j: int|
            0 <= i < j < s.len() ==> move_src(from, to, i) != move_src(from, to, j),
{
    let u = s.remove(from);
    s.remove_ensures(from);
    u.insert_ensures(to, s[from]);
    let t = move_seq(s, from, to);
    assert forall|k: int| 0 <= k < s.len() implies 0 <= #[trigger] move_src(from, to, k) < s.len()
        && t[k] == s[move_src(from, to, k)] by {
        if k == to {
        } else if k < to {
            assert(t[k] == u[k]);
        } else {
            assert(t[k] == u[k - 1]);
        }
    }
}

/// The result of applying `op` to the state `s`: the new state paired with
/// the normalized record of the operation, or `None` where the operation
/// cannot be applied.
///
/// `Add` demands a fresh identifier and a fresh title; `Remove` and `MoveTo`
/// find their item by identifier; `Edit` finds the item by the old record's
/// identifier, may not change the identifier, and may not retitle the item
/// to a title another item holds.
pub open spec fn apply_result(s: Seq<ItemView>, op: OpView) -> Option<(Seq<ItemView>, OpView)> {
    match op {
        OpView::Root => None,
        OpView::Add(it) => if !contains_id(s, it.id) && !contains_title(s, it.title) {
            Some((s.push(it), OpView::Add(it)))
        } else {
            None
        },
        OpView::Remove(loc, it) => if contains_id(s, it.id) {
            let p = idx_of_id(s, it.id);
            Some((s.remove(p), OpView::Remove(p, s[p])))
        } else {
            None
        },
        OpView::Edit(old, new) => if contains_id(s, old.id) && new.id == old.id {
            let p = idx_of_id(s, old.id);
            if new.title == s[p].title || !contains_title(s, new.title) {
                Some((s.update(p, new), OpView::Edit(s[p], new)))
            } else {
                None
            }
        } else {
            None
        },
        OpView::MoveTo { id, old_loc, new_loc } => if contains_id(s, id) && 0 <= new_loc
            < s.len() {
            let p = idx_of_id(s, id);
            Some((move_seq(s, p, new_loc), OpView::MoveTo { id, old_loc: p, new_loc }))
        } else {
            None
        },
    }
}

/// The result of reverting a *normalized* record `op` on the state `s`, or
/// `None` where the record does not match the state.
pub open spec fn revert_result(s: Seq<ItemView>, op: OpView) -> Option<Seq<ItemView>> {
    match op {
        OpView::Root => None,
        OpView::Add(it) => if s.len() > 0 && s.last() == it {
            Some(s.drop_last())
        } else {
            None
        },
        OpView::Remove(loc, it) => if 0 <= loc <= s.len() && !contains_id(s, it.id)
            && !contains_title(s, it.title) {
            Some(s.insert(loc, it))
        } else {
            None
        },
        OpView::Edit(old, new) => if contains_id(s, new.id) && old.id == new.id {
            let p = idx_of_id(s, new.id);
            if s[p] == new && (old.title == new.title || !contains_title(s, old.title)) {
                Some(s.update(p, old))
            } else {
                None
            }
        } else {
            None
        },
        OpView::MoveTo { id, old_loc, new_loc } => if 0 <= new_loc < s.len() && s[new_loc].id == id
            && 0 <= old_loc < s.len() {
            Some(move_seq(s, new_loc, old_loc))
        } else {
            None
        },
    }
}

/// Applying an operation to a well-formed state yields a well-formed state,
/// and reverting the normalized record restores the old state exactly.
pub proof fn lemma_apply_then_revert(s: Seq<ItemView>, op: OpView)
    requires
        wf_items(s),
        apply_result(s, op) is Some,
    ensures
        wf_items(apply_result(s, op)->Some_0.0),
        revert_result(apply_result(s, op)->Some_0.0, apply_result(s, op)->Some_0.1) == Some(s),
{
    let (t, nop) = apply_result(s, op)->Some_0;
    match op {
        OpView::Root => {},
        OpView::Add(it) => {
            assert(t == s.push(it));
            assert forall|i: int, j: int| 0 <= i < j < t.len() implies (#[trigger] t[i]).id != (
            #[trigger] t[j]).id && t[i].title != t[j].title by {
                if j == s.len() {
                    assert(t[i] == s[i]);
                    assert(t[j] == it);
                    if s[i].id == it.id {
                        assert(contains_id(s, it.id));
                    }
                    if s[i].title == it.title {
                        assert(contains_title(s, it.title));
                    }
                } else {
                    assert(t[i] == s[i] && t[j] == s[j]);
                }
            }
            assert(t.last() == it);
            assert(t.drop_last() =~= s);
        },
        OpView::Remove(loc, it) => {
            let p = idx_of_id(s, it.id);
            assert(0 <= p < s.len() && s[p].id == it.id);
            s.remove_ensures(p);
            assert(t == s.remove(p));
            assert forall|i: int, j: int| 0 <= i < j < t.len() implies (#[trigger] t[i]).id != (
            #[trigger] t[j]).id && t[i].title != t[j].title by {
                let i2: int = if i < p {
                    i
                } else {
                    i + 1
                };
                let j2: int = if j < p {
                    j
                } else {
                    j + 1
                };
                assert(t[i] == s[i2] && t[j] == s[j2]);
            }
            assert forall|k: int| 0 <= k < t.len() implies (#[trigger] t[k]).id != s[p].id && t[k].title
                != s[p].title by {
                let k2: int = if k < p {
                    k
                } else {
                    k + 1
                };
                assert(t[k] == s[k2]);
            }
            assert(!contains_id(t, s[p].id));
            assert(!contains_title(t, s[p].title));
            assert(nop == OpView::Remove(p, s[p]));
            assert(t.insert(p, s[p]) =~= s) by {
                t.insert_ensures(p, s[p]);
                assert forall|k: int| 0 <= k < s.len() implies t.insert(p, s[p])[k] == s[k] by {
                    if k < p {
                        assert(t.insert(p, s[p])[k] == t[k]);
                    } else if k == p {
                    } else {
                        assert(t.insert(p, s[p])[k] == t[k - 1]);
                    }
                }
            }
        },
        OpView::Edit(old, new) => {
            let p = idx_of_id(s, old.id);
            assert(0 <= p < s.len() && s[p].id == old.id);
            assert(t == s.update(p, new));
            assert forall|i: int, j: int| 0 <= i < j < t.len() implies (#[trigger] t[i]).id != (
            #[trigger] t[j]).id && t[i].title != t[j].title by {
                if i != p && j != p {
                    assert(t[i] == s[i] && t[j] == s[j]);
                } else {
                    let o: int = if i == p {
                        j
                    } else {
                        i
                    };
                    assert(t[o] == s[o]);
                    assert(s[o].id != s[p].id);
                    if new.title != s[p].title {
                        if s[o].title == new.title {
                            assert(contains_title(s, new.title));
                        }
                    }
                }
            }
            assert(contains_id(t, new.id)) by {
                assert(t[p].id == new.id);
            }
            let q = idx_of_id(t, new.id);
            assert(0 <= q < t.len() && t[q].id == new.id);
            assert(q == p) by {
                if q != p {
                    assert(t[q] == s[q]);
                    assert(s[q].id != s[p].id);
                }
            }
            assert(nop == OpView::Edit(s[p], new));
            // The replaced item's title is free again after the revert.
            if s[p].title != new.title {
                assert forall|k: int| 0 <= k < t.len() implies (#[trigger] t[k]).title != s[p].title by {
                    if k != p {
                        assert(t[k] == s[k]);
                        assert(s[k].title != s[p].title);
                    }
                }
                assert(!contains_title(t, s[p].title));
            }
            assert(t.update(p, s[p]) =~= s);
        },
        OpView::MoveTo { id, old_loc, new_loc } => {
            let p = idx_of_id(s, id);
            assert(0 <= p < s.len() && s[p].id == id);
            lemma_move_seq(s, p, new_loc);
            assert(t == move_seq(s, p, new_loc));
            assert forall|i: int, j: int| 0 <= i < j < t.len() implies (#[trigger] t[i]).id != (
            #[trigger] t[j]).id && t[i].title != t[j].title by {
                let i2 = move_src(p, new_loc, i);
                let j2 = move_src(p, new_loc, j);
                assert(t[i] == s[i2] && t[j] == s[j2]);
                assert(i2 != j2);
                if i2 < j2 {
                    assert(s[i2].id != s[j2].id && s[i2].title != s[j2].title);
                } else {
                    assert(s[j2].id != s[i2].id && s[j2].title != s[i2].title);
                }
            }
            assert(nop == OpView::MoveTo { id, old_loc: p, new_loc });
            assert(t[new_loc] == s[p]) by {
                assert(move_src(p, new_loc, new_loc) == p);
            }
            assert(t[new_loc].id == id);
            // Moving back restores the old order.
            let u = s.remove(p);
            s.remove_ensures(p);
            u.insert_ensures(new_loc, s[p]);
            assert(t.remove(new_loc) =~= u) by {
                t.remove_ensures(new_loc);
                assert forall|k: int| 0 <= k < u.len() implies t.remove(new_loc)[k] == u[k] by {
                    if k < new_loc {
                        assert(t.remove(new_loc)[k] == t[k]);
                        assert(t[k] == u[k]);
                    } else {
                        assert(t.remove(new_loc)[k] == t[k + 1]);
                        assert(t[k + 1] == u[k]);
                    }
                }
            }
            assert(u.insert(p, s[p]) =~= s) by {
                u.insert_ensures(p, s[p]);
                assert forall|k: int| 0 <= k < s.len() implies u.insert(p, s[p])[k] == s[k] by {
                    if k < p {
                        assert(u.insert(p, s[p])[k] == u[k]);
                        assert(u[k] == s[k]);
                    } else if k == p {
                    } else {
                        assert(u.insert(p, s[p])[k] == u[k - 1]);
                        assert(u[k - 1] == s[k]);
                    }
                }
            }
            assert(move_seq(t, new_loc, p) == u.insert(p, s[p]));
        },
    }
}

/// A normalized record is a fixed point: applying it to the state it was
/// normalized against yields the same state and the same record.
pub proof fn lemma_apply_normalizes(s: Seq<ItemView>, op: OpView)
    requires
        apply_result(s, op) is Some,
    ensures
        apply_result(s, apply_result(s, op)->Some_0.1) == apply_result(s, op),
{
    let (t, nop) = apply_result(s, op)->Some_0;
    match op {
        OpView::Root => {},
        OpView::Add(it) => {},
        OpView::Remove(loc, it) => {
            let p = idx_of_id(s, it.id);
            assert(0 <= p < s.len() && s[p].id == it.id);
            assert(contains_id(s, s[p].id));
        },
        OpView::Edit(old, new) => {
            let p = idx_of_id(s, old.id);
            assert(0 <= p < s.len() && s[p].id == old.id);
            assert(contains_id(s, s[p].id));
        },
        OpView::MoveTo { id, old_loc, new_loc } => {
            let p = idx_of_id(s, id);
            assert(0 <= p < s.len() && s[p].id == id);
        },
    }
}

/// The error an operation fails with, meaningful where
/// `apply_result(s, op)` is `None`: a missing target is `NotFound`, while a
/// duplicate identifier or title, an identifier change, or a `Root`
/// operation in an applied position would break an invariant.
pub open spec fn apply_err(s: Seq<ItemView>, op: OpView) -> ListError {
    match op {
        OpView::Root => ListError::InvariantViolated,
        OpView::Add(it) => ListError::InvariantViolated,
        OpView::Remove(loc, it) => ListError::NotFound,
        OpView::Edit(old, new) => if !contains_id(s, old.id) {
            ListError::NotFound
        } else {
            ListError::InvariantViolated
        },
        OpView::MoveTo { id, old_loc, new_loc } => ListError::NotFound,
    }
}

/// The error the first failing step of a batch fails with, meaningful where
/// `apply_norm(s, ops)` is `None`.
pub open spec fn batch_err(s: Seq<ItemView>, ops: Seq<OpView>) -> ListError
    decreases ops.len(),
{
    if ops.len() == 0 {
        ListError::InvariantViolated
    } else {
        match apply_result(s, ops[0]) {
            Some((t, nop)) => batch_err(t, ops.drop_first()),
            None => apply_err(s, ops[0]),
        }
    }
}

/// The result of applying a sequence of operations in order: the final state
/// paired with the normalized records, or `None` where some step fails.
pub open spec fn apply_norm(s: Seq<ItemView>, ops: Seq<OpView>) -> Option<
    (Seq<ItemView>, Seq<OpView>),
>
    decreases ops.len(),
{
    if ops.len() == 0 {
        Some((s, Seq::empty()))
    } else {
        match apply_result(s, ops[0]) {
            Some((t, nop)) => match apply_norm(t, ops.drop_first()) {
                Some((u, rest)) => Some((u, seq![nop] + rest)),
                None => None,
            },
            None => None,
        }
    }
}

/// The state after applying a sequence of operations, ignoring the
/// normalized records.
pub open spec fn apply_ops(s: Seq<ItemView>, ops: Seq<OpView>) -> Option<Seq<ItemView>> {
    match apply_norm(s, ops) {
        Some((t, _)) => Some(t),
        None => None,
    }
}

/// Appending one more operation to a batch applies it to the batch's final
/// state.
pub proof fn lemma_apply_norm_snoc(s: Seq<ItemView>, ops: Seq<OpView>, op: OpView)
    ensures
        apply_norm(s, ops.push(op)) == match apply_norm(s, ops) {
            Some((t, nops)) => match apply_result(t, op) {
                Some((u, nop)) => Some((u, nops.push(nop))),
                None => None::<(Seq<ItemView>, Seq<OpView>)>,
            },
            None => None::<(Seq<ItemView>, Seq<OpView>)>,
        },
    decreases ops.len(),
{
    let whole = ops.push(op);
    if ops.len() == 0 {
        assert(whole[0] == op);
        assert(whole.drop_first() =~= Seq::<OpView>::empty());
        match apply_result(s, op) {
            Some((u, nop)) => {
                assert(apply_norm(u, Seq::<OpView>::empty()) == Some(
                    (u, Seq::<OpView>::empty()),
                ));
                assert(apply_norm(s, whole) == Some((u, seq![nop] + Seq::<OpView>::empty())));
                assert(seq![nop] + Seq::<OpView>::empty() =~= Seq::<OpView>::empty().push(nop));
            },
            None => {},
        }
    } else {
        assert(whole[0] == ops[0]);
        assert(whole.drop_first() =~= ops.drop_first().push(op));
        match apply_result(s, ops[0]) {
            Some((t, nop0)) => {
                lemma_apply_norm_snoc(t, ops.drop_first(), op);
                match apply_norm(t, ops.drop_first()) {
                    Some((u, rest)) => {
                        match apply_result(u, op) {
                            Some((v, nop)) => {
                                assert(seq![nop0] + rest.push(nop) =~= (seq![nop0] + rest).push(
                                    nop,
                                ));
                            },
                            None => {},
                        }
                    },
                    None => {},
                }
            },
            None => {},
        }
    }
}

/// A batch splits: applying `a + b` is applying `a`, then applying `b` to
/// its final state.
pub proof fn lemma_apply_norm_append(s: Seq<ItemView>, a: Seq<OpView>, b: Seq<OpView>)
    ensures
        apply_norm(s, a + b) == match apply_norm(s, a) {
            Some((t, na)) => match apply_norm(t, b) {
                Some((u, nb)) => Some((u, na + nb)),
                None => None::<(Seq<ItemView>, Seq<OpView>)>,
            },
            None => None::<(Seq<ItemView>, Seq<OpView>)>,
        },
    decreases a.len(),
{
    if a.len() == 0 {
        assert(a + b =~= b);
        assert(apply_norm(s, a) == Some((s, Seq::<OpView>::empty())));
        match apply_norm(s, b) {
            Some((u, nb)) => {
                assert(Seq::<OpView>::empty() + nb =~= nb);
            },
            None => {},
        }
    } else {
        assert((a + b)[0] == a[0]);
        assert((a + b).drop_first() =~= a.drop_first() + b);
        match apply_result(s, a[0]) {
            Some((t0, nop0)) => {
                lemma_apply_norm_append(t0, a.drop_first(), b);
                match apply_norm(t0, a.drop_first()) {
                    Some((t, na1)) => {
                        match apply_norm(t, b) {
                            Some((u, nb)) => {
                                assert(seq![nop0] + (na1 + nb) =~= (seq![nop0] + na1) + nb);
                            },
                            None => {},
                        }
                    },
                    None => {},
                }
            },
            None => {},
        }
    }
}

/// Applying a batch to a well-formed state keeps it well formed.
pub proof fn lemma_apply_norm_wf(s: Seq<ItemView>, ops: Seq<OpView>)
    requires
        wf_items(s),
        apply_norm(s, ops) is Some,
    ensures
        wf_items(apply_norm(s, ops)->Some_0.0),
    decreases ops.len(),
{
    if ops.len() > 0 {
        let (t, nop) = apply_result(s, ops[0])->Some_0;
        lemma_apply_then_revert(s, ops[0]);
        lemma_apply_norm_wf(t, ops.drop_first());
    }
}

/// Where a prefix of a batch applies but the next operation fails, the
/// whole batch fails, with that operation's error.
pub proof fn lemma_apply_norm_prefix_fail(s: Seq<ItemView>, ops: Seq<OpView>, i: int)
    requires
        0 <= i < ops.len(),
        apply_norm(s, ops.take(i)) is Some,
        apply_result(apply_norm(s, ops.take(i))->Some_0.0, ops[i]) is None,
    ensures
        apply_norm(s, ops) is None,
        batch_err(s, ops) == apply_err(apply_norm(s, ops.take(i))->Some_0.0, ops[i]),
    decreases ops.len(),
{
    if i == 0 {
        assert(ops.take(0) =~= Seq::<OpView>::empty());
    } else {
        match apply_result(s, ops[0]) {
            Some((t, nop)) => {
                assert(ops.take(i)[0] == ops[0]);
                assert(ops.take(i).drop_first() =~= ops.drop_first().take(i - 1));
                assert(ops.drop_first()[i - 1] == ops[i]);
                lemma_apply_norm_prefix_fail(t, ops.drop_first(), i - 1);
            },
            None => {
                assert(ops.take(i)[0] == ops[0]);
            },
        }
    }
}

/// A step-by-step chain of states is exactly a successful batch: where
/// every record applies its predecessor state to its successor and is
/// already normalized, the batch applies as a whole and returns the
/// records unchanged.
pub proof fn lemma_chain_to_apply_norm(st: Seq<Seq<ItemView>>, ops: Seq<OpView>)
    requires
        st.len() == ops.len() + 1,
        forall|k: int|
            0 <= k < ops.len() ==> apply_result(st[k], #[trigger] ops[k]) == Some(
                (st[k + 1], ops[k]),
            ),
    ensures
        apply_norm(st[0], ops) == Some((st.last(), ops)),
    decreases ops.len(),
{
    if ops.len() == 0 {
        assert(apply_norm(st[0], ops) == Some((st[0], Seq::<OpView>::empty())));
        assert(ops =~= Seq::<OpView>::empty());
    } else {
        lemma_chain_to_apply_norm(st.drop_first(), ops.drop_first());
        assert(st.drop_first()[0] == st[1]);
        assert(st.drop_first().last() == st.last());
        assert(seq![ops[0]] + ops.drop_first() =~= ops);
    }
}

/// Two state histories over the same records and the same base state agree
/// everywhere: application is a function.
pub proof fn lemma_chain_determined(
    a: Seq<Seq<ItemView>>,
    b: Seq<Seq<ItemView>>,
    ops: Seq<OpView>,
    base: int,
)
    requires
        a.len() == ops.len(),
        b.len() == ops.len(),
        0 <= base < a.len(),
        a[base] == b[base],
        forall|k: int|
            base < k < a.len() ==> apply_result(a[k - 1], #[trigger] ops[k]) == Some(
                (a[k], ops[k]),
            ),
        forall|k: int|
            base < k < b.len() ==> apply_result(b[k - 1], #[trigger] ops[k]) == Some(
                (b[k], ops[k]),
            ),
    ensures
        forall|k: int| base <= k < a.len() ==> a[k] == b[k],
    decreases a.len() - base,
{
    if base + 1 < a.len() {
        assert(a[base + 1] == b[base + 1]) by {
            assert(apply_result(a[base], ops[base + 1]) == Some((a[base + 1], ops[base + 1])));
            assert(apply_result(b[base], ops[base + 1]) == Some((b[base + 1], ops[base + 1])));
        }
        lemma_chain_determined(a, b, ops, base + 1);
    }
}

/// A batch of normalized records is a fixed point of application, just as a
/// single one is.
pub proof fn lemma_apply_norm_fixed(s: Seq<ItemView>, ops: Seq<OpView>)
    requires
        apply_norm(s, ops) is Some,
    ensures
        apply_norm(s, apply_norm(s, ops)->Some_0.1) == apply_norm(s, ops),
    decreases ops.len(),
{
    if ops.len() == 0 {
        let nops = apply_norm(s, ops)->Some_0.1;
        assert(nops =~= Seq::<OpView>::empty());
    } else {
        let (t, nop) = apply_result(s, ops[0])->Some_0;
        let (u, rest) = apply_norm(t, ops.drop_first())->Some_0;
        lemma_apply_normalizes(s, ops[0]);
        lemma_apply_norm_fixed(t, ops.drop_first());
        let nops = seq![nop] + rest;
        assert(nops[0] == nop);
        assert(nops.drop_first() =~= rest);
    }
}

} // verus!
