//! The authoritative root list.
//!
//! The root owns the confirmed history: its fork always sits on its head,
//! and every record in its log is committed.  Replicas are spawned by
//! [`ServerList::snapshot`] and their proposals integrated by
//! [`ServerList::commit`], which squashes the incoming slice, rebases it
//! over whatever was confirmed since the replica forked, applies the result
//! all-or-nothing, and returns the records the replica must integrate.

use vstd::prelude::*;

use crate::errors::ListError;
use crate::item::{items_deep, ItemView, ListItem};
use crate::list::{same_state, List};
use crate::log::{ascending_from, records_deep, LogView};
use crate::op::{ops_of, Change, ChangeView, OpView};
use crate::state::{
    apply_norm, apply_ops, apply_result, batch_err, lemma_apply_norm_append, lemma_apply_norm_fixed,
    lemma_chain_to_apply_norm,
};
use crate::transform::{spec_squash, spec_transform, squash_changes, squash_rec, transform};

verus! {

/// The authoritative list: agent zero's replica, and the counter from which
/// fresh agent identifiers are minted.
pub struct ServerList {
    pub(crate) list: List,
    pub(crate) max_agent_id: u32,
}

/// Whether every item of `s` was created by an agent with identifier at
/// most `m`.
pub open spec fn agents_below(s: Seq<ItemView>, m: u32) -> bool {
    forall|x: int| 0 <= x < s.len() ==> (#[trigger] s[x]).id.agent <= m
}

/// Whether some record of `v` carries the id `aid`.
pub open spec fn anchor_found(v: LogView, aid: u32) -> bool {
    exists|p: int| 0 <= p < v.records.len() && (#[trigger] v.records[p]).id == aid
}

/// The position of the record carrying `aid`; meaningful only when
/// `anchor_found(v, aid)`, and unique since record ids strictly increase.
pub open spec fn anchor_pos(v: LogView, aid: u32) -> int {
    choose|p: int| 0 <= p < v.records.len() && (#[trigger] v.records[p]).id == aid
}

/// The records `cs` renumbered to the ids `start`, `start + 1`, and so on,
/// stamps and operations kept.
pub open spec fn renumber_views(cs: Seq<ChangeView>, start: u32) -> Seq<ChangeView> {
    Seq::new(cs.len(), |k: int| ChangeView { id: (start + k) as u32, stamp: cs[k].stamp, op: cs[k].op })
}

/// What a successful commit of `changes` against the root state `pre`
/// returns and leaves behind: the confirmed records the replica missed,
/// followed by the accepted records as appended to the root's log.
pub open spec fn commit_accepted(
    pre: ServerList,
    changes: Seq<ChangeView>,
    ret: Seq<ChangeView>,
    post: ServerList,
) -> bool {
    let sq = spec_squash(changes);
    let p = anchor_pos(pre.log_view(), sq[0].id);
    let confirmed = pre.log_view().records.subrange(
        p + 1,
        pre.log_view().records.len() as int,
    );
    let tr = spec_transform(confirmed, sq.drop_first());
    &&& changes.len() >= 1
    &&& anchor_found(pre.log_view(), sq[0].id)
    &&& tr is Some
    &&& apply_ops(pre.items_view(), ops_of(tr->Some_0)) == Some(post.items_view())
    &&& apply_norm(pre.items_view(), ops_of(tr->Some_0)) == Some(
        (post.items_view(), ops_of(ret.skip(confirmed.len() as int))),
    )
    &&& apply_ops(pre.states()[p], ops_of(ret)) == Some(post.items_view())
    &&& ret.take(confirmed.len() as int) == confirmed
    &&& ret.len() == confirmed.len() + tr->Some_0.len()
    &&& post.log_view().records == pre.log_view().records + ret.skip(confirmed.len() as int)
    &&& forall|k: int|
        0 <= k < tr->Some_0.len() ==> (#[trigger] ret[confirmed.len() + k]).id
            == pre.log_view().records.last().id + 1 + k && ret[confirmed.len() + k].stamp == (
        tr->Some_0)[k].stamp
    &&& post.log_view().fork == post.log_view().head
    &&& post.log_view().head == post.log_view().records.len() - 1
}

/// Why a commit of `changes` against the root state `pre` is refused.
pub open spec fn commit_refused(pre: ServerList, changes: Seq<ChangeView>, e: ListError) -> bool {
    let sq = spec_squash(changes);
    let p = anchor_pos(pre.log_view(), sq[0].id);
    let confirmed = pre.log_view().records.subrange(
        p + 1,
        pre.log_view().records.len() as int,
    );
    let tr = spec_transform(confirmed, sq.drop_first());
    &&& (changes.len() == 0 ==> e == ListError::CannotCommit)
    &&& (changes.len() >= 1 && !anchor_found(pre.log_view(), sq[0].id) ==> e
        == ListError::CannotCommit)
    &&& (changes.len() >= 1 && anchor_found(pre.log_view(), sq[0].id) ==> {
        &&& (tr is None ==> e == ListError::CannotCommit)
        &&& (tr is Some ==> apply_norm(pre.items_view(), ops_of(tr->Some_0)) is None && e
            == batch_err(pre.items_view(), ops_of(tr->Some_0)))
    })
}

impl ServerList {
    /// The root's replica, as a spec-level value.
    pub closed spec fn replica(&self) -> List {
        self.list
    }

    /// The root's items, as their mathematical model.
    pub open spec fn items_view(&self) -> Seq<ItemView> {
        self.replica().items_view()
    }

    /// The root's log, as its mathematical model.
    pub open spec fn log_view(&self) -> LogView {
        self.replica().log_view()
    }

    /// The item state at every position of the root's log.
    pub open spec fn states(&self) -> Seq<Seq<ItemView>> {
        self.replica().states()
    }

    /// The largest agent identifier handed out so far.
    pub closed spec fn max_agent(&self) -> u32 {
        self.max_agent_id
    }

    /// The root invariant: a well-formed replica for agent zero whose fork
    /// sits on its head — the root has no unconfirmed operations — and whose
    /// items all belong to agents already handed out, so a freshly minted
    /// agent owns no item yet.
    pub open spec fn inv(&self) -> bool {
        &&& self.replica().inv()
        &&& self.log_view().fork == self.log_view().head
        &&& self.log_view().head == self.log_view().records.len() - 1
        &&& self.replica().agent() == 0
        &&& agents_below(self.items_view(), self.max_agent())
    }

    /// A fresh, empty root list.
    pub fn new() -> (r: Self)
        ensures
            r.inv(),
            r.max_agent() == 0,
            r.replica().max_local() == 0,
            r.items_view() =~= Seq::<ItemView>::empty(),
            r.log_view().records.len() == 1,
            r.log_view().records[0].id == 0,
            r.log_view().records[0].op == OpView::Root,
    {
        let r = ServerList { list: List::make(0), max_agent_id: 0 };
        proof {
            assert(r.items_view() =~= Seq::<ItemView>::empty());
        }
        r
    }

    /// Spawns a replica of the current state under a freshly minted agent
    /// identifier, strictly greater than any handed out before.  The
    /// replica copies the items and anchors its log on the root's newest
    /// record; the root itself is unchanged.
    pub fn snapshot(&mut self) -> (r: List)
        requires
            old(self).inv(),
            old(self).max_agent() < u32::MAX,
        ensures
            final(self).inv(),
            same_state(old(self).replica(), final(self).replica()),
            final(self).items_view() == old(self).items_view(),
            final(self).log_view() == old(self).log_view(),
            final(self).states() == old(self).states(),
            final(self).max_agent() == old(self).max_agent() + 1,
            r.inv(),
            r.agent() == old(self).max_agent() + 1,
            r.items_view() == old(self).items_view(),
            r.log_view().records =~= seq![old(self).log_view().records.last()],
            r.log_view().fork == 0,
            r.log_view().head == 0,
            r.states() =~= seq![old(self).items_view()],
            r.max_local() == 0,
    {
        let ghost pre = *self;
        self.max_agent_id = self.max_agent_id + 1;
        let r = self.list.fork_from(self.max_agent_id);
        proof {
            // The minted agent exceeds every agent seen among the items, so
            // no item of it exists and the fresh counter starts at zero.
            if r.max_local() != 0 {
                let k = choose|k: int|
                    0 <= k < pre.items_view().len() && (#[trigger] pre.items_view()[k]).id.agent
                        == r.agent() && pre.items_view()[k].id.id == r.max_local();
                assert(pre.items_view()[k].id.agent <= pre.max_agent());
                assert(false);
            }
        }
        r
    }

    /// The root's current items, in list order.
    pub fn items(&self) -> (r: &Vec<ListItem>)
        ensures
            items_deep(r@) == self.items_view(),
    {
        self.list.items()
    }

    /// The root's current titles, in list order.
    pub fn titles(&self) -> (r: Vec<String>)
        ensures
            r@.len() == self.items_view().len(),
            forall|k: int| 0 <= k < r@.len() ==> (#[trigger] r@[k])@ == self.items_view()[k].title,
    {
        self.list.titles()
    }

    /// Integrates a replica's proposed slice: the fork anchor first, then
    /// its local operations.  The slice is squashed, rebased over the
    /// records confirmed since the anchor, applied all-or-nothing, and the
    /// records the replica must integrate — the confirmed ones it missed,
    /// then its own accepted ones — are returned.  On any failure the root
    /// is left untouched.
    ///
    /// An unknown anchor, an empty slice, or an unresolvable conflict is
    /// `CannotCommit`; a record that does not apply returns that record's
    /// error.  Committing a slice holding only an up-to-date anchor returns
    /// the empty slice and changes nothing.
    pub fn commit(&mut self, changes: &Vec<Change>) -> (r: Result<Vec<Change>, ListError>)
        requires
            old(self).inv(),
            old(self).log_view().records.last().id + changes@.len() <= u32::MAX,
        ensures
            final(self).inv(),
            final(self).max_agent() >= old(self).max_agent(),
            r is Err ==> final(self).max_agent() == old(self).max_agent(),
            r is Ok ==> (agents_below(final(self).items_view(), old(self).max_agent())
                ==> final(self).max_agent() == old(self).max_agent()),
            match r {
                Ok(ret) => commit_accepted(
                    *old(self),
                    records_deep(changes@),
                    records_deep(ret@),
                    *final(self),
                ),
                Err(e) => same_state(old(self).replica(), final(self).replica()) && commit_refused(
                    *old(self),
                    records_deep(changes@),
                    e,
                ),
            },
            ({
                let pre_records = old(self).log_view().records;
                (changes@.len() == 1 && records_deep(changes@)[0].id == pre_records.last().id)
                    ==> (r matches Ok(ret) && ret@.len() == 0
                    && final(self).items_view() == old(self).items_view()
                    && final(self).log_view().records == pre_records
                    && final(self).max_agent() == old(self).max_agent())
            }),
    {
        let ghost pre = *self;
        let ghost cs = records_deep(changes@);
        if changes.len() == 0 {
            return Err(ListError::CannotCommit);
        }
        let squashed = squash_changes(changes);
        let ghost sq = spec_squash(cs);
        let anchor_id = squashed[0].id;
        proof {
            assert(sq[0] == cs[0]);
        }
        let p = match self.list.record_position(anchor_id) {
            Some(p) => p,
            None => {
                proof {
                    assert(!anchor_found(pre.log_view(), sq[0].id));
                }
                return Err(ListError::CannotCommit);
            },
        };
        proof {
            assert(anchor_found(pre.log_view(), sq[0].id));
            let q = anchor_pos(pre.log_view(), sq[0].id);
            crate::log::lemma_log_ids_unique(pre.log_view(), p as int, q);
        }
        let confirmed = self.list.confirmed_since(p);
        let ghost conf_views = records_deep(confirmed@);
        let incoming_tail = drop_first(&squashed);
        proof {
            assert(records_deep(incoming_tail@) =~= sq.drop_first());
        }
        let new_ops = match transform(&confirmed, &incoming_tail) {
            Ok(v) => v,
            Err(e) => {
                return Err(e);
            },
        };
        let start = self.list.last_record_id() + 1;
        let renumbered = renumber(&new_ops, start);
        let ghost ren_views = records_deep(renumbered@);
        proof {
            let last = pre.log_view().records.last().id;
            assert forall|k: int| 0 <= k < ren_views.len() implies (#[trigger] ren_views[k]).id
                > last by {
                assert(ren_views[k].id == (start + k) as u32);
            }
            assert forall|i: int, j: int| 0 <= i < j < ren_views.len() implies (
            #[trigger] ren_views[i]).id < (#[trigger] ren_views[j]).id by {
                assert(ren_views[i].id == (start + i) as u32);
                assert(ren_views[j].id == (start + j) as u32);
            }
            assert(ascending_from(ren_views, last));
            assert(ops_of(ren_views) =~= ops_of(records_deep(new_ops@)));
        }
        let applied = self.list.apply_all(&renumbered);
        match applied {
            Ok(mut accepted) => {
                self.list.mark_all_committed();
                // Items brought in by the slice may carry agents this root
                // never handed out: account for them, so that freshly
                // minted agents stay fresh.
                let ma = max_agent_of(self.list.items());
                if ma > self.max_agent_id {
                    self.max_agent_id = ma;
                }
                proof {
                    assert(agents_below(self.items_view(), self.max_agent()));
                    if self.max_agent() != pre.max_agent() {
                        assert(exists|k: int|
                            0 <= k < self.items_view().len() && (#[trigger] self.items_view()[
                                k
                            ]).id.agent == ma);
                    }
                }
                let ghost acc_views = records_deep(accepted@);
                let mut ret = confirmed;
                ret.append(&mut accepted);
                proof {
                    let ret_views = records_deep(ret@);
                    assert(ret_views.take(conf_views.len() as int) =~= conf_views);
                    assert(ret_views.skip(conf_views.len() as int) =~= acc_views);
                    assert(ops_of(ret_views) =~= ops_of(conf_views) + ops_of(acc_views));
                    // The confirmed records chain the anchor state to the
                    // old items; the accepted ones are normalized, so they
                    // re-apply as they are; together they take the anchor
                    // state to the new items.
                    let st = pre.states().subrange(p as int, pre.states().len() as int);
                    let cops = ops_of(conf_views);
                    assert(st.len() == cops.len() + 1);
                    assert forall|k: int|
                        0 <= k < cops.len() implies apply_result(st[k], #[trigger] cops[k])
                        == Some((st[k + 1], cops[k])) by {
                        assert(cops[k] == pre.log_view().records[p + 1 + k].op);
                        assert(st[k] == pre.states()[p + k]);
                        assert(st[k + 1] == pre.states()[p + 1 + k]);
                    }
                    lemma_chain_to_apply_norm(st, cops);
                    assert(st[0] == pre.states()[p as int]);
                    assert(st.last() == pre.items_view()) by {
                        assert(pre.items_view() == pre.states()[pre.log_view().head]);
                    }
                    lemma_apply_norm_fixed(pre.items_view(), ops_of(ren_views));
                    lemma_apply_norm_append(pre.states()[p as int], cops, ops_of(acc_views));
                    // The returned records carry the ids and stamps the
                    // contract promises.
                    assert(spec_squash(cs) == records_deep(squashed@));
                    assert(anchor_pos(pre.log_view(), spec_squash(cs)[0].id) == p as int);
                    assert(records_deep(incoming_tail@) == spec_squash(cs).drop_first());
                    assert(spec_transform(conf_views, spec_squash(cs).drop_first()) == Some(
                        records_deep(new_ops@),
                    ));
                    let last = pre.log_view().records.last().id;
                    assert forall|k: int|
                        0 <= k < acc_views.len() implies (#[trigger] ret_views[conf_views.len()
                        + k]).id == last + 1 + k && ret_views[conf_views.len() + k].stamp
                        == records_deep(new_ops@)[k].stamp by {
                        assert(ret_views[conf_views.len() + k] == acc_views[k]);
                        assert(acc_views[k].id == ren_views[k].id);
                        assert(ren_views[k].id == (start + k) as u32);
                        assert(acc_views[k].stamp == ren_views[k].stamp);
                        assert(ren_views[k].stamp == records_deep(new_ops@)[k].stamp);
                    }
                    assert(ops_of(ren_views) == ops_of(records_deep(new_ops@)));
                    assert(apply_ops(pre.items_view(), ops_of(records_deep(new_ops@))) == Some(
                        self.items_view(),
                    ));
                    // An up-to-date anchor alone confirms nothing and emits
                    // nothing: the root is unchanged.
                    if cs.len() == 1 && cs[0].id == last {
                        assert(cs.drop_first() =~= Seq::<ChangeView>::empty());
                        assert(squash_rec(
                            Seq::<ChangeView>::empty(),
                            Seq::<ChangeView>::empty(),
                        ) =~= Seq::<ChangeView>::empty());
                        assert(spec_squash(cs) =~= seq![cs[0]]);
                        crate::log::lemma_log_ids_unique(
                            pre.log_view(),
                            p as int,
                            pre.log_view().records.len() - 1,
                        );
                        assert(conf_views.len() == 0);
                        assert(ret_views.len() == 0);
                        assert(self.log_view().records =~= pre.log_view().records);
                        assert(ops_of(ren_views) =~= Seq::<OpView>::empty());
                        assert(apply_norm(pre.items_view(), ops_of(ren_views)) == Some(
                            (pre.items_view(), Seq::<OpView>::empty()),
                        ));
                    }
                }
                Ok(ret)
            },
            Err(e) => {
                proof {
                    assert(same_state(pre.list, self.list));
                }
                Err(e)
            },
        }
    }
}

/// A replica that integrates the slice its commit returned rejoins the
/// root: the returned records applied to the shared fork state are, on the
/// root's side, exactly what produced its new items, so the replica's items
/// come out identical.  The second hypothesis is what
/// [`crate::list::List::apply_commit`] ensures of a replica whose fork
/// state is the root state the commit anchored at.
pub proof fn lemma_replica_rejoins_root(
    pre: ServerList,
    post: ServerList,
    changes: Seq<ChangeView>,
    ret: Seq<ChangeView>,
    replica_items: Seq<ItemView>,
)
    requires
        commit_accepted(pre, changes, ret, post),
        apply_ops(
            pre.states()[anchor_pos(pre.log_view(), spec_squash(changes)[0].id)],
            ops_of(ret),
        ) == Some(replica_items),
    ensures
        replica_items == post.items_view(),
{
}

/// Replicas converge: parties that start from the same item state and
/// integrate slices carrying the same operations hold identical items,
/// because applying operations is a function of the state and the
/// operations alone.  In particular, a replica that integrates the slice a
/// commit returned — for which [`ServerList::commit`] pins
/// `apply_ops(anchor state, ops)` to the root's new items, and
/// [`crate::list::List::apply_commit`] pins it to the replica's — ends with
/// exactly the root's items.
pub proof fn lemma_convergence(
    base: Seq<ItemView>,
    out1: Seq<ChangeView>,
    out2: Seq<ChangeView>,
    items1: Seq<ItemView>,
    items2: Seq<ItemView>,
)
    requires
        ops_of(out1) == ops_of(out2),
        apply_ops(base, ops_of(out1)) == Some(items1),
        apply_ops(base, ops_of(out2)) == Some(items2),
    ensures
        items1 == items2,
{
}

/// The largest agent identifier among `items`: zero where there is none,
/// otherwise the agent of some item present.
fn max_agent_of(items: &Vec<ListItem>) -> (m: u32)
    ensures
        forall|k: int| 0 <= k < items@.len() ==> (#[trigger] items_deep(items@)[k]).id.agent <= m,
        m == 0 || exists|k: int|
            0 <= k < items@.len() && (#[trigger] items_deep(items@)[k]).id.agent == m,
{
    let mut m: u32 = 0;
    let mut k: usize = 0;
    while k < items.len()
        invariant
            0 <= k <= items@.len(),
            forall|j: int| 0 <= j < k ==> (#[trigger] items_deep(items@)[j]).id.agent <= m,
            m == 0 || exists|j: int|
                0 <= j < items@.len() && (#[trigger] items_deep(items@)[j]).id.agent == m,
        decreases items@.len() - k
    {
        if items[k].id.agent > m {
            m = items[k].id.agent;
            proof {
                assert(items_deep(items@)[k as int].id.agent == m);
            }
        }
        k += 1;
    }
    m
}

/// A copy of `v` without its first record.
fn drop_first(v: &Vec<Change>) -> (r: Vec<Change>)
    requires
        v@.len() >= 1,
    ensures
        records_deep(r@) =~= records_deep(v@).drop_first(),
        r@.len() == v@.len() - 1,
{
    let mut r: Vec<Change> = Vec::new();
    let mut k: usize = 1;
    while k < v.len()
        invariant
            1 <= k <= v@.len(),
            r@.len() == k - 1,
            forall|j: int| 0 <= j < r@.len() ==> #[trigger] r@[j] == v@[j + 1],
        decreases v@.len() - k
    {
        r.push(v[k].clone());
        k += 1;
    }
    r
}

/// A copy of `changes` renumbered to the ids `start`, `start + 1`, and so
/// on, stamps and operations kept.
fn renumber(changes: &Vec<Change>, start: u32) -> (r: Vec<Change>)
    requires
        start + changes@.len() <= u32::MAX,
    ensures
        records_deep(r@) =~= renumber_views(records_deep(changes@), start),
        r@.len() == changes@.len(),
{
    let mut r: Vec<Change> = Vec::new();
    let mut k: usize = 0;
    while k < changes.len()
        invariant
            0 <= k <= changes@.len(),
            start + changes@.len() <= u32::MAX,
            r@.len() == k,
            forall|j: int|
                0 <= j < r@.len() ==> #[trigger] r@[j]@ == (ChangeView {
                    id: (start + j) as u32,
                    stamp: changes@[j]@.stamp,
                    op: changes@[j]@.op,
                }),
        decreases changes@.len() - k
    {
        let c = &changes[k];
        r.push(Change { id: start + (k as u32), stamp: c.stamp, operation: c.operation.clone() });
        k += 1;
    }
    r
}

} // verus!
