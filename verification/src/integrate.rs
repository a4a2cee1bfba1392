use vstd::prelude::*;
use vstd::string::StrSliceExecFns;

use crate::conflict::ConflictResolver;
use crate::doc::Doc;
use crate::id::ID;
use crate::item::{item_degenerate, origin_lookup, Item, Origin};
use crate::list::{
    contains_id, idx_of, lemma_idx_of, lemma_store_extends_refl, lemma_store_extends_trans,
    relink, same_payload, store_extends,
};
use crate::state::StateVector;
use crate::traits::Crdt;

verus! {

/// Whether every item of the update has reached the document: integrated,
/// buffered, or degenerate (and so ignored by integration).
pub open spec fn update_known<R: ConflictResolver>(d: Doc<R>, u: Seq<Item>) -> bool {
    forall|i: int| 0 <= i < u.len() ==> item_degenerate(#[trigger] u[i]) || d.knows(u[i].id)
}

/// What `apply` guarantees: the state stays well formed; nothing already
/// held is lost or altered; every item of the update is accounted for
/// afterwards and the pending buffer is drained to its fixed point; an
/// update already wholly known changes nothing at all (idempotent
/// re-delivery); a single integrable item lands exactly where the strategy
/// places it; no identifier appears from anywhere but the prior state and
/// the update; and the state vector covers every integrated run.
pub open spec fn apply_post<R: ConflictResolver>(pre: Doc<R>, u: Seq<Item>, post: Doc<R>) -> bool {
    &&& post.wf()
    &&& post.client_id == pre.client_id
    &&& post.clock >= pre.clock
    &&& post.resolver == pre.resolver
    &&& update_known(post, u)
    &&& pending_quiet(post)
    &&& ((update_known(pre, u) && pending_quiet(pre)) ==> post == pre)
    &&& store_extends(post.items@, pre.items@)
    &&& (forall|x: ID| pre.knows(x) ==> #[trigger] post.knows(x))
    &&& ((u.len() == 1 && !item_degenerate(u[0]) && !pre.knows(u[0].id) && pre.deps_present(u[0])
        && pre.pending@.len() == 0) ==> (post.items@ == relink(
        pre.items@.insert(link_place(pre, u[0]), u[0]),
    ) && post.pending == pre.pending))
    &&& (forall|x: ID|
        #[trigger] contains_id(post.pending@, x) ==> contains_id(pre.pending@, x) || contains_id(
            u,
            x,
        ))
    &&& (forall|x: ID|
        #[trigger] contains_id(post.items@, x) ==> contains_id(pre.items@, x) || contains_id(
            pre.pending@,
            x,
        ) || contains_id(u, x))
    &&& (forall|i: int|
        0 <= i < u.len() ==> ({
            let w = idx_of(post.items@, (#[trigger] u[i]).id);
            (contains_id(post.items@, u[i].id) && same_payload(post.items@[w], u[i]))
                ==> (match post.state_vector.spec_get(u[i].id.client) {
                Some(v) => u[i].id.clock + u[i].len() - 1 <= v,
                None => false,
            })
        }))
}

/// Whether the pending buffer is at its fixed point: no buffered item can
/// make progress — each is degenerate, or still waits on an anchor that
/// has not arrived (and is no duplicate of an integrated item).
pub open spec fn pending_quiet<R: ConflictResolver>(d: Doc<R>) -> bool {
    forall|i: int| 0 <= i < d.pending@.len() ==> !d.pending_ready(#[trigger] d.pending@[i])
}

/// Whether a peer whose progress snapshot is `remote` is missing this item:
/// it has no entry for the item's replica (it saw nothing from it), or the
/// item's run begins past the highest clock it recorded.
pub open spec fn peer_missing(remote: StateVector, it: Item) -> bool {
    match remote.spec_get(it.id.client) {
        None => true,
        Some(m) => it.id.clock > m,
    }
}

/// Whether `it` is the wire form of a stored item of `d` at an index below
/// `j`: the stored identifier, content and tombstone flag, carried with the
/// item's recorded creation anchors (not its current neighbour pointers).
pub open spec fn wire_item_upto<R: ConflictResolver>(d: Doc<R>, j: int, it: Item) -> bool {
    exists|i: int|
        0 <= i < j && (#[trigger] d.items@[i]).id == it.id && d.items@[i].content == it.content
            && d.items@[i].is_deleted == it.is_deleted && (match origin_lookup(
            d.origins@,
            it.id,
        ) {
            Some(o) => it.left == o.left && it.right == o.right,
            None => false,
        })
}

/// Whether `it` is the wire form of some stored item of `d`.
pub open spec fn wire_item<R: ConflictResolver>(d: Doc<R>, it: Item) -> bool {
    wire_item_upto(d, d.items@.len() as int, it)
}

/// A wire item names a stored identifier.
pub proof fn lemma_wire_item_id<R: ConflictResolver>(d: Doc<R>, j: int, it: Item)
    requires
        wire_item_upto(d, j, it),
        j <= d.items@.len(),
    ensures
        contains_id(d.items@.take(j), it.id),
{
    let i = choose|i: int|
        0 <= i < j && (#[trigger] d.items@[i]).id == it.id && d.items@[i].content == it.content
            && d.items@[i].is_deleted == it.is_deleted && (match origin_lookup(
            d.origins@,
            it.id,
        ) {
            Some(o) => it.left == o.left && it.right == o.right,
            None => false,
        });
    assert(d.items@.take(j)[i].id == it.id);
}

/// A wire item of a shorter prefix is one of any longer prefix.
pub proof fn lemma_wire_item_widen<R: ConflictResolver>(d: Doc<R>, j1: int, j2: int, it: Item)
    requires
        j1 <= j2,
        wire_item_upto(d, j1, it),
    ensures
        wire_item_upto(d, j2, it),
{
    let i = choose|i: int|
        0 <= i < j1 && (#[trigger] d.items@[i]).id == it.id && d.items@[i].content == it.content
            && d.items@[i].is_deleted == it.is_deleted && (match origin_lookup(
            d.origins@,
            it.id,
        ) {
            Some(o) => it.left == o.left && it.right == o.right,
            None => false,
        });
    assert(0 <= i < j2 && (d.items@[i]).id == it.id);
}

/// What `diff` returns for a peer at `remote`: exactly the stored items the
/// peer is missing, each carrying its recorded creation anchors, in
/// strictly ascending identifier order (which respects each replica's own
/// dependency order, since a replica's anchors always carry lower clocks
/// than the items that reference them).
pub open spec fn diff_post<R: ConflictResolver>(
    d: Doc<R>,
    remote: StateVector,
    r: Seq<Item>,
) -> bool {
    &&& (forall|k: int| 0 <= k < r.len() ==> wire_item(d, #[trigger] r[k]))
    &&& (forall|i: int|
        0 <= i < d.items@.len() ==> (peer_missing(remote, #[trigger] d.items@[i]) <==> contains_id(
            r,
            d.items@[i].id,
        )))
    &&& (forall|k1: int, k2: int|
        0 <= k1 < k2 < r.len() ==> (#[trigger] r[k1]).id.spec_lt(#[trigger] r[k2].id))
}

/// The index the conflict-resolution strategy decides for `item` among the
/// candidates at indices `[k, end)`: the first candidate the strategy
/// orders the item before, or `end` if it orders it after all of them.
pub open spec fn scan_place<R: ConflictResolver>(d: Doc<R>, item: Item, k: int, end: int) -> int
    decreases end - k,
{
    if k >= end {
        end
    } else if d.resolver.spec_resolve(item, d.items@[k], d.items@) is Less {
        k
    } else {
        scan_place(d, item, k + 1, end)
    }
}

/// The range of candidate indices for `item`: the items currently spliced
/// strictly between its two anchors (list start or end where an anchor is
/// absent or has not arrived).
pub open spec fn link_range<R: ConflictResolver>(d: Doc<R>, item: Item) -> (int, int) {
    let start: int = match item.left {
        Some(l) => idx_of(d.items@, l) + 1,
        None => 0,
    };
    let bound: int = match item.right {
        Some(rr) => if contains_id(d.items@, rr) {
            idx_of(d.items@, rr)
        } else {
            d.items@.len() as int
        },
        None => d.items@.len() as int,
    };
    (start, if bound < start {
        start
    } else {
        bound
    })
}

/// The index at which `link` splices a new item in: the strategy's decision
/// among the candidates between the item's anchors.
pub open spec fn link_place<R: ConflictResolver>(d: Doc<R>, item: Item) -> int {
    scan_place(d, item, link_range(d, item).0, link_range(d, item).1)
}

impl<R: ConflictResolver> Doc<R> {
    /// Whether both neighbour anchors an update item references exist in
    /// the store. An item whose anchors have not all arrived is causally
    /// blocked and waits in the pending buffer. Update items carry creation
    /// anchors, which always name older operations, so deliveries are never
    /// circularly blocked.
    pub open spec fn deps_present(self, it: Item) -> bool {
        &&& match it.left {
            Some(l) => contains_id(self.items@, l),
            None => true,
        }
        &&& match it.right {
            Some(r) => contains_id(self.items@, r),
            None => true,
        }
    }

    /// Whether a buffered item can make progress: its identifier was
    /// integrated meanwhile (it is a duplicate and can go), or its
    /// dependencies have arrived (it can be integrated). Degenerate items
    /// are never touched.
    pub open spec fn pending_ready(self, it: Item) -> bool {
        !item_degenerate(it) && (contains_id(self.items@, it.id) || self.deps_present(it))
    }

    /// An exact copy of an item.
    fn copy_item(it: &Item) -> (r: Item)
        ensures
            r == *it,
    {
        Item {
            id: it.id,
            left: it.left,
            right: it.right,
            content: it.content.clone(),
            is_deleted: it.is_deleted,
        }
    }

    /// The index of the item carrying `id` in the pending buffer, if any.
    fn pending_index_of(&self, id: ID) -> (r: Option<usize>)
        ensures
            match r {
                Some(i) => i < self.pending@.len() && self.pending@[i as int].id == id
                    && contains_id(self.pending@, id),
                None => !contains_id(self.pending@, id),
            },
    {
        let mut i: usize = 0;
        while i < self.pending.len()
            invariant
                i <= self.pending@.len(),
                forall|j: int| 0 <= j < i ==> (#[trigger] self.pending@[j]).id != id,
            decreases self.pending@.len() - i,
        {
            if self.pending[i].id == id {
                return Some(i);
            }
            i = i + 1;
        }
        None
    }

    /// Decide whether a buffered item can make progress now.
    fn is_ready(&self, it: &Item) -> (r: bool)
        ensures
            r == self.pending_ready(*it),
    {
        let length = it.content.as_str().unicode_len();
        if length == 0 {
            return false;
        }
        if it.id.clock > u64::MAX - (length as u64) {
            return false;
        }
        if self.index_of(it.id).is_some() {
            return true;
        }
        let l_ok = match it.left {
            Some(l) => self.index_of(l).is_some(),
            None => true,
        };
        let r_ok = match it.right {
            Some(rr) => self.index_of(rr).is_some(),
            None => true,
        };
        l_ok && r_ok
    }

    /// The recorded creation anchors of the item carrying `id`, if any.
    fn find_origin(&self, id: ID) -> (r: Option<Origin>)
        ensures
            r == origin_lookup(self.origins@, id),
    {
        let mut i: usize = 0;
        proof {
            assert(self.origins@.skip(0) =~= self.origins@);
        }
        while i < self.origins.len()
            invariant
                i <= self.origins@.len(),
                origin_lookup(self.origins@, id) == origin_lookup(
                    self.origins@.skip(i as int),
                    id,
                ),
            decreases self.origins@.len() - i,
        {
            proof {
                assert(self.origins@.skip(i as int)[0] == self.origins@[i as int]);
                assert(self.origins@.skip(i as int).drop_first() =~= self.origins@.skip(i + 1));
            }
            if self.origins[i].id == id {
                return Some(self.origins[i]);
            }
            i = i + 1;
        }
        proof {
            assert(self.origins@.skip(i as int).len() == 0);
        }
        None
    }

    /// Integrate one item whose blocking anchor is present: locate the
    /// items currently spliced between the same left/right anchors
    /// (concurrent insertions at that place that arrived earlier), walk
    /// them with the conflict-resolution strategy until it orders the new
    /// item first, and splice it there. The clock and state vector then
    /// account for the item's run of identifiers.
    fn link(&mut self, item: Item)
        requires
            old(self).wf(),
            !contains_id(old(self).items@, item.id),
            !item_degenerate(item),
            old(self).deps_present(item),
        ensures
            final(self).wf(),
            final(self).client_id == old(self).client_id,
            final(self).clock >= old(self).clock,
            final(self).resolver == old(self).resolver,
            final(self).pending == old(self).pending,
            contains_id(final(self).items@, item.id),
            store_extends(final(self).items@, old(self).items@),
            forall|x: ID| old(self).knows(x) ==> #[trigger] final(self).knows(x),
            final(self).items@ == relink(
                old(self).items@.insert(link_place(*old(self), item), item),
            ),
            forall|x: ID|
                #[trigger] contains_id(final(self).items@, x) ==> contains_id(
                    old(self).items@,
                    x,
                ) || x == item.id,
    {
        let ghost d0 = *self;
        let ghost s0 = self.items@;
        let length = item.content.as_str().unicode_len();
        let n = self.items.len();
        // scan range: strictly between the two anchors (start of list and
        // end of list where an anchor is absent)
        let start: usize = match item.left {
            Some(l) => match self.index_of(l) {
                Some(x) => {
                    proof {
                        assert(x < n);
                        lemma_idx_of(s0, x as int);
                    }
                    x + 1
                },
                None => {
                    proof {
                        assert(false);
                    }
                    0
                },
            },
            None => 0,
        };
        let bound: usize = match item.right {
            Some(rr) => match self.index_of(rr) {
                Some(x) => {
                    proof {
                        lemma_idx_of(s0, x as int);
                    }
                    x
                },
                None => self.items.len(),
            },
            None => self.items.len(),
        };
        let end: usize = if bound < start {
            start
        } else {
            bound
        };
        proof {
            assert(link_range(d0, item) == (start as int, end as int));
        }
        let mut k: usize = start;
        let mut stop = false;
        while k < end && !stop
            invariant
                start <= k <= end,
                end <= self.items@.len(),
                *self == d0,
                d0 == *old(self),
                scan_place(d0, item, start as int, end as int) == (if stop {
                    k as int
                } else {
                    scan_place(d0, item, k as int, end as int)
                }),
            decreases end - k, (if stop {
                0int
            } else {
                1int
            }),
        {
            let ord = self.resolver.resolve(&item, &self.items[k], &self.items);
            if matches!(ord, core::cmp::Ordering::Less) {
                stop = true;
            } else {
                k = k + 1;
            }
        }
        proof {
            assert(k as int == link_place(d0, item));
        }
        // account for the item's identifiers before splicing, so the own
        // clock never falls behind an integrated own run (identifiers are
        // never reused) and the state vector covers the run
        let iid = item.id;
        if iid.client == self.client_id {
            let top = iid.clock + (length as u64);
            if top > self.clock {
                self.clock = top;
            }
        }
        let last_clock = iid.clock + (length as u64) - 1;
        let ghost before_sv = *self;
        self.state_vector.observe(iid.client, last_clock);
        proof {
            assert(self.wf()) by {
                if iid.client == self.client_id {
                    assert(self.state_vector.spec_get(self.client_id) is Some);
                } else {
                    assert(self.state_vector.spec_get(self.client_id)
                        == before_sv.state_vector.spec_get(self.client_id));
                }
                assert forall|i: int|
                    0 <= i < self.items@.len() implies (match self.state_vector.spec_get(
                    (#[trigger] self.items@[i]).id.client,
                ) {
                    Some(v) => self.items@[i].id.clock + self.items@[i].len() - 1 <= v,
                    None => false,
                }) by {
                    if self.items@[i].id.client != iid.client {
                        assert(self.state_vector.spec_get(self.items@[i].id.client)
                            == before_sv.state_vector.spec_get(self.items@[i].id.client));
                    }
                }
            }
        }
        // record the creation anchors the item arrived with: they are what
        // a later delta hands to other peers
        let og = Origin { id: item.id, left: item.left, right: item.right };
        let ghost origins0 = self.origins@;
        self.origins.push(og);
        proof {
            assert(self.origins@ == origins0.push(og));
            assert forall|i: int|
                0 <= i < self.items@.len() implies origin_lookup(
                self.origins@,
                (#[trigger] self.items@[i]).id,
            ) is Some by {
                crate::item::lemma_origin_lookup_push(origins0, og, self.items@[i].id);
            }
            crate::item::lemma_origin_lookup_push(origins0, og, item.id);
            assert(self.wf());
        }
        self.splice(k, item);
        proof {
            crate::list::lemma_store_extends_insert(s0, k as int, item);
            assert(self.items@ == relink(s0.insert(k as int, item)));
            assert forall|x: ID| #[trigger] contains_id(self.items@, x) implies contains_id(
                s0,
                x,
            ) || x == item.id by {
                crate::list::lemma_contains_id_relink(s0.insert(k as int, item), x);
                crate::list::lemma_contains_id_insert(s0, k as int, item, x);
            }
            assert forall|x: ID| old(self).knows(x) implies #[trigger] self.knows(x) by {
                if contains_id(s0, x) {
                    let i = choose|i: int| 0 <= i < s0.len() && s0[i].id == x;
                    assert(contains_id(self.items@, (s0[i]).id) && same_payload(
                        self.items@[idx_of(self.items@, s0[i].id)],
                        s0[i],
                    ));
                }
            }
        }
    }

    /// One step of remote integration, as `apply` performs for each item of
    /// an update: skip what is already known (idempotent re-delivery) and
    /// what is degenerate, buffer an item whose neighbour dependencies have
    /// not arrived, and otherwise integrate it. Returns whether an item was
    /// integrated (which may unblock buffered ones).
    fn try_link(&mut self, item: Item) -> (r: bool)
        requires
            old(self).wf(),
        ensures
            final(self).wf(),
            final(self).client_id == old(self).client_id,
            final(self).clock >= old(self).clock,
            final(self).resolver == old(self).resolver,
            (item_degenerate(item) || old(self).knows(item.id)) ==> (!r && *final(self) == *old(
                self,
            )),
            !item_degenerate(item) ==> final(self).knows(item.id),
            store_extends(final(self).items@, old(self).items@),
            forall|x: ID| old(self).knows(x) ==> #[trigger] final(self).knows(x),
            !r ==> final(self).items@ == old(self).items@,
            (!item_degenerate(item) && !old(self).knows(item.id) && old(self).deps_present(item))
                ==> (r && final(self).pending == old(self).pending && final(self).items@
                == relink(old(self).items@.insert(link_place(*old(self), item), item))),
            forall|x: ID|
                #[trigger] contains_id(final(self).pending@, x) ==> contains_id(
                    old(self).pending@,
                    x,
                ) || x == item.id,
            forall|x: ID|
                #[trigger] contains_id(final(self).items@, x) ==> contains_id(
                    old(self).items@,
                    x,
                ) || x == item.id,
    {
        let length = item.content.as_str().unicode_len();
        if length == 0 || item.id.clock > u64::MAX - (length as u64) {
            proof {
                lemma_store_extends_refl(self.items@);
            }
            return false;
        }
        if self.index_of(item.id).is_some() || self.pending_index_of(item.id).is_some() {
            proof {
                lemma_store_extends_refl(self.items@);
            }
            return false;
        }
        let l_ok = match item.left {
            Some(l) => self.index_of(l).is_some(),
            None => true,
        };
        let r_ok = match item.right {
            Some(rr) => self.index_of(rr).is_some(),
            None => true,
        };
        if !(l_ok && r_ok) {
            let ghost pending0 = self.pending@;
            self.pending.push(item);
            proof {
                lemma_store_extends_refl(self.items@);
                assert(self.pending@[pending0.len() as int].id == item.id);
                assert forall|x: ID| #[trigger] contains_id(self.pending@, x) implies contains_id(
                    pending0,
                    x,
                ) || x == item.id by {
                    let i = choose|i: int| 0 <= i < self.pending@.len() && self.pending@[i].id
                        == x;
                    if i < pending0.len() {
                        assert(pending0[i].id == x);
                    }
                }
                assert forall|x: ID| old(self).knows(x) implies #[trigger] self.knows(x) by {
                    if contains_id(pending0, x) {
                        let i = choose|i: int| 0 <= i < pending0.len() && pending0[i].id == x;
                        assert(self.pending@[i].id == x);
                    }
                }
            }
            return false;
        }
        self.link(item);
        true
    }

    /// Fixed-point worklist over the pending buffer: integrating an item
    /// can unblock others, so buffered items are drained until no further
    /// progress is possible. A buffered item whose identifier arrived by
    /// another path meanwhile is dropped as a duplicate.
    fn resolve_pending(&mut self)
        requires
            old(self).wf(),
        ensures
            final(self).wf(),
            final(self).client_id == old(self).client_id,
            final(self).clock >= old(self).clock,
            final(self).resolver == old(self).resolver,
            store_extends(final(self).items@, old(self).items@),
            forall|x: ID| old(self).knows(x) ==> #[trigger] final(self).knows(x),
            pending_quiet(*final(self)),
            pending_quiet(*old(self)) ==> *final(self) == *old(self),
            old(self).pending@.len() == 0 ==> *final(self) == *old(self),
            forall|x: ID|
                #[trigger] contains_id(final(self).pending@, x) ==> contains_id(
                    old(self).pending@,
                    x,
                ),
            forall|x: ID|
                #[trigger] contains_id(final(self).items@, x) ==> contains_id(
                    old(self).items@,
                    x,
                ) || contains_id(old(self).pending@, x),
        decreases old(self).pending@.len(),
    {
        let ghost pre = *self;
        let mut idx: usize = 0;
        let mut found: Option<usize> = None;
        while idx < self.pending.len() && found.is_none()
            invariant
                *self == pre,
                idx <= self.pending@.len(),
                forall|q: int|
                    0 <= q < idx ==> !self.pending_ready(#[trigger] self.pending@[q]),
                match found {
                    Some(p) => p < self.pending@.len() && self.pending_ready(
                        self.pending@[p as int],
                    ),
                    None => true,
                },
            decreases self.pending@.len() - idx, (if found.is_some() {
                0int
            } else {
                1int
            }),
        {
            if self.is_ready(&self.pending[idx]) {
                found = Some(idx);
            } else {
                idx = idx + 1;
            }
        }
        let p = match found {
            Some(p) => p,
            None => {
                proof {
                    lemma_store_extends_refl(self.items@);
                    assert(pending_quiet(*self));
                }
                return ;
            },
        };
        proof {
            // something could still make progress, so the buffer was not at
            // its fixed point on entry
            assert(!pending_quiet(pre));
        }
        let ghost pending0 = self.pending@;
        let it = self.pending.remove(p);
        let ghost after_remove = *self;
        proof {
            assert(it == pending0[p as int]);
            assert(pre.pending_ready(it));
            assert forall|x: ID| pre.knows(x) && x != it.id implies #[trigger] after_remove.knows(
                x,
            ) by {
                if contains_id(pending0, x) {
                    let i = choose|i: int| 0 <= i < pending0.len() && pending0[i].id == x;
                    if i < p as int {
                        assert(after_remove.pending@[i].id == x);
                    } else {
                        assert(after_remove.pending@[i - 1].id == x);
                    }
                }
            }
        }
        proof {
            // what was taken out of the buffer traces back to it
            assert forall|x: ID| #[trigger] contains_id(after_remove.pending@, x) implies
                contains_id(pending0, x) by {
                let w = choose|w: int|
                    0 <= w < after_remove.pending@.len() && after_remove.pending@[w].id == x;
                if w < p as int {
                    assert(pending0[w].id == x);
                } else {
                    assert(pending0[w + 1].id == x);
                }
            }
            assert(pending0[p as int].id == it.id);
        }
        if self.index_of(it.id).is_some() {
            // already integrated by another path: a duplicate, dropped
            proof {
                lemma_store_extends_refl(self.items@);
            }
            let ghost mid = *self;
            self.resolve_pending();
            proof {
                lemma_store_extends_trans(pre.items@, mid.items@, self.items@);
            }
        } else {
            proof {
                assert(pre.deps_present(it));
            }
            let ghost mid0 = *self;
            self.link(it);
            let ghost mid = *self;
            proof {
                lemma_store_extends_trans(pre.items@, mid0.items@, mid.items@);
            }
            self.resolve_pending();
            proof {
                lemma_store_extends_trans(pre.items@, mid.items@, self.items@);
            }
        }
    }
}

impl<R: ConflictResolver> Crdt for Doc<R> {
    type Update = Vec<Item>;

    open spec fn inv(&self) -> bool {
        self.wf()
    }

    /// Consume an ordered sequence of remote items: each is skipped if its
    /// identifier is already known, buffered if a referenced neighbour has
    /// not arrived, and integrated otherwise; after each integration the
    /// pending buffer is drained to a fixed point, since resolving one item
    /// can unblock others.
    fn apply(&mut self, update: Vec<Item>)
        ensures
            apply_post(*old(self), update@, *final(self)),
    {
        let ghost pre = *self;
        let mut idx: usize = 0;
        proof {
            lemma_store_extends_refl(self.items@);
        }
        while idx < update.len()
            invariant
                self.wf(),
                self.client_id == pre.client_id,
                self.clock >= pre.clock,
                self.resolver == pre.resolver,
                idx <= update@.len(),
                forall|q: int|
                    0 <= q < idx ==> item_degenerate(#[trigger] update@[q]) || self.knows(
                        update@[q].id,
                    ),
                update_known(pre, update@) ==> *self == pre,
                store_extends(self.items@, pre.items@),
                forall|x: ID| pre.knows(x) ==> #[trigger] self.knows(x),
                idx == 0 ==> *self == pre,
                (update@.len() == 1 && idx == 1 && !item_degenerate(update@[0]) && !pre.knows(
                    update@[0].id,
                ) && pre.deps_present(update@[0]) && pre.pending@.len() == 0) ==> (self.items@
                    == relink(pre.items@.insert(link_place(pre, update@[0]), update@[0]))
                    && self.pending == pre.pending),
                forall|x: ID|
                    #[trigger] contains_id(self.pending@, x) ==> contains_id(pre.pending@, x)
                        || contains_id(update@, x),
                forall|x: ID|
                    #[trigger] contains_id(self.items@, x) ==> contains_id(pre.items@, x)
                        || contains_id(pre.pending@, x) || contains_id(update@, x),
            decreases update@.len() - idx,
        {
            let ghost mid = *self;
            let item = Self::copy_item(&update[idx]);
            let did = self.try_link(item);
            let ghost mid2 = *self;
            proof {
                lemma_store_extends_trans(pre.items@, mid.items@, mid2.items@);
                assert(update@[idx as int].id == item.id);
                assert(contains_id(update@, item.id));
            }
            if did {
                self.resolve_pending();
                proof {
                    lemma_store_extends_trans(pre.items@, mid2.items@, self.items@);
                }
            }
            idx = idx + 1;
        }
        // drain the buffer to its fixed point even when nothing of this
        // update was integrated: an earlier local edit may have supplied a
        // buffered item's missing anchor
        let ghost before_drain = *self;
        self.resolve_pending();
        proof {
            lemma_store_extends_trans(pre.items@, before_drain.items@, self.items@);
            if update_known(pre, update@) && pending_quiet(pre) {
                assert(before_drain == pre);
                assert(*self == pre);
            }
            // every update item stays accounted for through the drain
            assert forall|q: int|
                0 <= q < update@.len() implies item_degenerate(#[trigger] update@[q])
                || self.knows(update@[q].id) by {
                if !item_degenerate(update@[q]) {
                    assert(before_drain.knows(update@[q].id));
                }
            }
            // the state vector covers every stored run, in particular every
            // update item that is stored with its own payload
            assert forall|i: int|
                0 <= i < update@.len() implies ({
                let w = idx_of(self.items@, (#[trigger] update@[i]).id);
                (contains_id(self.items@, update@[i].id) && same_payload(
                    self.items@[w],
                    update@[i],
                )) ==> (match self.state_vector.spec_get(update@[i].id.client) {
                    Some(v) => update@[i].id.clock + update@[i].len() - 1 <= v,
                    None => false,
                })
            }) by {
                if contains_id(self.items@, update@[i].id) {
                    let w = idx_of(self.items@, update@[i].id);
                    assert(0 <= w < self.items@.len() && self.items@[w].id == update@[i].id);
                }
            }
        }
    }

    /// The items a peer with state vector `remote` has not seen: every
    /// stored item whose run begins past the peer's clock for its replica,
    /// in ascending identifier order, so that within one replica anchors
    /// always precede the items that reference them.
    fn diff(&self, remote: &StateVector) -> (r: Vec<Item>)
        ensures
            diff_post(*self, *remote, r@),
    {
        let ghost s = self.items@;
        let mut out: Vec<Item> = Vec::new();
        let mut j: usize = 0;
        proof {
            assert(s.take(0) =~= Seq::<Item>::empty());
        }
        while j < self.items.len()
            invariant
                self.wf(),
                s == self.items@,
                j <= s.len(),
                forall|k: int|
                    0 <= k < out@.len() ==> wire_item_upto(*self, j as int, #[trigger] out@[k]),
                forall|i: int|
                    0 <= i < j ==> (peer_missing(*remote, #[trigger] s[i]) <==> contains_id(
                        out@,
                        s[i].id,
                    )),
                forall|k1: int, k2: int|
                    0 <= k1 < k2 < out@.len() ==> (#[trigger] out@[k1]).id.spec_lt(
                        #[trigger] out@[k2].id,
                    ),
            decreases s.len() - j,
        {
            let wanted = match remote.get(self.items[j].id.client) {
                None => true,
                Some(m) => self.items[j].id.clock > m,
            };
            let ghost out0 = out@;
            if wanted {
                let org = match self.find_origin(self.items[j].id) {
                    Some(o) => o,
                    None => {
                        proof {
                            assert(false);
                        }
                        Origin { id: self.items[j].id, left: None, right: None }
                    },
                };
                let item = Item {
                    id: self.items[j].id,
                    left: org.left,
                    right: org.right,
                    content: self.items[j].content.clone(),
                    is_deleted: self.items[j].is_deleted,
                };
                proof {
                    assert(item.id == s[j as int].id);
                    assert(wire_item_upto(*self, j + 1, item)) by {
                        assert((self.items@[j as int]).id == item.id && self.items@[j as int].content
                            == item.content && self.items@[j as int].is_deleted
                            == item.is_deleted);
                    }
                    assert(!contains_id(out0, item.id)) by {
                        if contains_id(out0, item.id) {
                            let k = choose|k: int| 0 <= k < out0.len() && out0[k].id == item.id;
                            lemma_wire_item_id(*self, j as int, out0[k]);
                            let i = choose|i: int|
                                0 <= i < s.take(j as int).len() && s.take(j as int)[i].id
                                    == out0[k].id;
                            assert(s[i].id == s[j as int].id);
                        }
                    }
                }
                let mut p: usize = 0;
                let mut stop = false;
                while p < out.len() && !stop
                    invariant
                        p <= out@.len(),
                        out@ == out0,
                        forall|q: int| 0 <= q < p ==> (#[trigger] out0[q]).id.spec_lt(item.id),
                        stop ==> p < out0.len() && item.id.spec_lt(out0[p as int].id),
                        !contains_id(out0, item.id),
                    decreases out0.len() - p, (if stop {
                        0int
                    } else {
                        1int
                    }),
                {
                    match item.id.compare(&out[p].id) {
                        core::cmp::Ordering::Less => {
                            stop = true;
                        },
                        core::cmp::Ordering::Equal => {
                            proof {
                                assert(out0[p as int].id == item.id);
                                assert(false);
                            }
                        },
                        core::cmp::Ordering::Greater => {
                            p = p + 1;
                        },
                    }
                }
                proof {
                    assert(p as int == out0.len() || item.id.spec_lt(out0[p as int].id));
                }
                out.insert(p, item);
                proof {
                    let out1 = out@;
                    let pi = p as int;
                    assert(out1 == out0.insert(pi, item));
                    // order: what stood before the new item still precedes
                    // it, what stood after still follows, by transitivity
                    assert forall|k1: int, k2: int|
                        0 <= k1 < k2 < out1.len() implies (#[trigger] out1[k1]).id.spec_lt(
                        #[trigger] out1[k2].id,
                    ) by {
                        if k2 < pi {
                            assert(out1[k1] == out0[k1] && out1[k2] == out0[k2]);
                        } else if k1 < pi && k2 == pi {
                            assert(out1[k1] == out0[k1] && out1[k2] == item);
                        } else if k1 == pi {
                            assert(out1[k2] == out0[k2 - 1]);
                            assert(pi < out0.len());
                            assert(item.id.spec_lt(out0[pi].id));
                            if k2 - 1 > pi {
                                crate::id::lemma_id_order_transitive(
                                    item.id,
                                    out0[pi].id,
                                    out0[k2 - 1].id,
                                );
                            }
                        } else if k1 > pi {
                            assert(out1[k1] == out0[k1 - 1] && out1[k2] == out0[k2 - 1]);
                        } else {
                            assert(out1[k1] == out0[k1] && out1[k2] == out0[k2 - 1]);
                            assert(k1 < pi <= k2 - 1);
                        }
                    }
                    // membership: everything of the old delta is the wire
                    // form of a stored item, and so is the new one
                    assert forall|k: int|
                        0 <= k < out1.len() implies wire_item_upto(
                        *self,
                        j + 1,
                        #[trigger] out1[k],
                    ) by {
                        if k < pi {
                            assert(out1[k] == out0[k]);
                            lemma_wire_item_widen(*self, j as int, j + 1, out0[k]);
                        } else if k == pi {
                            assert(out1[k] == item);
                        } else {
                            assert(out1[k] == out0[k - 1]);
                            lemma_wire_item_widen(*self, j as int, j + 1, out0[k - 1]);
                        }
                    }
                    assert forall|i: int|
                        0 <= i < j + 1 implies (peer_missing(*remote, #[trigger] s[i])
                        <==> contains_id(out1, s[i].id)) by {
                        crate::list::lemma_contains_id_insert(out0, pi, item, s[i].id);
                    }
                }
            } else {
                proof {
                    assert forall|i: int|
                        0 <= i < j + 1 implies (peer_missing(*remote, #[trigger] s[i])
                        <==> contains_id(out@, s[i].id)) by {
                        if i == j as int && contains_id(out@, s[i].id) {
                            let k = choose|k: int| 0 <= k < out@.len() && out@[k].id == s[i].id;
                            lemma_wire_item_id(*self, j as int, out@[k]);
                            let w = choose|w: int|
                                0 <= w < s.take(j as int).len() && s.take(j as int)[w].id
                                    == out@[k].id;
                            assert(s[w].id == s[j as int].id);
                        }
                    }
                    assert forall|k: int|
                        0 <= k < out@.len() implies wire_item_upto(
                        *self,
                        j + 1,
                        #[trigger] out@[k],
                    ) by {
                        lemma_wire_item_widen(*self, j as int, j + 1, out@[k]);
                    }
                }
            }
            j = j + 1;
        }
        proof {
            assert(s.take(s.len() as int) =~= s);
        }
        out
    }

    /// A snapshot (independent copy) of the local per-replica progress map.
    fn state_vector(&self) -> (r: StateVector)
        ensures
            forall|c: u64| #[trigger] r.spec_get(c) == self.state_vector.spec_get(c),
    {
        self.state_vector.duplicate()
    }
}

} // verus!
