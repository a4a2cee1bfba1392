use vstd::prelude::*;
use vstd::string::{StrSliceExecFns, StringExecFns};

use crate::conflict::{ConflictResolver, YataResolver};
use crate::id::ID;
use crate::item::{origin_lookup, CrdtError, Item, Origin};
use crate::list::{
    all_text, contains_id, find_pos_post, has_run, ids_unique, idx_of, last_vis_before,
    lemma_idx_of, lemma_item_within_all_text, lemma_relink_payloads, lemma_visible_insert,
    lemma_visible_split, lemma_visible_take_succ, lemma_visible_update, linked, relink,
    item_at, same_payload, shrunk_into, split_offset, visible,
};
use crate::state::StateVector;
use crate::traits::SequenceCrdt;

verus! {

/// One replica's copy of the shared character sequence.
///
/// The item store is the vector `items`, which holds the doubly linked list
/// written out in list order: every item's `left`/`right` pointers name
/// exactly its neighbours in the vector (the well-formedness `wf`), so a
/// walk from the head and a walk over the vector are the same walk. `clock`
/// is the next identifier clock this replica will mint; `state_vector`
/// records the highest clock seen per replica; `pending` buffers remote
/// items whose referenced neighbours have not arrived yet; `origins`
/// records, once per item, the anchors it was created between, which is
/// what updates carry on the wire.
#[derive(Debug)]
pub struct Doc<R: ConflictResolver = YataResolver> {
    pub client_id: u64,
    pub clock: u64,
    pub items: Vec<Item>,
    pub pending: Vec<Item>,
    pub state_vector: StateVector,
    pub origins: Vec<Origin>,
    pub resolver: R,
}

impl Doc<YataResolver> {
    /// A fresh document for replica `client_id`, with the baseline
    /// identifier-order conflict strategy.
    pub fn new(client_id: u64) -> (doc: Doc<YataResolver>)
        ensures
            doc.wf(),
            doc.client_id == client_id,
            doc.clock == 0,
            doc.items@.len() == 0,
            doc.pending@.len() == 0,
            forall|c: u64| doc.state_vector.spec_get(c) == None::<u64>,
            doc.text() == Seq::<char>::empty(),
    {
        Doc {
            client_id,
            clock: 0,
            items: Vec::new(),
            pending: Vec::new(),
            state_vector: StateVector::new(),
            origins: Vec::new(),
            resolver: YataResolver,
        }
    }
}

impl<R: ConflictResolver> Doc<R> {
    /// A fresh document for replica `client_id` with a caller-chosen
    /// conflict-resolution strategy.
    pub fn with_resolver(client_id: u64, resolver: R) -> (doc: Doc<R>)
        ensures
            doc.wf(),
            doc.client_id == client_id,
            doc.clock == 0,
            doc.items@.len() == 0,
            doc.pending@.len() == 0,
            forall|c: u64| doc.state_vector.spec_get(c) == None::<u64>,
            doc.text() == Seq::<char>::empty(),
            doc.resolver == resolver,
    {
        Doc {
            client_id,
            clock: 0,
            items: Vec::new(),
            pending: Vec::new(),
            state_vector: StateVector::new(),
            origins: Vec::new(),
            resolver,
        }
    }

    /// Well-formedness of the document state: the vector is the doubly
    /// linked list in order, identifiers are unique, runs are non-empty,
    /// everything this replica minted lies below its clock, its own
    /// state-vector entry never runs ahead of the clock, the state vector
    /// covers every stored run's clocks (so deltas against the document's
    /// own snapshot are empty), and every stored item has a recorded
    /// creation origin.
    pub open spec fn wf(self) -> bool {
        &&& linked(self.items@)
        &&& ids_unique(self.items@)
        &&& (forall|i: int| 0 <= i < self.items@.len() ==> (#[trigger] self.items@[i]).len() >= 1)
        &&& (forall|i: int|
            0 <= i < self.items@.len() && (#[trigger] self.items@[i]).id.client == self.client_id
                ==> self.items@[i].id.clock + self.items@[i].len() <= self.clock)
        &&& (match self.state_vector.spec_get(self.client_id) {
            Some(v) => v < self.clock,
            None => true,
        })
        &&& (forall|i: int|
            0 <= i < self.items@.len() ==> (match self.state_vector.spec_get(
                (#[trigger] self.items@[i]).id.client,
            ) {
                Some(v) => self.items@[i].id.clock + self.items@[i].len() - 1 <= v,
                None => false,
            }))
        &&& (forall|i: int|
            0 <= i < self.items@.len() ==> origin_lookup(
                self.origins@,
                (#[trigger] self.items@[i]).id,
            ) is Some)
    }

    /// The visible text of this replica.
    pub open spec fn text(self) -> Seq<char> {
        visible(self.items@)
    }

    /// The full text, tombstones included.
    pub open spec fn full_text(self) -> Seq<char> {
        all_text(self.items@)
    }

    /// Whether an operation with this identifier has reached the document,
    /// integrated into the list or held in the pending buffer.
    pub open spec fn knows(self, id: ID) -> bool {
        contains_id(self.items@, id) || contains_id(self.pending@, id)
    }

    /// The identifier this replica would mint next.
    pub open spec fn fresh_id(self) -> ID {
        ID { client: self.client_id, clock: self.clock }
    }

    /// The head of the list: the identifier of its first item.
    pub fn head(&self) -> (r: Option<ID>)
        ensures
            r == (if self.items@.len() == 0 {
                None::<ID>
            } else {
                Some(self.items@[0].id)
            }),
    {
        if self.items.len() == 0 {
            None
        } else {
            Some(self.items[0].id)
        }
    }

    /// Mint a new identifier for a local operation over `text`.
    ///
    /// Returns an identifier at the current clock, then advances the clock
    /// by the character count of `text` (one clock value per character, so
    /// later splits stay addressable) and records the last used clock in the
    /// state vector. Empty text is a contract violation: zero-length edits
    /// never mint.
    pub fn next_id(&mut self, text: &str) -> (id: ID)
        requires
            old(self).wf(),
            text@.len() >= 1,
            old(self).clock + text@.len() <= u64::MAX,
        ensures
            final(self).wf(),
            id == old(self).fresh_id(),
            final(self).clock == old(self).clock + text@.len(),
            final(self).client_id == old(self).client_id,
            final(self).items == old(self).items,
            final(self).pending == old(self).pending,
            final(self).origins == old(self).origins,
            final(self).resolver == old(self).resolver,
            final(self).state_vector.spec_get(old(self).client_id) == Some(
                (old(self).clock + text@.len() - 1) as u64,
            ),
            forall|c: u64|
                c != old(self).client_id ==> final(self).state_vector.spec_get(c) == old(
                    self,
                ).state_vector.spec_get(c),
    {
        let count = text.unicode_len();
        let id = ID { client: self.client_id, clock: self.clock };
        self.clock = self.clock + (count as u64);
        self.state_vector.observe(self.client_id, self.clock - 1);
        id
    }

    /// The index of the item carrying `id` in the store, if present.
    pub(crate) fn index_of(&self, id: ID) -> (r: Option<usize>)
        ensures
            match r {
                Some(i) => i < self.items@.len() && self.items@[i as int].id == id && contains_id(
                    self.items@,
                    id,
                ),
                None => !contains_id(self.items@, id),
            },
    {
        let mut i: usize = 0;
        while i < self.items.len()
            invariant
                i <= self.items@.len(),
                forall|j: int| 0 <= j < i ==> (#[trigger] self.items@[j]).id != id,
            decreases self.items@.len() - i,
        {
            if self.items[i].id == id {
                return Some(i);
            }
            i = i + 1;
        }
        None
    }

    /// Locate the place of visible character position `pos` in the list.
    ///
    /// Walks from the head, skipping tombstones and accumulating visible
    /// length. Returns `(left, right, offset)`: the last visible item wholly
    /// before `pos`, the item containing or immediately after `pos`, and how
    /// many characters into that item `pos` falls (`0` means exactly before
    /// it; more means it must be split there). At or past the end of the
    /// visible text, `right` is `None`.
    pub fn find_pos(&self, pos: usize) -> (r: (Option<ID>, Option<ID>, usize))
        requires
            self.wf(),
        ensures
            find_pos_post(self.items@, pos as nat, r),
    {
        let ghost s = self.items@;
        let mut i: usize = 0;
        let mut index: usize = 0;
        let mut left: Option<ID> = None;
        proof {
            assert(s.take(0) =~= Seq::<Item>::empty());
        }
        while i < self.items.len()
            invariant
                self.wf(),
                s == self.items@,
                i <= s.len(),
                index <= pos,
                index as nat == visible(s.take(i as int)).len(),
                left == last_vis_before(s, i as int),
            decreases s.len() - i,
        {
            let it = &self.items[i];
            proof {
                lemma_visible_take_succ(s, i as int);
            }
            if it.is_deleted {
                i = i + 1;
                continue ;
            }
            let len = it.content.as_str().unicode_len();
            if len > pos - index {
                let off = pos - index;
                proof {
                    lemma_idx_of(s, i as int);
                    lemma_visible_split(s, i as int);
                    lemma_visible_take_succ(s, i as int);
                    assert(visible(s.skip(i as int)) =~= visible(s).skip(index as int));
                    assert(visible(s).len() >= index + len) by {
                        assert(visible(s.take(i + 1)).len() == index + len);
                        assert(s.take(i + 1) =~= s.take(i as int).push(s[i as int]));
                        lemma_visible_split(s, i + 1);
                    }
                }
                return (left, Some(it.id), off);
            }
            index = index + len;
            left = Some(it.id);
            i = i + 1;
        }
        proof {
            assert(s.take(s.len() as int) =~= s);
        }
        (left, None, 0)
    }

    /// Splice `item` into the list at index `k`, rewriting the neighbour
    /// pointers on both sides (and on the item itself) so the vector stays
    /// the linked list in order. The same relinking serves local inserts,
    /// splits and remote integration.
    #[verifier::rlimit(100)]
    pub(crate) fn splice(&mut self, k: usize, item: Item)
        requires
            old(self).wf(),
            k <= old(self).items@.len(),
            !contains_id(old(self).items@, item.id),
            item.len() >= 1,
            item.id.client == old(self).client_id ==> item.id.clock + item.len() <= old(
                self,
            ).clock,
            match old(self).state_vector.spec_get(item.id.client) {
                Some(v) => item.id.clock + item.len() - 1 <= v,
                None => false,
            },
            origin_lookup(old(self).origins@, item.id) is Some,
        ensures
            final(self).wf(),
            final(self).items@ == relink(old(self).items@.insert(k as int, item)),
            final(self).items@.len() == old(self).items@.len() + 1,
            final(self).clock == old(self).clock,
            final(self).client_id == old(self).client_id,
            final(self).pending == old(self).pending,
            final(self).state_vector == old(self).state_vector,
            final(self).origins == old(self).origins,
            final(self).resolver == old(self).resolver,
            visible(final(self).items@) == visible(old(self).items@.take(k as int)) + item.vis()
                + visible(old(self).items@.skip(k as int)),
            all_text(final(self).items@) == all_text(old(self).items@.take(k as int))
                + item.content@ + all_text(old(self).items@.skip(k as int)),
    {
        let ghost s0 = self.items@;
        self.items.insert(k, item);
        let ghost u = self.items@;
        let n = self.items.len();
        let mut rebuilt: Vec<Item> = Vec::new();
        proof {
            assert(relink(u).take(0) =~= Seq::<Item>::empty());
        }
        let mut i: usize = 0;
        while i < n
            invariant
                self.items@ == u,
                n == u.len(),
                i <= n,
                rebuilt@ == relink(u).take(i as int),
            decreases n - i,
        {
            let left: Option<ID> = if i == 0 {
                None
            } else {
                Some(self.items[i - 1].id)
            };
            let right: Option<ID> = if i + 1 == n {
                None
            } else {
                Some(self.items[i + 1].id)
            };
            let nu = {
                let o = &self.items[i];
                Item {
                    id: o.id,
                    left,
                    right,
                    content: o.content.clone(),
                    is_deleted: o.is_deleted,
                }
            };
            proof {
                assert(nu == relink(u)[i as int]);
                assert(rebuilt@.push(relink(u)[i as int]) =~= relink(u).take(i as int + 1));
            }
            rebuilt.push(nu);
            i = i + 1;
        }
        self.items = rebuilt;
        proof {
            let ki = k as int;
            assert(self.items@ =~= relink(u));
            lemma_relink_payloads(u);
            crate::list::lemma_ids_unique_insert(s0, ki, item);
            lemma_visible_insert(s0, ki, item);
            let s2 = self.items@;
            assert(self.wf()) by {
                assert forall|i: int|
                    0 <= i < s2.len() implies (#[trigger] s2[i]).len() >= 1 && (s2[i].id.client
                    == self.client_id ==> s2[i].id.clock + s2[i].len() <= self.clock) && (
                match self.state_vector.spec_get(s2[i].id.client) {
                    Some(v) => s2[i].id.clock + s2[i].len() - 1 <= v,
                    None => false,
                }) && origin_lookup(self.origins@, s2[i].id) is Some by {
                    assert(same_payload(s2[i], u[i]));
                    if i < ki {
                        assert(u[i] == s0[i]);
                    } else if i == ki {
                        assert(u[i] == item);
                    } else {
                        assert(u[i] == s0[i - 1]);
                    }
                }
            }
        }
    }

    /// Mark the item at index `i` as a tombstone; its content and links are
    /// kept so identifiers referencing it stay resolvable.
    #[verifier::rlimit(100)]
    fn mark_deleted(&mut self, i: usize)
        requires
            old(self).wf(),
            i < old(self).items@.len(),
        ensures
            final(self).wf(),
            final(self).items@ == old(self).items@.update(
                i as int,
                Item { is_deleted: true, ..old(self).items@[i as int] },
            ),
            final(self).clock == old(self).clock,
            final(self).client_id == old(self).client_id,
            final(self).pending == old(self).pending,
            final(self).state_vector == old(self).state_vector,
            final(self).resolver == old(self).resolver,
            visible(final(self).items@) == visible(old(self).items@.take(i as int)) + visible(
                old(self).items@.skip(i + 1),
            ),
            all_text(final(self).items@) == all_text(old(self).items@),
    {
        let ghost s0 = self.items@;
        let up = {
            let o = &self.items[i];
            Item {
                id: o.id,
                left: o.left,
                right: o.right,
                content: o.content.clone(),
                is_deleted: true,
            }
        };
        *vstd::std_specs::vec::vec_index_mut(&mut self.items, i) = up;
        proof {
            let marked = Item { is_deleted: true, ..s0[i as int] };
            assert(self.items@ =~= s0.update(i as int, marked));
            lemma_visible_update(s0, i as int, marked);
            assert(marked.vis() =~= Seq::<char>::empty());
            assert(visible(self.items@) =~= visible(s0.take(i as int)) + visible(
                s0.skip(i + 1),
            ));
            lemma_visible_update(s0, i as int, s0[i as int]);
            assert(s0.update(i as int, s0[i as int]) =~= s0);
            assert(all_text(self.items@) =~= all_text(s0));
        }
    }

    /// Tombstone the whole visible item at index `i`: the walk of a deletion
    /// consumes exactly its content from the remaining tail.
    fn delete_whole_item(&mut self, i: usize) -> (got: usize)
        requires
            old(self).wf(),
            i < old(self).items@.len(),
            !old(self).items@[i as int].is_deleted,
        ensures
            final(self).wf(),
            final(self).client_id == old(self).client_id,
            final(self).clock == old(self).clock,
            final(self).pending == old(self).pending,
            final(self).resolver == old(self).resolver,
            final(self).items@.len() == old(self).items@.len(),
            got as nat == old(self).items@[i as int].len(),
            all_text(final(self).items@) == all_text(old(self).items@),
            visible(final(self).items@.take(i as int)) == visible(
                old(self).items@.take(i as int),
            ),
            visible(final(self).items@.take(i + 1)) == visible(old(self).items@.take(i as int)),
            visible(final(self).items@.skip(i + 1)) == visible(
                old(self).items@.skip(i as int),
            ).skip(got as int),
            visible(old(self).items@.skip(i as int)).len() >= got,
            forall|q: int|
                0 <= q < old(self).items@.len() ==> contains_id(
                    final(self).items@,
                    (#[trigger] old(self).items@[q]).id,
                ),
            forall|q: int|
                0 <= q < old(self).items@.len() ==> ({
                    let w = idx_of(final(self).items@, (#[trigger] old(self).items@[q]).id);
                    &&& (old(self).items@[q].is_deleted ==> final(self).items@[w].is_deleted)
                    &&& final(self).items@[w].content@.len() <= old(
                        self,
                    ).items@[q].content@.len()
                    &&& final(self).items@[w].content@ == old(self).items@[q].content@.skip(
                        old(self).items@[q].content@.len() - final(self).items@[w].content@.len(),
                    )
                }),
    {
        let ghost s = self.items@;
        let got = self.items[i].content.as_str().unicode_len();
        self.mark_deleted(i);
        proof {
            crate::list::lemma_walk_mark_whole(s, i as int);
            assert(self.items@ == s.update(i as int, Item { is_deleted: true, ..s[i as int] }));
            assert(self.items@.take(i as int) =~= s.take(i as int));
            assert forall|q: int|
                0 <= q < s.len() implies contains_id(self.items@, (#[trigger] s[q]).id) && ({
                let w = idx_of(self.items@, s[q].id);
                &&& (s[q].is_deleted ==> self.items@[w].is_deleted)
                &&& self.items@[w].content@.len() <= s[q].content@.len()
                &&& self.items@[w].content@ == s[q].content@.skip(
                    s[q].content@.len() - self.items@[w].content@.len(),
                )
            }) by {
                assert(self.items@[q].id == s[q].id);
                lemma_idx_of(self.items@, q);
                assert(self.items@[q].content@ == s[q].content@);
                assert(s[q].content@.skip(0) =~= s[q].content@);
            }
        }
        got
    }

    /// Tombstone the first `rem` characters of the visible item at index
    /// `i`: split it there, mark the new left half deleted, and keep the
    /// remainder (with the original identifier) visible.
    fn delete_prefix_of_item(&mut self, i: usize, rem: usize)
        requires
            old(self).wf(),
            i < old(self).items@.len(),
            !old(self).items@[i as int].is_deleted,
            0 < rem < old(self).items@[i as int].len(),
            old(self).clock + rem <= u64::MAX,
        ensures
            final(self).wf(),
            final(self).client_id == old(self).client_id,
            final(self).clock == old(self).clock + rem,
            final(self).pending == old(self).pending,
            final(self).resolver == old(self).resolver,
            final(self).items@.len() == old(self).items@.len() + 1,
            all_text(final(self).items@) == all_text(old(self).items@),
            visible(final(self).items@.take(i as int)) == visible(
                old(self).items@.take(i as int),
            ),
            visible(final(self).items@.skip(i as int)) == visible(
                old(self).items@.skip(i as int),
            ).skip(rem as int),
            visible(old(self).items@.skip(i as int)).len() > rem,
            forall|q: int|
                0 <= q < old(self).items@.len() ==> contains_id(
                    final(self).items@,
                    (#[trigger] old(self).items@[q]).id,
                ),
            forall|q: int|
                0 <= q < old(self).items@.len() ==> ({
                    let w = idx_of(final(self).items@, (#[trigger] old(self).items@[q]).id);
                    &&& (old(self).items@[q].is_deleted ==> final(self).items@[w].is_deleted)
                    &&& final(self).items@[w].content@.len() <= old(
                        self,
                    ).items@[q].content@.len()
                    &&& final(self).items@[w].content@ == old(self).items@[q].content@.skip(
                        old(self).items@[q].content@.len() - final(self).items@[w].content@.len(),
                    )
                }),
    {
        let ghost s = self.items@;
        let iid = self.items[i].id;
        proof {
            lemma_idx_of(s, i as int);
        }
        let nid = self.split_item(iid, rem);
        let ghost s2 = self.items@;
        let ni = match self.index_of(nid) {
            Some(x) => x,
            None => {
                proof {
                    assert(false);
                }
                0
            },
        };
        proof {
            assert(s2[i as int].id == nid);
            lemma_idx_of(s2, i as int);
            lemma_idx_of(s2, ni as int);
            assert(ni == i);
        }
        self.mark_deleted(ni);
        proof {
            crate::list::lemma_walk_mark_partial(s, s2, i as int, rem as int);
            assert(self.items@ == s2.update(
                i as int,
                Item { is_deleted: true, ..s2[i as int] },
            ));
            let s3 = self.items@;
            assert forall|q: int|
                0 <= q < s.len() implies contains_id(s3, (#[trigger] s[q]).id) && ({
                let w = idx_of(s3, s[q].id);
                &&& (s[q].is_deleted ==> s3[w].is_deleted)
                &&& s3[w].content@.len() <= s[q].content@.len()
                &&& s3[w].content@ == s[q].content@.skip(s[q].content@.len() - s3[w].content@.len())
            }) by {
                if q < i as int {
                    assert(same_payload(s2[q], s[q]));
                    assert(s3[q].id == s[q].id && s3[q].content@ == s[q].content@ && s3[q].is_deleted
                        == s[q].is_deleted);
                    lemma_idx_of(s3, q);
                    assert(s[q].content@.skip(0) =~= s[q].content@);
                } else if q == i as int {
                    assert(s3[q + 1] == s2[q + 1]);
                    assert(s3[q + 1].id == s[q].id);
                    lemma_idx_of(s3, q + 1);
                    assert(s3[q + 1].content@ == s[q].content@.skip(rem as int));
                } else {
                    assert(same_payload(s2[q + 1], s[q]));
                    assert(s3[q + 1].id == s[q].id && s3[q + 1].content@ == s[q].content@
                        && s3[q + 1].is_deleted == s[q].is_deleted);
                    lemma_idx_of(s3, q + 1);
                    assert(s[q].content@.skip(0) =~= s[q].content@);
                }
            }
        }
    }

    /// The length of the visible text, capped at `cap` (the cap keeps the
    /// count within machine range whatever the store holds).
    fn visible_len_capped(&self, cap: usize) -> (r: usize)
        requires
            self.wf(),
        ensures
            r as int == (if visible(self.items@).len() <= cap as int {
                visible(self.items@).len() as int
            } else {
                cap as int
            }),
    {
        let ghost s = self.items@;
        let mut i: usize = 0;
        let mut index: usize = 0;
        proof {
            assert(s.take(0) =~= Seq::<Item>::empty());
        }
        while i < self.items.len()
            invariant
                self.wf(),
                s == self.items@,
                i <= s.len(),
                index <= cap,
                index as nat == visible(s.take(i as int)).len(),
            decreases s.len() - i,
        {
            let it = &self.items[i];
            proof {
                lemma_visible_take_succ(s, i as int);
            }
            if !it.is_deleted {
                let len = it.content.as_str().unicode_len();
                if len > cap - index {
                    proof {
                        lemma_visible_split(s, i as int + 1);
                        assert(visible(s).len() >= visible(s.take(i as int + 1)).len());
                    }
                    return cap;
                }
                index = index + len;
            }
            i = i + 1;
        }
        proof {
            assert(s.take(s.len() as int) =~= s);
        }
        index
    }

    /// The item carrying `id`, if it is integrated in the store.
    pub fn get_item(&self, id: ID) -> (r: Option<&Item>)
        ensures
            match r {
                Some(it) => contains_id(self.items@, id) && exists|i: int|
                    0 <= i < self.items@.len() && self.items@[i] == *it && it.id == id,
                None => !contains_id(self.items@, id),
            },
    {
        match self.index_of(id) {
            Some(i) => {
                let it = &self.items[i];
                proof {
                    assert(0 <= i < self.items@.len() && self.items@[i as int] == *it
                        && it.id == id);
                }
                Some(it)
            },
            None => None,
        }
    }

    /// A restartable iterator over the visible items, from the head.
    pub fn iter<'a>(&'a self) -> (it: DocIterator<'a, R>)
        ensures
            it.doc == self,
            it.cursor == 0,
    {
        DocIterator { doc: self, cursor: 0 }
    }

    /// Every identifier this replica would mint next is absent from a
    /// well-formed store: all its own items lie strictly below the clock.
    proof fn lemma_mint_fresh(self)
        requires
            self.wf(),
        ensures
            !contains_id(self.items@, self.fresh_id()),
    {
        let id = self.fresh_id();
        if contains_id(self.items@, id) {
            let i = choose|i: int| 0 <= i < self.items@.len() && self.items@[i].id == id;
            assert(self.items@[i].len() >= 1);
            assert(self.items@[i].id.clock + self.items@[i].len() <= self.clock);
        }
    }

    /// After a split, every item of the old store shrank into the new one:
    /// only the split item lost characters, to its own left half, keeping
    /// the tail of its content under its identifier.
    proof fn lemma_split_shrinks(pre: Doc<R>, item_id: ID, off: nat, post: Doc<R>)
        requires
            pre.wf(),
            contains_id(pre.items@, item_id),
            off <= pre.items@[idx_of(pre.items@, item_id)].len(),
            pre.split_post(item_id, off, post, ID { client: pre.client_id, clock: pre.clock }),
        ensures
            forall|q: int|
                0 <= q < pre.items@.len() ==> shrunk_into(post.items@, #[trigger] pre.items@[q]),
    {
        let j0 = idx_of(pre.items@, item_id);
        let s1 = post.items@;
        assert(0 <= j0 < pre.items@.len() && pre.items@[j0].id == item_id) by {
            let w = choose|w: int| 0 <= w < pre.items@.len() && pre.items@[w].id == item_id;
            assert(0 <= w < pre.items@.len() && pre.items@[w].id == item_id);
        }
        assert forall|q: int|
            0 <= q < pre.items@.len() implies shrunk_into(s1, #[trigger] pre.items@[q]) by {
            if q < j0 {
                assert(same_payload(s1[q], pre.items@[q]));
                lemma_idx_of(s1, q);
                assert(pre.items@[q].content@.skip(0) =~= pre.items@[q].content@);
            } else if q == j0 {
                assert(s1[j0 + 1].id == pre.items@[j0].id);
                lemma_idx_of(s1, j0 + 1);
                assert(s1[j0 + 1].content@ == pre.items@[j0].content@.skip(off as int));
                assert(s1[j0 + 1].content@.len() == pre.items@[j0].content@.len() - off);
            } else {
                assert(same_payload(s1[q + 1], pre.items@[q]));
                lemma_idx_of(s1, q + 1);
                assert(pre.items@[q].content@.skip(0) =~= pre.items@[q].content@);
            }
        }
    }

    /// What `split_item` did: the item that stood at `item_id` was divided
    /// at `offset` into a freshly minted left-hand item and the truncated
    /// original, which keeps its identifier on the right-hand remainder (so
    /// in-flight references to it still resolve to the position adjacent to
    /// their anchor). Neither the visible nor the full text changes.
    pub open spec fn split_post(self, item_id: ID, offset: nat, post: Doc<R>, new_id: ID) -> bool {
        let j = idx_of(self.items@, item_id);
        let orig = self.items@[j];
        let s = post.items@;
        &&& post.wf()
        &&& new_id == self.fresh_id()
        &&& s.len() == self.items@.len() + 1
        &&& (forall|i: int| 0 <= i < j ==> same_payload(#[trigger] s[i], self.items@[i]))
        &&& s[j].id == new_id
        &&& s[j].content@ == orig.content@.take(offset as int)
        &&& !s[j].is_deleted
        &&& s[j + 1].id == item_id
        &&& s[j + 1].content@ == orig.content@.skip(offset as int)
        &&& s[j + 1].is_deleted == orig.is_deleted
        &&& (forall|i: int|
            j + 2 <= i < s.len() ==> same_payload(#[trigger] s[i], self.items@[i - 1]))
        &&& s[j].content@ + s[j + 1].content@ == orig.content@
        &&& visible(s) == visible(self.items@)
        &&& all_text(s) == all_text(self.items@)
        &&& visible(s.take(j + 1)) == visible(self.items@.take(j)) + orig.content@.take(
            offset as int,
        )
        &&& post.clock == self.clock + offset
        &&& post.client_id == self.client_id
        &&& post.pending == self.pending
        &&& post.resolver == self.resolver
        &&& post.state_vector.spec_get(self.client_id) == Some(
            (self.clock + offset - 1) as u64,
        )
        &&& (forall|c: u64|
            c != self.client_id ==> post.state_vector.spec_get(c)
                == self.state_vector.spec_get(c))
    }

    /// Split the item carrying `item_id` at character offset `offset`
    /// (strictly inside it), introducing a new addressable boundary without
    /// changing the text.
    ///
    /// The new left-hand item gets a freshly minted identifier and the first
    /// `offset` characters; the original item keeps its identifier and the
    /// rest. Returns the new left-hand identifier. The item must be visible:
    /// splits are made by edits that land strictly inside an item, which a
    /// position lookup only ever answers with a non-tombstoned one — and the
    /// freshly created left half is born visible, which on a tombstone would
    /// resurrect its text.
    #[verifier::rlimit(100)]
    pub fn split_item(&mut self, item_id: ID, offset: usize) -> (new_id: ID)
        requires
            old(self).wf(),
            contains_id(old(self).items@, item_id),
            !old(self).items@[idx_of(old(self).items@, item_id)].is_deleted,
            0 < offset < old(self).items@[idx_of(old(self).items@, item_id)].len(),
            old(self).clock + offset <= u64::MAX,
        ensures
            old(self).split_post(item_id, offset as nat, *final(self), new_id),
    {
        let ghost s0 = self.items@;
        let ghost j_spec = idx_of(s0, item_id);
        let j = match self.index_of(item_id) {
            Some(j) => j,
            None => {
                proof {
                    assert(false);
                }
                0
            },
        };
        proof {
            lemma_idx_of(s0, j as int);
        }
        let (left_content, right_content) = {
            let o = &self.items[j];
            let total = o.content.as_str().unicode_len();
            let l = o.content.as_str().substring_char(0, offset).to_owned();
            let r = o.content.as_str().substring_char(offset, total).to_owned();
            (l, r)
        };
        // the new item's creation anchors: the split item's old left
        // neighbour, and the split item itself
        let prev_left = self.items[j].left;
        let new_id = self.next_id(&left_content);
        let up = {
            let o = &self.items[j];
            Item {
                id: o.id,
                left: o.left,
                right: o.right,
                content: right_content,
                is_deleted: o.is_deleted,
            }
        };
        *vstd::std_specs::vec::vec_index_mut(&mut self.items, j) = up;
        let ghost s1 = self.items@;
        let ghost ji = j as int;
        let ghost trunc = s1[ji];
        proof {
            assert(s1 == s0.update(ji, trunc));
            assert(self.wf()) by {
                assert forall|i: int, jj: int| 0 <= i < jj < s1.len() implies s1[i].id
                    != s1[jj].id by {
                    assert(s1[i].id == s0[i].id && s1[jj].id == s0[jj].id);
                }
                assert(linked(s1)) by {
                    assert forall|i: int| 0 <= i < s1.len() implies (#[trigger] s1[i].left) == (
                    if i == 0 {
                        None::<ID>
                    } else {
                        Some(s1[i - 1].id)
                    }) by {
                        assert(s1[i].left == s0[i].left);
                        assert(s0[i].left == (if i == 0 {
                            None::<ID>
                        } else {
                            Some(s0[i - 1].id)
                        }));
                    }
                    assert forall|i: int| 0 <= i < s1.len() implies (#[trigger] s1[i].right) == (
                    if i == s1.len() - 1 {
                        None::<ID>
                    } else {
                        Some(s1[i + 1].id)
                    }) by {
                        assert(s1[i].right == s0[i].right);
                        assert(s0[i].right == (if i == s0.len() - 1 {
                            None::<ID>
                        } else {
                            Some(s0[i + 1].id)
                        }));
                    }
                }
                assert forall|i: int| 0 <= i < s1.len() implies (#[trigger] s1[i]).len() >= 1 && (
                s1[i].id.client == self.client_id ==> s1[i].id.clock + s1[i].len()
                    <= self.clock) && (match self.state_vector.spec_get(s1[i].id.client) {
                    Some(v) => s1[i].id.clock + s1[i].len() - 1 <= v,
                    None => false,
                }) && origin_lookup(self.origins@, s1[i].id) is Some by {
                    if i != ji {
                        assert(s1[i] == s0[i]);
                    } else {
                        assert(s1[i].id == s0[i].id);
                    }
                }
            }
            old(self).lemma_mint_fresh();
            assert(!contains_id(s1, new_id)) by {
                if contains_id(s1, new_id) {
                    let i = choose|i: int| 0 <= i < s1.len() && s1[i].id == new_id;
                    assert(s0[i].id == new_id);
                }
            }
        }
        let og = Origin { id: new_id, left: prev_left, right: Some(item_id) };
        let ghost origins0 = self.origins@;
        self.origins.push(og);
        proof {
            assert(self.origins@ == origins0.push(og));
            assert forall|i: int|
                0 <= i < self.items@.len() implies origin_lookup(
                self.origins@,
                (#[trigger] self.items@[i]).id,
            ) is Some by {
                crate::item::lemma_origin_lookup_push(origins0, og, self.items@[i].id);
            }
            crate::item::lemma_origin_lookup_push(origins0, og, new_id);
            assert(self.wf());
        }
        let left_half = Item {
            id: new_id,
            left: None,
            right: None,
            content: left_content,
            is_deleted: false,
        };
        self.splice(j, left_half);
        proof {
            let s2 = self.items@;
            let orig = s0[ji];
            assert(j_spec == ji);
            assert(left_half.content@ + trunc.content@ =~= orig.content@);
            crate::list::lemma_split_texts(s0, ji, left_half, trunc);
            assert(s2 == relink(s1.insert(ji, left_half)));
            lemma_relink_payloads(s1.insert(ji, left_half));
            assert forall|i: int| 0 <= i < ji implies same_payload(#[trigger] s2[i], s0[i]) by {
                assert(s1.insert(ji, left_half)[i] == s1[i]);
                assert(s1[i] == s0[i]);
            }
            assert(s1.insert(ji, left_half)[ji] == left_half);
            assert(same_payload(s2[ji], left_half));
            assert(s1.insert(ji, left_half)[ji + 1] == trunc);
            assert(same_payload(s2[ji + 1], trunc));
            assert forall|i: int| ji + 2 <= i < s2.len() implies same_payload(
                #[trigger] s2[i],
                s0[i - 1],
            ) by {
                assert(s1.insert(ji, left_half)[i] == s1[i - 1]);
                assert(s1[i - 1] == s0[i - 1]);
            }
            assert(orig.content@.subrange(0, offset as int) =~= orig.content@.take(offset as int));
            assert(orig.content@.subrange(offset as int, orig.content@.len() as int)
                =~= orig.content@.skip(offset as int));
        }
        new_id
    }
}

/// Lazy left-to-right traversal of a document's visible items: `next` hands
/// out the next non-deleted item, skipping tombstones.
pub struct DocIterator<'a, R: ConflictResolver> {
    pub doc: &'a Doc<R>,
    pub cursor: usize,
}

impl<'a, R: ConflictResolver> DocIterator<'a, R> {
    /// The next visible item, advancing the cursor past it; `None` once only
    /// tombstones remain.
    pub fn next(&mut self) -> (r: Option<&'a Item>)
        requires
            old(self).cursor <= old(self).doc.items@.len(),
        ensures
            final(self).doc == old(self).doc,
            old(self).cursor <= final(self).cursor <= old(self).doc.items@.len(),
            match r {
                Some(it) => {
                    &&& final(self).cursor >= old(self).cursor + 1
                    &&& *it == old(self).doc.items@[final(self).cursor - 1]
                    &&& !it.is_deleted
                    &&& forall|q: int|
                        old(self).cursor <= q < final(self).cursor - 1 ==> (
                        #[trigger] old(self).doc.items@[q]).is_deleted
                },
                None => {
                    &&& final(self).cursor == old(self).doc.items@.len()
                    &&& forall|q: int|
                        old(self).cursor <= q < old(self).doc.items@.len() ==> (
                        #[trigger] old(self).doc.items@[q]).is_deleted
                },
            },
    {
        while self.cursor < self.doc.items.len()
            invariant
                self.doc == old(self).doc,
                old(self).cursor <= self.cursor <= self.doc.items@.len(),
                forall|q: int|
                    old(self).cursor <= q < self.cursor ==> (
                    #[trigger] self.doc.items@[q]).is_deleted,
            decreases self.doc.items@.len() - self.cursor,
        {
            let it = &self.doc.items[self.cursor];
            self.cursor = self.cursor + 1;
            if !it.is_deleted {
                return Some(it);
            }
        }
        None
    }
}

impl<R: ConflictResolver> SequenceCrdt for Doc<R> {
    open spec fn inv(&self) -> bool {
        self.wf()
    }

    open spec fn text(&self) -> Seq<char> {
        visible(self.items@)
    }

    open spec fn can_insert(&self, content: Seq<char>) -> bool {
        self.clock + content.len() + all_text(self.items@).len() <= u64::MAX
    }

    open spec fn can_delete(&self) -> bool {
        self.clock + 2 * all_text(self.items@).len() <= u64::MAX
    }

    /// Insert `content` at visible position `pos`: locate the place, split
    /// the item there if the place falls strictly inside it, mint one
    /// identifier for the whole run, and splice a single new item in.
    #[verifier::rlimit(100)]
    fn insert(&mut self, pos: usize, content: &str) -> (r: Result<(), CrdtError>)
        ensures
            final(self).client_id == old(self).client_id,
            final(self).pending == old(self).pending,
            final(self).resolver == old(self).resolver,
            final(self).clock <= old(self).clock + content@.len() + old(self).full_text().len(),
            content@.len() > 0 && pos <= old(self).text().len() ==> ({
                let off = split_offset(old(self).items@, pos as nat);
                &&& final(self).clock == old(self).clock + content@.len() + off
                &&& final(self).items@.len() == old(self).items@.len() + (if off == 0 {
                    1int
                } else {
                    2int
                })
                &&& final(self).full_text().len() == old(self).full_text().len()
                    + content@.len()
                &&& has_run(
                    final(self).items@,
                    ID { client: old(self).client_id, clock: (old(self).clock + off) as u64 },
                    content@,
                    false,
                )
            }),
            content@.len() > 0 && pos <= old(self).text().len() ==> (forall|q: int|
                0 <= q < old(self).items@.len() ==> shrunk_into(
                    final(self).items@,
                    #[trigger] old(self).items@[q],
                )),
            (content@.len() > 0 && pos <= old(self).text().len() && split_offset(
                old(self).items@,
                pos as nat,
            ) > 0) ==> ({
                let orig = item_at(old(self).items@, pos as nat);
                let off = split_offset(old(self).items@, pos as nat);
                &&& has_run(
                    final(self).items@,
                    ID { client: old(self).client_id, clock: old(self).clock },
                    orig.content@.take(off as int),
                    false,
                )
                &&& has_run(final(self).items@, orig.id, orig.content@.skip(off as int), false)
            }),
    {
        if content.is_empty() {
            return Ok(());
        }
        let vl = self.visible_len_capped(pos);
        if vl < pos {
            return Err(CrdtError::InvalidPosition);
        }
        let ghost pre = *self;
        let ghost t0 = visible(pre.items@);
        let (left0, right0, off) = self.find_pos(pos);
        let mut left_anchor = left0;
        let k: usize = match right0 {
            Some(rid) => {
                let ghost j0 = idx_of(pre.items@, rid);
                if off > 0 {
                    proof {
                        lemma_item_within_all_text(pre.items@, j0);
                    }
                    let lid = self.split_item(rid, off);
                    left_anchor = Some(lid);
                }
                let k = match self.index_of(rid) {
                    Some(x) => x,
                    None => {
                        proof {
                            assert(false);
                        }
                        0
                    },
                };
                proof {
                    lemma_idx_of(self.items@, k as int);
                    crate::list::lemma_split_offset_at(pre.items@, j0, pos as nat, off as nat);
                    if off > 0 {
                        assert(self.items@[j0 + 1].id == rid);
                        lemma_idx_of(self.items@, j0 + 1);
                        assert(k as int == j0 + 1);
                        assert(visible(self.items@.take(k as int)).len() == pos as nat);
                        Self::lemma_split_shrinks(pre, rid, off as nat, *self);
                        assert(item_at(pre.items@, pos as nat) == pre.items@[j0]);
                        assert(has_run(
                            self.items@,
                            ID { client: pre.client_id, clock: pre.clock },
                            item_at(pre.items@, pos as nat).content@.take(off as int),
                            false,
                        )) by {
                            assert(self.items@[j0].id == ID {
                                client: pre.client_id,
                                clock: pre.clock,
                            });
                            assert(self.items@[j0].content@ == pre.items@[j0].content@.take(
                                off as int,
                            ));
                        }
                        assert(has_run(
                            self.items@,
                            item_at(pre.items@, pos as nat).id,
                            item_at(pre.items@, pos as nat).content@.skip(off as int),
                            false,
                        )) by {
                            assert(self.items@[j0 + 1].id == pre.items@[j0].id);
                        }
                    } else {
                        assert(k as int == j0);
                        assert(visible(self.items@.take(k as int)).len() == pos as nat);
                        crate::list::lemma_shrunk_identity(self.items@);
                    }
                    assert(visible(self.items@) == t0);
                    assert(self.clock + content@.len() <= u64::MAX);
                    assert(self.clock == pre.clock + split_offset(pre.items@, pos as nat));
                    assert(self.items@.len() == pre.items@.len() + (if split_offset(
                        pre.items@,
                        pos as nat,
                    ) == 0 {
                        0int
                    } else {
                        1int
                    }));
                    assert(all_text(self.items@) == all_text(pre.items@));
                }
                k
            },
            None => {
                proof {
                    assert(pos as nat == t0.len());
                    crate::list::lemma_split_offset_end(pre.items@, pos as nat);
                    assert(self.items@.take(self.items@.len() as int) =~= self.items@);
                    assert(visible(self.items@) == t0);
                    assert(self.clock + content@.len() <= u64::MAX);
                    assert(self.clock == pre.clock + split_offset(pre.items@, pos as nat));
                    crate::list::lemma_shrunk_identity(self.items@);
                    assert(self.items@.len() == pre.items@.len());
                    assert(all_text(self.items@) == all_text(pre.items@));
                }
                self.items.len()
            },
        };
        let ghost s_mid = self.items@;
        proof {
            self.lemma_mint_fresh();
        }
        let new_id = self.next_id(content);
        let og = Origin { id: new_id, left: left_anchor, right: right0 };
        let ghost origins0 = self.origins@;
        self.origins.push(og);
        proof {
            assert(self.origins@ == origins0.push(og));
            assert forall|i: int|
                0 <= i < self.items@.len() implies origin_lookup(
                self.origins@,
                (#[trigger] self.items@[i]).id,
            ) is Some by {
                crate::item::lemma_origin_lookup_push(origins0, og, self.items@[i].id);
            }
            crate::item::lemma_origin_lookup_push(origins0, og, new_id);
            assert(self.wf());
        }
        let item = Item {
            id: new_id,
            left: left_anchor,
            right: right0,
            content: content.to_owned(),
            is_deleted: false,
        };
        self.splice(k, item);
        proof {
            lemma_visible_split(s_mid, k as int);
            assert(visible(s_mid.take(k as int)) =~= t0.subrange(0, pos as int));
            assert(visible(s_mid.skip(k as int)) =~= t0.subrange(pos as int, t0.len() as int));
            assert(item.vis() == content@);
            crate::list::lemma_split_offset_le(pre.items@, pos as nat);
            // the new run sits at the splice index, under the minted id
            lemma_relink_payloads(s_mid.insert(k as int, item));
            assert(s_mid.insert(k as int, item)[k as int] == item);
            assert(same_payload(self.items@[k as int], item));
            assert(has_run(
                self.items@,
                ID { client: pre.client_id, clock: (pre.clock + split_offset(pre.items@, pos as nat)) as u64 },
                content@,
                false,
            ));
            // every run the store held survives the splice with its payload
            crate::list::lemma_shrunk_relink_insert(s_mid, k as int, item);
            assert forall|q: int|
                0 <= q < pre.items@.len() implies shrunk_into(
                self.items@,
                #[trigger] pre.items@[q],
            ) by {
                crate::list::lemma_shrunk_into_trans(s_mid, self.items@, pre.items@[q]);
            }
            if split_offset(pre.items@, pos as nat) > 0 {
                crate::list::lemma_has_run_relink_insert(
                    s_mid,
                    k as int,
                    item,
                    ID { client: pre.client_id, clock: pre.clock },
                    item_at(pre.items@, pos as nat).content@.take(
                        split_offset(pre.items@, pos as nat) as int,
                    ),
                    false,
                );
                crate::list::lemma_has_run_relink_insert(
                    s_mid,
                    k as int,
                    item,
                    item_at(pre.items@, pos as nat).id,
                    item_at(pre.items@, pos as nat).content@.skip(
                        split_offset(pre.items@, pos as nat) as int,
                    ),
                    false,
                );
            }
        }
        Ok(())
    }

    /// Delete up to `len` visible characters from `pos` on: split at the
    /// start if it falls inside an item, then walk right, tombstoning whole
    /// items and splitting once more where the budget ends inside one.
    #[verifier::rlimit(100)]
    fn delete(&mut self, pos: usize, len: usize) -> (r: Result<(), CrdtError>)
        ensures
            final(self).client_id == old(self).client_id,
            final(self).pending == old(self).pending,
            final(self).resolver == old(self).resolver,
            final(self).full_text() == old(self).full_text(),
            final(self).clock <= old(self).clock + 2 * old(self).full_text().len(),
            len > 0 && pos <= old(self).text().len() ==> (forall|q: int|
                0 <= q < old(self).items@.len() ==> shrunk_into(
                    final(self).items@,
                    #[trigger] old(self).items@[q],
                )),
    {
        if len == 0 {
            return Ok(());
        }
        let vl = self.visible_len_capped(pos);
        if vl < pos {
            return Err(CrdtError::InvalidPosition);
        }
        let ghost pre = *self;
        let ghost t0 = visible(pre.items@);
        let ghost n0 = t0.len() as int;
        let (_start_left, start_right, off) = self.find_pos(pos);
        let rid = match start_right {
            Some(rid) => rid,
            None => {
                proof {
                    assert(pos as int == n0);
                    assert(t0.subrange(0, pos as int) + t0.subrange(pos as int, n0) =~= t0);
                    assert forall|q: int|
                        0 <= q < pre.items@.len() implies shrunk_into(
                        self.items@,
                        #[trigger] pre.items@[q],
                    ) by {
                        lemma_idx_of(pre.items@, q);
                        assert(pre.items@[q].content@.skip(0) =~= pre.items@[q].content@);
                    }
                }
                return Ok(());
            },
        };
        let ghost j0 = idx_of(pre.items@, rid);
        if off > 0 {
            proof {
                lemma_item_within_all_text(pre.items@, j0);
            }
            self.split_item(rid, off);
        }
        let mut i: usize = match self.index_of(rid) {
            Some(x) => x,
            None => {
                proof {
                    assert(false);
                }
                0
            },
        };
        proof {
            lemma_idx_of(self.items@, i as int);
            if off > 0 {
                assert(self.items@[j0 + 1].id == rid);
                lemma_idx_of(self.items@, j0 + 1);
                assert(i as int == j0 + 1);
            } else {
                assert(i as int == j0);
            }
            assert(visible(self.items@.take(i as int)).len() == pos as nat);
            assert(visible(self.items@) == t0);
            lemma_visible_split(self.items@, i as int);
            assert(visible(self.items@.take(i as int)) =~= t0.subrange(0, pos as int));
            assert(visible(self.items@.skip(i as int)) =~= t0.subrange(pos as int, n0));
            if off > 0 {
                lemma_item_within_all_text(pre.items@, j0);
            }
            // what the start-of-range split left of each old item
            let s1 = self.items@;
            assert forall|q: int|
                0 <= q < pre.items@.len() implies shrunk_into(s1, #[trigger] pre.items@[q]) by {
                if off > 0 {
                    if q < j0 {
                        assert(same_payload(s1[q], pre.items@[q]));
                        lemma_idx_of(s1, q);
                        assert(pre.items@[q].content@.skip(0) =~= pre.items@[q].content@);
                    } else if q == j0 {
                        assert(s1[j0 + 1].id == pre.items@[j0].id);
                        lemma_idx_of(s1, j0 + 1);
                        assert(s1[j0 + 1].content@ == pre.items@[j0].content@.skip(off as int));
                    } else {
                        assert(same_payload(s1[q + 1], pre.items@[q]));
                        lemma_idx_of(s1, q + 1);
                        assert(pre.items@[q].content@.skip(0) =~= pre.items@[q].content@);
                    }
                } else {
                    lemma_idx_of(s1, q);
                    assert(pre.items@[q].content@.skip(0) =~= pre.items@[q].content@);
                }
            }
            assert(self.clock <= pre.clock + all_text(pre.items@).len());
        }
        let mut remaining: usize = len;
        while remaining > 0 && i < self.items.len()
            invariant
                self.wf(),
                self.client_id == pre.client_id,
                self.pending == pre.pending,
                self.resolver == pre.resolver,
                i <= self.items@.len(),
                remaining <= len,
                n0 == t0.len(),
                pos <= n0,
                pos + len - remaining <= n0,
                visible(self.items@.take(i as int)) == t0.subrange(0, pos as int),
                visible(self.items@.skip(i as int)) == t0.subrange(
                    pos + len - remaining,
                    n0,
                ),
                all_text(self.items@) == all_text(pre.items@),
                remaining > 0 ==> self.clock + all_text(self.items@).len() <= u64::MAX,
                remaining > 0 ==> self.clock <= pre.clock + all_text(pre.items@).len(),
                self.clock <= pre.clock + 2 * all_text(pre.items@).len(),
                forall|q: int|
                    0 <= q < pre.items@.len() ==> shrunk_into(
                        self.items@,
                        #[trigger] pre.items@[q],
                    ),
            decreases remaining, self.items@.len() - i,
        {
            let ghost s = self.items@;
            let ghost d = len - remaining;
            if self.items[i].is_deleted {
                proof {
                    crate::list::lemma_walk_skip_tombstone(s, i as int);
                }
                i = i + 1;
                continue ;
            }
            let item_len = self.items[i].content.as_str().unicode_len();
            proof {
                lemma_item_within_all_text(s, i as int);
            }
            if remaining < item_len {
                self.delete_prefix_of_item(i, remaining);
                proof {
                    assert(visible(s.skip(i as int)).skip(remaining as int) =~= t0.subrange(
                        pos + d + remaining,
                        n0,
                    ));
                    assert forall|w: int|
                        0 <= w < s.len() implies shrunk_into(self.items@, #[trigger] s[w]) by {}
                    assert forall|q: int|
                        0 <= q < pre.items@.len() implies shrunk_into(
                        self.items@,
                        #[trigger] pre.items@[q],
                    ) by {
                        crate::list::lemma_shrunk_into_trans(s, self.items@, pre.items@[q]);
                    }
                }
                remaining = 0;
            } else {
                let got = self.delete_whole_item(i);
                proof {
                    assert(got == item_len);
                    assert(visible(s.skip(i as int)).skip(item_len as int) =~= t0.subrange(
                        pos + d + item_len,
                        n0,
                    ));
                    assert forall|w: int|
                        0 <= w < s.len() implies shrunk_into(self.items@, #[trigger] s[w]) by {}
                    assert forall|q: int|
                        0 <= q < pre.items@.len() implies shrunk_into(
                        self.items@,
                        #[trigger] pre.items@[q],
                    ) by {
                        crate::list::lemma_shrunk_into_trans(s, self.items@, pre.items@[q]);
                    }
                }
                remaining = remaining - item_len;
                i = i + 1;
            }
        }
        proof {
            lemma_visible_split(self.items@, i as int);
            if remaining > 0 {
                assert(self.items@.skip(self.items@.len() as int) =~= Seq::<Item>::empty());
                assert(visible(self.items@.skip(i as int)).len() == 0);
                assert(pos + len - remaining == n0);
            }
            assert(visible(self.items@) == t0.subrange(0, pos as int) + t0.subrange(
                pos + (if pos + len <= n0 {
                    len as int
                } else {
                    n0 - pos
                }),
                n0,
            ));
        }
        Ok(())
    }

    /// Materialise the visible text: a left-to-right walk from the head
    /// that skips tombstones and concatenates the rest.
    fn value(&self) -> (s: String) {
        let ghost items = self.items@;
        let mut out = String::new();
        let mut i: usize = 0;
        proof {
            assert(items.take(0) =~= Seq::<Item>::empty());
        }
        while i < self.items.len()
            invariant
                items == self.items@,
                i <= items.len(),
                out@ == visible(items.take(i as int)),
            decreases items.len() - i,
        {
            proof {
                lemma_visible_take_succ(items, i as int);
            }
            if !self.items[i].is_deleted {
                out.append(self.items[i].content.as_str());
            }
            i = i + 1;
        }
        proof {
            assert(items.take(items.len() as int) =~= items);
        }
        out
    }
}

} // verus!
