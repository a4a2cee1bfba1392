use vstd::prelude::*;

use crate::id::ID;

verus! {

/// A run of characters created atomically by one operation, kept as a node of
/// the tombstoned doubly linked list.
///
/// `left` and `right` are non-owning references into the document's item
/// store. For an item in a store they name the current neighbours; on the
/// wire they name the anchors the operation was created between. A deleted
/// item is retained as a tombstone (`is_deleted`), never removed, so that
/// identifiers referenced by in-flight operations stay resolvable.
#[derive(Clone, Debug, PartialEq)]
pub struct Item {
    pub id: ID,
    pub left: Option<ID>,
    pub right: Option<ID>,
    pub content: String,
    pub is_deleted: bool,
}

impl Item {
    /// The characters this item contributes to the visible text: none while
    /// it is tombstoned, its whole content otherwise.
    pub open spec fn vis(self) -> Seq<char> {
        if self.is_deleted {
            Seq::<char>::empty()
        } else {
            self.content@
        }
    }

    /// Character count of the run, in Unicode scalar values.
    pub open spec fn len(self) -> nat {
        self.content@.len()
    }
}

/// An update item the integration cannot place: an empty run (runs are
/// created non-empty and only ever shrink by splitting), or one whose clock
/// range would pass the end of the identifier space. Such an item can only
/// come from a corrupted stream; integration ignores it.
pub open spec fn item_degenerate(it: Item) -> bool {
    it.len() == 0 || it.id.clock + it.len() > u64::MAX
}

/// The anchors an item was created between, recorded once and never
/// rewritten.
///
/// The `left`/`right` fields of a stored item are current neighbour
/// pointers and change as later items splice in beside it; the anchors an
/// operation was created between do not. Updates travel with these creation
/// anchors: an anchor always names an item that existed before the
/// operation, so the dependencies of a delivery are never circular, while
/// the current pointers of one contiguous run reference each other in both
/// directions and would deadlock a delivery that waits on them.
#[derive(Clone, Copy, Debug, PartialEq, Eq)]
pub struct Origin {
    pub id: ID,
    pub left: Option<ID>,
    pub right: Option<ID>,
}

/// The first origin recorded for `id` among `entries`, if any.
pub open spec fn origin_lookup(entries: Seq<Origin>, id: ID) -> Option<Origin>
    decreases entries.len(),
{
    if entries.len() == 0 {
        None::<Origin>
    } else if entries[0].id == id {
        Some(entries[0])
    } else {
        origin_lookup(entries.drop_first(), id)
    }
}

/// Appending an origin entry leaves every earlier identifier's first entry
/// where it was, and gives the appended identifier an entry.
pub proof fn lemma_origin_lookup_push(entries: Seq<Origin>, o: Origin, id: ID)
    ensures
        origin_lookup(entries, id) is Some ==> origin_lookup(entries.push(o), id)
            == origin_lookup(entries, id),
        id == o.id ==> origin_lookup(entries.push(o), id) is Some,
    decreases entries.len(),
{
    if entries.len() == 0 {
        assert(entries.push(o)[0] == o);
        assert(entries.push(o).drop_first() =~= entries);
    } else {
        assert(entries.push(o)[0] == entries[0]);
        assert(entries.push(o).drop_first() =~= entries.drop_first().push(o));
        lemma_origin_lookup_push(entries.drop_first(), o, id);
    }
}

/// Error raised by the local edit operations.
#[derive(Clone, Copy, Debug, PartialEq, Eq, Structural)]
pub enum CrdtError {
    /// The start offset of an edit lies beyond the visible text.
    InvalidPosition,
}

} // verus!
