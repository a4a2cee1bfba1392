use vstd::prelude::*;

use crate::item::CrdtError;
use crate::state::StateVector;

verus! {

/// A replicated data type that exchanges its changes as updates.
///
/// `apply` must be idempotent and tolerant of re-delivery and of updates
/// whose dependencies have not arrived yet; `diff` computes the delta a peer
/// is missing from that peer's state vector; `state_vector` is the snapshot
/// handed to peers for that negotiation. The implementation for a document
/// strengthens these contracts with its exact postconditions.
pub trait Crdt: Sized {
    type Update;

    /// Internal well-formedness of the replica state.
    spec fn inv(&self) -> bool;

    /// Integrate a remote update into the local state.
    fn apply(&mut self, update: Self::Update)
        requires
            old(self).inv(),
        ensures
            final(self).inv(),
    ;

    /// The operations a peer with state vector `remote` has not seen.
    fn diff(&self, remote: &StateVector) -> Self::Update
        requires
            self.inv(),
    ;

    /// An independent snapshot of the local per-replica progress map.
    fn state_vector(&self) -> StateVector
        requires
            self.inv(),
    ;
}

/// A replicated character sequence, edited locally by position.
///
/// Positions count Unicode scalar values of the visible (non-tombstoned)
/// text, which the spec function `text` models as a sequence of characters.
pub trait SequenceCrdt: Sized {
    /// Internal well-formedness of the sequence state.
    spec fn inv(&self) -> bool;

    /// The visible text, as Unicode scalar values.
    spec fn text(&self) -> Seq<char>;

    /// Whether the identifier space still has room for inserting `content`
    /// (a machine limit: minting may not pass the clock's range).
    spec fn can_insert(&self, content: Seq<char>) -> bool;

    /// Whether the identifier space still has room for a deletion (which may
    /// split at both ends; a machine limit as for `can_insert`).
    spec fn can_delete(&self) -> bool;

    /// Insert `content` before the visible character at `pos`.
    ///
    /// Inserting at the current length appends; a position beyond that is
    /// rejected with `InvalidPosition` and leaves the state untouched.
    /// Empty content is a no-op.
    fn insert(&mut self, pos: usize, content: &str) -> (r: Result<(), CrdtError>)
        requires
            old(self).inv(),
            old(self).can_insert(content@),
        ensures
            final(self).inv(),
            content@.len() == 0 ==> r is Ok && *final(self) == *old(self),
            content@.len() > 0 && pos <= old(self).text().len() ==> {
                &&& r is Ok
                &&& final(self).text() == old(self).text().subrange(0, pos as int) + content@
                    + old(self).text().subrange(pos as int, old(self).text().len() as int)
            },
            content@.len() > 0 && pos > old(self).text().len() ==> r == Err::<(), CrdtError>(
                CrdtError::InvalidPosition,
            ) && *final(self) == *old(self),
    ;

    /// Delete up to `len` visible characters starting at `pos`.
    ///
    /// The length is truncated silently at the end of the text; the start
    /// position is not: beyond the current length it is rejected with
    /// `InvalidPosition`. A zero length is a no-op.
    fn delete(&mut self, pos: usize, len: usize) -> (r: Result<(), CrdtError>)
        requires
            old(self).inv(),
            old(self).can_delete(),
        ensures
            final(self).inv(),
            len == 0 ==> r is Ok && *final(self) == *old(self),
            len > 0 && pos <= old(self).text().len() ==> {
                &&& r is Ok
                &&& ({
                    let n = old(self).text().len() as int;
                    let k = if pos + len <= n {
                        len as int
                    } else {
                        n - pos
                    };
                    final(self).text() == old(self).text().subrange(0, pos as int) + old(
                        self,
                    ).text().subrange(pos + k, n)
                })
            },
            len > 0 && pos > old(self).text().len() ==> r == Err::<(), CrdtError>(
                CrdtError::InvalidPosition,
            ) && *final(self) == *old(self),
    ;

    /// The current visible text.
    fn value(&self) -> (s: String)
        requires
            self.inv(),
        ensures
            s@ == self.text(),
    ;
}

} // verus!
