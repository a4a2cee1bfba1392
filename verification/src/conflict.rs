use core::cmp::Ordering;
use vstd::prelude::*;

use crate::item::Item;

verus! {

/// Deterministic tie-break policy for insertions that are concurrent
/// candidates for the same anchor position.
///
/// The decision is fixed by the spec function `spec_resolve`, so the same
/// pair always resolves the same way, independent of delivery order or
/// process (stability), and a decision exists for every pair (totality).
/// `ctx` is the current item store in list order, for strategies that compare
/// origin chains rather than raw identifiers.
pub trait ConflictResolver: Sized {
    /// The order this strategy decides for `a` and `b`, given the store `ctx`.
    spec fn spec_resolve(&self, a: Item, b: Item, ctx: Seq<Item>) -> Ordering;

    /// The decision is antisymmetric: whenever the pair's identifiers differ,
    /// `a` before `b` holds exactly when `b` after `a` does.
    proof fn resolve_antisymmetric(&self, a: Item, b: Item, ctx: Seq<Item>)
        requires
            a.id != b.id,
        ensures
            self.spec_resolve(a, b, ctx) is Less <==> self.spec_resolve(b, a, ctx) is Greater,
    ;

    /// Decide the order of two concurrent candidates for one anchor.
    fn resolve(&self, a: &Item, b: &Item, ctx: &Vec<Item>) -> (r: Ordering)
        ensures
            r == self.spec_resolve(*a, *b, ctx@),
    ;
}

/// The baseline strategy: order concurrent candidates purely by identifier,
/// replica id first, then clock. Simple, deterministic, and a conformant
/// (if minimal) member of the strategy contract.
#[derive(Clone, Copy, Debug)]
pub struct YataResolver;

impl ConflictResolver for YataResolver {
    open spec fn spec_resolve(&self, a: Item, b: Item, ctx: Seq<Item>) -> Ordering {
        if a.id.spec_lt(b.id) {
            Ordering::Less
        } else if b.id.spec_lt(a.id) {
            Ordering::Greater
        } else {
            Ordering::Equal
        }
    }

    proof fn resolve_antisymmetric(&self, a: Item, b: Item, ctx: Seq<Item>) {
    }

    fn resolve(&self, a: &Item, b: &Item, ctx: &Vec<Item>) -> (r: Ordering) {
        a.id.compare(&b.id)
    }
}

} // verus!
