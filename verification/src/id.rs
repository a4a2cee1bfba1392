use vstd::prelude::*;

verus! {

/// Globally unique, totally ordered label for a contiguous run of characters
/// created by one replica in one local edit.
///
/// Identifiers are ordered lexicographically by `(client, clock)`; this order
/// is the tie-break substrate for deterministic conflict resolution. A replica
/// mints identifiers from its own monotonically increasing clock, so global
/// uniqueness follows from uniqueness of the pair.
#[derive(Clone, Copy, Debug, PartialEq, Eq, Hash, Structural)]
pub struct ID {
    pub client: u64,
    pub clock: u64,
}

impl ID {
    /// Strict lexicographic order on `(client, clock)`.
    pub open spec fn spec_lt(self, other: ID) -> bool {
        self.client < other.client || (self.client == other.client && self.clock < other.clock)
    }

    /// Three-way comparison agreeing with `spec_lt`.
    pub fn compare(&self, other: &ID) -> (r: core::cmp::Ordering)
        ensures
            r is Less <==> self.spec_lt(*other),
            r is Greater <==> other.spec_lt(*self),
            r is Equal <==> *self == *other,
    {
        if self.client < other.client {
            core::cmp::Ordering::Less
        } else if self.client > other.client {
            core::cmp::Ordering::Greater
        } else if self.clock < other.clock {
            core::cmp::Ordering::Less
        } else if self.clock > other.clock {
            core::cmp::Ordering::Greater
        } else {
            core::cmp::Ordering::Equal
        }
    }
}

/// The lexicographic order on identifiers is total: of two distinct
/// identifiers, exactly one precedes the other.
pub proof fn lemma_id_order_total(a: ID, b: ID)
    ensures
        a == b || (a.spec_lt(b) <==> !b.spec_lt(a)),
        !(a.spec_lt(b) && b.spec_lt(a)),
{
}

/// The lexicographic order on identifiers is transitive.
pub proof fn lemma_id_order_transitive(a: ID, b: ID, c: ID)
    requires
        a.spec_lt(b),
        b.spec_lt(c),
    ensures
        a.spec_lt(c),
{
}

} // verus!
