use vstd::prelude::*;

verus! {

/// The first clock recorded for `client` among `entries`, if any.
pub open spec fn sv_lookup(entries: Seq<(u64, u64)>, client: u64) -> Option<u64>
    decreases entries.len(),
{
    if entries.len() == 0 {
        None::<u64>
    } else if entries[0].0 == client {
        Some(entries[0].1)
    } else {
        sv_lookup(entries.drop_first(), client)
    }
}

/// Per-replica progress snapshot: for each replica id, the highest clock this
/// document has integrated (or used itself) from that replica.
///
/// Used to negotiate synchronisation: a peer hands its state vector over, and
/// `diff` answers with exactly the items the peer has not seen.
#[derive(Debug)]
pub struct StateVector {
    pub entries: Vec<(u64, u64)>,
}

impl StateVector {
    /// The recorded progress as a partial map from replica id to clock.
    pub open spec fn spec_get(self, client: u64) -> Option<u64> {
        sv_lookup(self.entries@, client)
    }

    /// The recorded progress, with absent replicas at clock zero, as used by
    /// delta computation (an absent entry means nothing was integrated).
    pub open spec fn spec_get_or_zero(self, client: u64) -> u64 {
        match self.spec_get(client) {
            Some(c) => c,
            None => 0u64,
        }
    }

    /// An empty snapshot: no progress recorded for any replica.
    pub fn new() -> (r: StateVector)
        ensures
            forall|c: u64| r.spec_get(c) == None::<u64>,
            r.entries@.len() == 0,
    {
        StateVector { entries: Vec::new() }
    }

    /// The highest clock recorded for `client`, or `None` if nothing from
    /// that replica was integrated yet.
    pub fn get(&self, client: u64) -> (r: Option<u64>)
        ensures
            r == self.spec_get(client),
    {
        let mut i: usize = 0;
        proof {
            assert(self.entries@.skip(0) =~= self.entries@);
        }
        while i < self.entries.len()
            invariant
                i <= self.entries@.len(),
                sv_lookup(self.entries@, client) == sv_lookup(self.entries@.skip(i as int), client),
            decreases self.entries@.len() - i,
        {
            proof {
                assert(self.entries@.skip(i as int)[0] == self.entries@[i as int]);
                assert(self.entries@.skip(i as int).drop_first() =~= self.entries@.skip(i + 1));
            }
            if self.entries[i].0 == client {
                return Some(self.entries[i].1);
            }
            i = i + 1;
        }
        proof {
            assert(self.entries@.skip(i as int).len() == 0);
        }
        None
    }

    /// The highest clock recorded for `client`, or zero.
    pub fn get_or_zero(&self, client: u64) -> (r: u64)
        ensures
            r == self.spec_get_or_zero(client),
    {
        match self.get(client) {
            Some(c) => c,
            None => 0,
        }
    }

    /// Records that everything of `client` up to and including `clock` was
    /// seen, keeping any higher clock already recorded.
    pub fn observe(&mut self, client: u64, clock: u64)
        ensures
            final(self).spec_get(client) == Some(
                if old(self).spec_get_or_zero(client) >= clock {
                    old(self).spec_get_or_zero(client)
                } else {
                    clock
                },
            ),
            forall|c: u64| c != client ==> final(self).spec_get(c) == old(self).spec_get(c),
    {
        let mut i: usize = 0;
        while i < self.entries.len()
            invariant
                i <= self.entries@.len(),
                self.entries@ == old(self).entries@,
                forall|j: int| 0 <= j < i ==> (#[trigger] self.entries@[j]).0 != client,
            decreases self.entries@.len() - i,
        {
            if self.entries[i].0 == client {
                let prev = self.entries[i].1;
                let next = if prev >= clock {
                    prev
                } else {
                    clock
                };
                proof {
                    lemma_sv_lookup_first(self.entries@, i as int, client);
                }
                let r = vstd::std_specs::vec::vec_index_mut(&mut self.entries, i);
                *r = (client, next);
                proof {
                    let entries0 = old(self).entries@;
                    let entries1 = self.entries@;
                    assert(entries1 =~= entries0.update(i as int, (client, next)));
                    lemma_sv_lookup_update(entries0, i as int, client, next);
                    assert forall|c: u64| c != client implies sv_lookup(entries1, c) == sv_lookup(
                        entries0,
                        c,
                    ) by {
                        lemma_sv_lookup_update_other(entries0, i as int, (client, next), c);
                    }
                }
                return ;
            }
            i = i + 1;
        }
        let ghost entries0 = self.entries@;
        self.entries.push((client, clock));
        proof {
            assert(sv_lookup(entries0, client) == None::<u64>) by {
                lemma_sv_lookup_none(entries0, client);
            }
            assert forall|c: u64| true implies sv_lookup(self.entries@, c) == (if c == client {
                Some(clock)
            } else {
                sv_lookup(entries0, c)
            }) by {
                lemma_sv_lookup_push(entries0, client, clock, c);
            }
        }
    }

    /// An independent copy of the snapshot.
    pub fn duplicate(&self) -> (r: StateVector)
        ensures
            r.entries@ == self.entries@,
            forall|c: u64| #[trigger] r.spec_get(c) == self.spec_get(c),
    {
        let mut entries: Vec<(u64, u64)> = Vec::new();
        let mut i: usize = 0;
        while i < self.entries.len()
            invariant
                i <= self.entries@.len(),
                entries@ == self.entries@.take(i as int),
            decreases self.entries@.len() - i,
        {
            entries.push(self.entries[i]);
            proof {
                assert(entries@ =~= self.entries@.take(i + 1));
            }
            i = i + 1;
        }
        proof {
            assert(entries@ =~= self.entries@);
        }
        StateVector { entries }
    }
}

proof fn lemma_sv_lookup_update(entries: Seq<(u64, u64)>, i: int, client: u64, v: u64)
    requires
        0 <= i < entries.len(),
        entries[i].0 == client,
        forall|j: int| 0 <= j < i ==> (#[trigger] entries[j]).0 != client,
    ensures
        sv_lookup(entries.update(i, (client, v)), client) == Some(v),
    decreases entries.len(),
{
    if i == 0 {
        assert(entries.update(i, (client, v))[0] == (client, v));
    } else {
        assert(entries.update(i, (client, v)).drop_first() =~= entries.drop_first().update(
            i - 1,
            (client, v),
        ));
        lemma_sv_lookup_update(entries.drop_first(), i - 1, client, v);
    }
}

proof fn lemma_sv_lookup_update_other(entries: Seq<(u64, u64)>, i: int, v: (u64, u64), c: u64)
    requires
        0 <= i < entries.len(),
        entries[i].0 == v.0,
        c != v.0,
    ensures
        sv_lookup(entries.update(i, v), c) == sv_lookup(entries, c),
    decreases entries.len(),
{
    if i == 0 {
        assert(entries.update(i, v)[0] == v);
        assert(entries.update(i, v).drop_first() =~= entries.drop_first());
    } else {
        assert(entries.update(i, v).drop_first() =~= entries.drop_first().update(i - 1, v));
        lemma_sv_lookup_update_other(entries.drop_first(), i - 1, v, c);
    }
}

proof fn lemma_sv_lookup_first(entries: Seq<(u64, u64)>, i: int, client: u64)
    requires
        0 <= i < entries.len(),
        entries[i].0 == client,
        forall|j: int| 0 <= j < i ==> (#[trigger] entries[j]).0 != client,
    ensures
        sv_lookup(entries, client) == Some(entries[i].1),
    decreases entries.len(),
{
    if i > 0 {
        lemma_sv_lookup_first(entries.drop_first(), i - 1, client);
    }
}

proof fn lemma_sv_lookup_none(entries: Seq<(u64, u64)>, client: u64)
    requires
        forall|j: int| 0 <= j < entries.len() ==> (#[trigger] entries[j]).0 != client,
    ensures
        sv_lookup(entries, client) == None::<u64>,
    decreases entries.len(),
{
    if entries.len() > 0 {
        lemma_sv_lookup_none(entries.drop_first(), client);
    }
}

proof fn lemma_sv_lookup_push(entries: Seq<(u64, u64)>, client: u64, clock: u64, c: u64)
    requires
        sv_lookup(entries, client) == None::<u64>,
    ensures
        c == client ==> sv_lookup(entries.push((client, clock)), c) == Some(clock),
        c != client ==> sv_lookup(entries.push((client, clock)), c) == sv_lookup(entries, c),
    decreases entries.len(),
{
    if entries.len() == 0 {
        assert(entries.push((client, clock))[0] == (client, clock));
        assert(entries.push((client, clock)).drop_first() =~= entries);
    } else {
        assert(entries.push((client, clock)).drop_first() =~= entries.drop_first().push(
            (client, clock),
        ));
        lemma_sv_lookup_push(entries.drop_first(), client, clock, c);
    }
}

} // verus!
