use vstd::prelude::*;

use crate::conflict::{ConflictResolver, YataResolver};
use crate::doc::Doc;
use crate::id::{lemma_id_order_total, lemma_id_order_transitive, ID};
use crate::integrate::{
    apply_post, diff_post, link_place, link_range, peer_missing, pending_quiet, scan_place,
    update_known, wire_item,
};
use crate::item::{item_degenerate, Item};
use crate::list::{
    contains_id, idx_of, lemma_contains_id_insert, lemma_contains_id_relink, lemma_idx_of,
    lemma_relink_congruent, lemma_relink_core, relink, same_core,
};
use crate::state::StateVector;

verus! {

/// Idempotence of integration: applying the same update twice yields the
/// same state as applying it once.
///
/// `apply_post` is the exact postcondition of `apply`. After a first
/// application every item of the update is accounted for, so a second
/// application of the same update finds the whole update already known and
/// changes nothing: the state after the second application equals the state
/// after the first.
pub proof fn lemma_apply_idempotent<R: ConflictResolver>(
    d0: Doc<R>,
    u: Seq<Item>,
    d1: Doc<R>,
    d2: Doc<R>,
)
    requires
        apply_post(d0, u, d1),
        apply_post(d1, u, d2),
    ensures
        d2 == d1,
{
    assert(update_known(d1, u));
    assert(pending_quiet(d1));
}

/// What `scan_place` finds: everything before the found index the strategy
/// refused to order the item before, and at the found index (if it lies
/// inside the range) it ordered the item first.
proof fn lemma_scan_props<R: ConflictResolver>(d: Doc<R>, item: Item, a: int, b: int)
    requires
        a <= b,
    ensures
        a <= scan_place(d, item, a, b) <= b,
        forall|q: int|
            a <= q < scan_place(d, item, a, b) ==> !((#[trigger] d.resolver.spec_resolve(
                item,
                d.items@[q],
                d.items@,
            )) is Less),
        scan_place(d, item, a, b) < b ==> d.resolver.spec_resolve(
            item,
            d.items@[scan_place(d, item, a, b)],
            d.items@,
        ) is Less,
    decreases b - a,
{
    if a < b && !(d.resolver.spec_resolve(item, d.items@[a], d.items@) is Less) {
        lemma_scan_props(d, item, a + 1, b);
    }
}

/// The converse: an index with exactly those properties is the one
/// `scan_place` finds.
proof fn lemma_scan_is<R: ConflictResolver>(d: Doc<R>, item: Item, a: int, b: int, k: int)
    requires
        a <= k <= b,
        forall|q: int|
            a <= q < k ==> !((#[trigger] d.resolver.spec_resolve(
                item,
                d.items@[q],
                d.items@,
            )) is Less),
        k < b ==> d.resolver.spec_resolve(item, d.items@[k], d.items@) is Less,
    ensures
        scan_place(d, item, a, b) == k,
    decreases k - a,
{
    if a < k {
        assert(!(d.resolver.spec_resolve(item, d.items@[a], d.items@) is Less));
        lemma_scan_is(d, item, a + 1, b, k);
    }
}

/// The anchor pair of a wire item, as a document state produces it: each
/// anchor that exists is present in the store, neither anchor names one of
/// the two concurrent items themselves, and the right anchor stands after
/// the left one.
pub open spec fn anchors_coherent(s: Seq<Item>, it: Item, other: ID) -> bool {
    &&& match it.left {
        Some(l) => contains_id(s, l),
        None => true,
    }
    &&& match it.right {
        Some(rt) => contains_id(s, rt) && rt != it.id && rt != other,
        None => true,
    }
    &&& match (it.left, it.right) {
        (Some(l), Some(rt)) => idx_of(s, l) < idx_of(s, rt),
        _ => true,
    }
}

/// Splicing a fresh item inside the candidate range leaves the range of an
/// item with the same anchors starting where it did, one place longer.
proof fn lemma_insert_keeps_range(
    d0: Doc<YataResolver>,
    v: Item,
    z: Item,
    d1: Doc<YataResolver>,
    p: int,
)
    requires
        crate::list::ids_unique(d0.items@),
        anchors_coherent(d0.items@, z, v.id),
        !contains_id(d0.items@, v.id),
        d1.items@ == relink(d0.items@.insert(p, v)),
        link_range(d0, z).0 <= p <= link_range(d0, z).1,
    ensures
        link_range(d1, z) == (link_range(d0, z).0, link_range(d0, z).1 + 1),
{
    let s0 = d0.items@;
    let n0 = s0.len() as int;
    let u = s0.insert(p, v);
    lemma_relink_core(u);
    let a0: int = match z.left {
        Some(l) => idx_of(s0, l) + 1,
        None => 0,
    };
    let rb: int = match z.right {
        Some(rt) => if contains_id(s0, rt) {
            idx_of(s0, rt)
        } else {
            n0
        },
        None => n0,
    };
    assert(0 <= a0 && a0 <= rb <= n0) by {
        if z.left is Some {
            let l = z.left->0;
            let w = idx_of(s0, l);
            assert(0 <= w < s0.len() && s0[w].id == l);
        }
        if z.right is Some && contains_id(s0, z.right->0) {
            let w = idx_of(s0, z.right->0);
            assert(0 <= w < s0.len() && s0[w].id == z.right->0);
        }
    }
    assert(link_range(d0, z) == (a0, rb));
    crate::list::lemma_ids_unique_insert(s0, p, v);
    crate::list::lemma_relink_payloads(u);
    if z.left is Some {
        let l = z.left->0;
        let w = idx_of(s0, l);
        assert(same_core(d1.items@[w], u[w]) && u[w] == s0[w]);
        lemma_idx_of(d1.items@, w);
    }
    if z.right is Some {
        let rt = z.right->0;
        if contains_id(s0, rt) {
            assert(same_core(d1.items@[rb + 1], u[rb + 1]) && u[rb + 1] == s0[rb]);
            lemma_idx_of(d1.items@, rb + 1);
        } else {
            assert(!contains_id(d1.items@, rt)) by {
                lemma_contains_id_relink(u, rt);
                lemma_contains_id_insert(s0, p, v, rt);
            }
        }
    }
    assert(link_range(d1, z) == (a0, rb + 1));
}

/// Inserting `x` at `px` and then `y` one past `py`, or `y` at `py` and
/// then `x` at `px`, builds the same list (up to the rewritten pointers)
/// whenever `px` does not pass `py`.
proof fn lemma_double_insert_eq(s0: Seq<Item>, x: Item, y: Item, px: int, py: int)
    requires
        0 <= px <= py <= s0.len(),
    ensures
        relink(relink(s0.insert(px, x)).insert(py + 1, y)) == relink(
            relink(s0.insert(py, y)).insert(px, x),
        ),
{
    let u1 = s0.insert(px, x);
    let u2 = s0.insert(py, y);
    lemma_relink_core(u1);
    lemma_relink_core(u2);
    let f1 = relink(u1).insert(py + 1, y);
    let f2 = relink(u2).insert(px, x);
    let c1 = u1.insert(py + 1, y);
    let c2 = u2.insert(px, x);
    assert forall|i: int| 0 <= i < f1.len() implies same_core(#[trigger] f1[i], c1[i]) by {
        if i < py + 1 {
            assert(f1[i] == relink(u1)[i] && c1[i] == u1[i]);
        } else if i == py + 1 {
        } else {
            assert(f1[i] == relink(u1)[i - 1] && c1[i] == u1[i - 1]);
        }
    }
    assert forall|i: int| 0 <= i < f2.len() implies same_core(#[trigger] f2[i], c2[i]) by {
        if i < px {
            assert(f2[i] == relink(u2)[i] && c2[i] == u2[i]);
        } else if i == px {
        } else {
            assert(f2[i] == relink(u2)[i - 1] && c2[i] == u2[i - 1]);
        }
    }
    lemma_relink_congruent(f1, c1);
    lemma_relink_congruent(f2, c2);
    assert forall|i: int| 0 <= i < c1.len() implies c1[i] == c2[i] by {
        if i < px {
        } else if i == px {
        } else if i <= py {
        } else if i == py + 1 {
        } else {
        }
    }
    assert(c1 =~= c2);
}

/// The ordered case of the commutation argument: with `x` preceding `y` in
/// identifier order and both sharing one anchor pair, integrating `x` then
/// `y` splices them at places that yield the same list as integrating `y`
/// then `x`.
#[verifier::rlimit(100)]
proof fn lemma_anchored_commute_ordered(
    d0: Doc<YataResolver>,
    x: Item,
    y: Item,
    d1: Doc<YataResolver>,
    e1: Doc<YataResolver>,
)
    requires
        x.id.spec_lt(y.id),
        x.left == y.left,
        x.right == y.right,
        anchors_coherent(d0.items@, x, y.id),
        crate::list::ids_unique(d0.items@),
        !contains_id(d0.items@, x.id),
        !contains_id(d0.items@, y.id),
        d1.items@ == relink(d0.items@.insert(link_place(d0, x), x)),
        d1.resolver == d0.resolver,
        e1.items@ == relink(d0.items@.insert(link_place(d0, y), y)),
        e1.resolver == d0.resolver,
    ensures
        relink(d1.items@.insert(link_place(d1, y), y)) == relink(
            e1.items@.insert(link_place(e1, x), x),
        ),
{
    let s0 = d0.items@;
    let n0 = s0.len() as int;
    // the shared candidate range in the starting list
    let a0 = link_range(d0, x).0;
    let rb = link_range(d0, x).1;
    assert(0 <= a0 <= rb <= n0) by {
        if x.left is Some {
            let l = x.left->0;
            let w = idx_of(s0, l);
            assert(0 <= w < s0.len() && s0[w].id == l);
        }
        if x.right is Some && contains_id(s0, x.right->0) {
            let w = idx_of(s0, x.right->0);
            assert(0 <= w < s0.len() && s0[w].id == x.right->0);
        }
    }
    assert(link_range(d0, y) == (a0, rb));
    let px = link_place(d0, x);
    let py = link_place(d0, y);
    lemma_scan_props(d0, x, a0, rb);
    lemma_scan_props(d0, y, a0, rb);
    // the strategy orders x before y, so x's place comes no later than y's
    assert(px <= py) by {
        if px > py {
            assert(py < rb);
            assert(d0.resolver.spec_resolve(y, s0[py], s0) is Less);
            assert(y.id.spec_lt(s0[py].id));
            lemma_id_order_transitive(x.id, y.id, s0[py].id);
            assert(!(d0.resolver.spec_resolve(x, s0[py], s0) is Less));
        }
    }
    let u1 = s0.insert(px, x);
    let u2 = s0.insert(py, y);
    lemma_relink_core(u1);
    lemma_relink_core(u2);
    assert(d1.items@.len() == n0 + 1);
    assert(e1.items@.len() == n0 + 1);
    // in both one-item-richer lists the candidate range keeps its start and
    // grows by one at its end
    lemma_insert_keeps_range(d0, x, y, d1, px);
    lemma_insert_keeps_range(d0, y, x, e1, py);
    assert(link_range(d1, y) == (a0, rb + 1));
    assert(link_range(e1, x) == (a0, rb + 1));
    // in the list holding x, y's place is one past where it was
    assert forall|q: int|
        a0 <= q < py + 1 implies !((#[trigger] d1.resolver.spec_resolve(
        y,
        d1.items@[q],
        d1.items@,
    )) is Less) by {
        if q < px {
            assert(same_core(d1.items@[q], s0[q]));
            assert(!(d0.resolver.spec_resolve(y, s0[q], s0) is Less));
        } else if q == px {
            assert(same_core(d1.items@[q], x));
            lemma_id_order_total(x.id, y.id);
        } else {
            assert(same_core(d1.items@[q], s0[q - 1]));
            assert(!(d0.resolver.spec_resolve(y, s0[q - 1], s0) is Less));
        }
    }
    if py < rb {
        assert(same_core(d1.items@[py + 1], s0[py]));
        assert(d0.resolver.spec_resolve(y, s0[py], s0) is Less);
        assert(d1.resolver.spec_resolve(y, d1.items@[py + 1], d1.items@) is Less);
    }
    lemma_scan_is(d1, y, a0, rb + 1, py + 1);
    assert(link_place(d1, y) == py + 1);
    // in the list holding y, x's place is unchanged
    assert forall|q: int|
        a0 <= q < px implies !((#[trigger] e1.resolver.spec_resolve(
        x,
        e1.items@[q],
        e1.items@,
    )) is Less) by {
        assert(same_core(e1.items@[q], s0[q]));
        assert(!(d0.resolver.spec_resolve(x, s0[q], s0) is Less));
    }
    if px < py {
        assert(same_core(e1.items@[px], s0[px]));
        assert(d0.resolver.spec_resolve(x, s0[px], s0) is Less);
    } else {
        assert(px == py);
        assert(same_core(e1.items@[px], y));
    }
    lemma_scan_is(e1, x, a0, rb + 1, px);
    assert(link_place(e1, x) == px);
    // both orders build the same list
    lemma_double_insert_eq(s0, x, y, px, py);
}

/// Commutativity of concurrent insertions at the same anchor (baseline
/// strategy): two single-item updates that were both created between the
/// same pair of neighbours, neither yet known to a well-formed document
/// whose pending buffer is empty, integrate to the same item list — and so
/// the same visible text — whichever arrives first.
pub proof fn lemma_concurrent_inserts_commute(
    d0: Doc<YataResolver>,
    x: Item,
    y: Item,
    d1: Doc<YataResolver>,
    d2: Doc<YataResolver>,
    e1: Doc<YataResolver>,
    e2: Doc<YataResolver>,
)
    requires
        d0.wf(),
        d0.pending@.len() == 0,
        x.id != y.id,
        !item_degenerate(x),
        !item_degenerate(y),
        x.left == y.left,
        x.right == y.right,
        anchors_coherent(d0.items@, x, y.id),
        !d0.knows(x.id),
        !d0.knows(y.id),
        apply_post(d0, seq![x], d1),
        apply_post(d1, seq![y], d2),
        apply_post(d0, seq![y], e1),
        apply_post(e1, seq![x], e2),
    ensures
        d2.items@ == e2.items@,
        d2.text() == e2.text(),
{
    let s0 = d0.items@;
    let n0 = s0.len() as int;
    let px = link_place(d0, x);
    let py = link_place(d0, y);
    let a0: int = match x.left {
        Some(l) => idx_of(s0, l) + 1,
        None => 0,
    };
    let rb: int = match x.right {
        Some(rt) => if contains_id(s0, rt) {
            idx_of(s0, rt)
        } else {
            n0
        },
        None => n0,
    };
    assert(0 <= a0 <= rb <= n0) by {
        if x.left is Some {
            let l = x.left->0;
            let w = idx_of(s0, l);
            assert(0 <= w < s0.len() && s0[w].id == l);
        }
        if x.right is Some && contains_id(s0, x.right->0) {
            let w = idx_of(s0, x.right->0);
            assert(0 <= w < s0.len() && s0[w].id == x.right->0);
        }
    }
    assert(link_range(d0, x) == (a0, rb));
    assert(link_range(d0, y) == (a0, rb));
    lemma_scan_props(d0, x, a0, rb);
    lemma_scan_props(d0, y, a0, rb);
    assert(d0.deps_present(x) && d0.deps_present(y));
    assert(d1.items@ == relink(s0.insert(px, x)) && d1.pending == d0.pending);
    assert(e1.items@ == relink(s0.insert(py, y)) && e1.pending == d0.pending);
    // after the first integration the other item is still unknown, and its
    // blocking anchor is still there
    assert(!d1.knows(y.id)) by {
        lemma_contains_id_relink(s0.insert(px, x), y.id);
        lemma_contains_id_insert(s0, px, x, y.id);
    }
    assert(!e1.knows(x.id)) by {
        lemma_contains_id_relink(s0.insert(py, y), x.id);
        lemma_contains_id_insert(s0, py, y, x.id);
    }
    assert(d1.deps_present(y) && e1.deps_present(x)) by {
        if y.left is Some {
            let l = y.left->0;
            lemma_contains_id_relink(s0.insert(px, x), l);
            lemma_contains_id_insert(s0, px, x, l);
            lemma_contains_id_relink(s0.insert(py, y), l);
            lemma_contains_id_insert(s0, py, y, l);
        }
        if y.right is Some {
            let rt = y.right->0;
            lemma_contains_id_relink(s0.insert(px, x), rt);
            lemma_contains_id_insert(s0, px, x, rt);
            lemma_contains_id_relink(s0.insert(py, y), rt);
            lemma_contains_id_insert(s0, py, y, rt);
        }
    }
    assert(d2.items@ == relink(d1.items@.insert(link_place(d1, y), y)));
    assert(e2.items@ == relink(e1.items@.insert(link_place(e1, x), x)));
    lemma_id_order_total(x.id, y.id);
    if x.id.spec_lt(y.id) {
        lemma_anchored_commute_ordered(d0, x, y, d1, e1);
    } else {
        lemma_anchored_commute_ordered(d0, y, x, e1, d1);
    }
}

/// Re-delivery tolerance: an update the document has already wholly seen
/// (integrated or buffered) never changes the state of a document whose
/// pending buffer is at its fixed point — as it is after every `apply`.
pub proof fn lemma_apply_known_is_noop<R: ConflictResolver>(d0: Doc<R>, u: Seq<Item>, d1: Doc<R>)
    requires
        apply_post(d0, u, d1),
        update_known(d0, u),
        pending_quiet(d0),
    ensures
        d1 == d0,
{
}

/// Round-trip of splits: concatenating the two parts of a split in list
/// order restores the original item's content, and neither the visible nor
/// the full text of the document changes, for any offset strictly inside
/// the item.
pub proof fn lemma_split_round_trip<R: ConflictResolver>(
    pre: Doc<R>,
    item_id: ID,
    offset: nat,
    post: Doc<R>,
    new_id: ID,
)
    requires
        pre.split_post(item_id, offset, post, new_id),
    ensures
        ({
            let j = idx_of(pre.items@, item_id);
            post.items@[j].content@ + post.items@[j + 1].content@ == pre.items@[j].content@
        }),
        post.text() == pre.text(),
        post.full_text() == pre.full_text(),
{
}

/// Minimality of deltas: a peer that is missing nothing receives nothing.
pub proof fn lemma_diff_empty_for_current_peer<R: ConflictResolver>(
    d: Doc<R>,
    remote: StateVector,
    r: Seq<Item>,
)
    requires
        diff_post(d, remote, r),
        forall|i: int| 0 <= i < d.items@.len() ==> !peer_missing(remote, #[trigger] d.items@[i]),
    ensures
        r.len() == 0,
{
    if r.len() > 0 {
        assert(wire_item(d, r[0]));
        crate::integrate::lemma_wire_item_id(d, d.items@.len() as int, r[0]);
        assert(d.items@.take(d.items@.len() as int) =~= d.items@);
        let i = choose|i: int| 0 <= i < d.items@.len() && d.items@[i].id == r[0].id;
        assert(contains_id(r, d.items@[i].id)) by {
            assert(r[0].id == d.items@[i].id);
        }
        assert(peer_missing(remote, d.items@[i]));
    }
}

/// Deltas against the document's own snapshot are empty: the state vector
/// covers every run the document stores.
pub proof fn lemma_diff_to_self_is_empty<R: ConflictResolver>(
    d: Doc<R>,
    snapshot: StateVector,
    r: Seq<Item>,
)
    requires
        d.wf(),
        forall|c: u64| #[trigger] snapshot.spec_get(c) == d.state_vector.spec_get(c),
        diff_post(d, snapshot, r),
    ensures
        r.len() == 0,
{
    assert forall|i: int|
        0 <= i < d.items@.len() implies !peer_missing(snapshot, #[trigger] d.items@[i]) by {
        assert(snapshot.spec_get(d.items@[i].id.client) == d.state_vector.spec_get(
            d.items@[i].id.client,
        ));
        assert(d.items@[i].len() >= 1);
    }
    lemma_diff_empty_for_current_peer(d, snapshot, r);
}

} // verus!
