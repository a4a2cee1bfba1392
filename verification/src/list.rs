use vstd::prelude::*;

use crate::id::ID;
use crate::item::Item;

verus! {

/// No two items of the sequence carry the same identifier.
pub open spec fn ids_unique(s: Seq<Item>) -> bool {
    forall|i: int, j: int| 0 <= i < j < s.len() ==> s[i].id != s[j].id
}

/// Every item's neighbour pointers name exactly the adjacent items: the
/// sequence is the doubly linked list, written out from the head rightwards.
pub open spec fn linked(s: Seq<Item>) -> bool {
    &&& (forall|i: int|
        0 <= i < s.len() ==> (#[trigger] s[i].left) == (if i == 0 {
            None::<ID>
        } else {
            Some(s[i - 1].id)
        }))
    &&& (forall|i: int|
        0 <= i < s.len() ==> (#[trigger] s[i].right) == (if i == s.len() - 1 {
            None::<ID>
        } else {
            Some(s[i + 1].id)
        }))
}

/// The visible text of the list: the contents of the non-deleted items,
/// concatenated in list order.
pub open spec fn visible(s: Seq<Item>) -> Seq<char>
    decreases s.len(),
{
    if s.len() == 0 {
        Seq::<char>::empty()
    } else {
        visible(s.drop_last()) + s.last().vis()
    }
}

/// The full text of the list, tombstones included: every item's content,
/// concatenated in list order.
pub open spec fn all_text(s: Seq<Item>) -> Seq<char>
    decreases s.len(),
{
    if s.len() == 0 {
        Seq::<char>::empty()
    } else {
        all_text(s.drop_last()) + s.last().content@
    }
}

/// Whether some item of the sequence carries the given identifier.
pub open spec fn contains_id(s: Seq<Item>, id: ID) -> bool {
    exists|i: int| 0 <= i < s.len() && s[i].id == id
}

/// The index of the item carrying the given identifier (unique when
/// `ids_unique` holds).
pub open spec fn idx_of(s: Seq<Item>, id: ID) -> int {
    choose|i: int| 0 <= i < s.len() && s[i].id == id
}

/// The identifier of the last non-deleted item strictly before index `j`,
/// or `None` if every earlier item is a tombstone.
pub open spec fn last_vis_before(s: Seq<Item>, j: int) -> Option<ID>
    decreases j,
{
    if j <= 0 {
        None::<ID>
    } else if !s[j - 1].is_deleted {
        Some(s[j - 1].id)
    } else {
        last_vis_before(s, j - 1)
    }
}

/// The items of the sequence with every neighbour pointer rewritten to name
/// the actual adjacent items. Payloads (identifier, content, tombstone flag)
/// are untouched.
pub open spec fn relink(s: Seq<Item>) -> Seq<Item> {
    Seq::new(
        s.len(),
        |i: int|
            Item {
                left: if i == 0 {
                    None::<ID>
                } else {
                    Some(s[i - 1].id)
                },
                right: if i == s.len() - 1 {
                    None::<ID>
                } else {
                    Some(s[i + 1].id)
                },
                ..s[i]
            },
    )
}

/// Two items that agree on everything the texts depend on.
pub open spec fn same_payload(a: Item, b: Item) -> bool {
    a.id == b.id && a.content@ == b.content@ && a.is_deleted == b.is_deleted
}

/// Two items equal in everything but their neighbour pointers.
pub open spec fn same_core(a: Item, b: Item) -> bool {
    a.id == b.id && a.content == b.content && a.is_deleted == b.is_deleted
}

/// `relink` rewrites only the pointers; everything else is the very value
/// the input held.
pub proof fn lemma_relink_core(s: Seq<Item>)
    ensures
        relink(s).len() == s.len(),
        forall|i: int| 0 <= i < s.len() ==> same_core(#[trigger] relink(s)[i], s[i]),
{
}

/// The pointers `relink` writes depend only on the items' cores, so two
/// pointwise core-equal sequences relink to the same sequence.
pub proof fn lemma_relink_congruent(s1: Seq<Item>, s2: Seq<Item>)
    requires
        s1.len() == s2.len(),
        forall|i: int| 0 <= i < s1.len() ==> same_core(#[trigger] s1[i], s2[i]),
    ensures
        relink(s1) == relink(s2),
{
    assert forall|i: int| 0 <= i < s1.len() implies relink(s1)[i] == relink(s2)[i] by {
        assert(same_core(s1[i], s2[i]));
        if i > 0 {
            assert(same_core(s1[i - 1], s2[i - 1]));
        }
        if i < s1.len() - 1 {
            assert(same_core(s1[i + 1], s2[i + 1]));
        }
    }
    assert(relink(s1) =~= relink(s2));
}

/// Membership by identifier is unchanged by relinking.
pub proof fn lemma_contains_id_relink(s: Seq<Item>, id: ID)
    ensures
        contains_id(relink(s), id) == contains_id(s, id),
{
    if contains_id(s, id) {
        let i = choose|i: int| 0 <= i < s.len() && s[i].id == id;
        assert(relink(s)[i].id == id);
    }
    if contains_id(relink(s), id) {
        let i = choose|i: int| 0 <= i < relink(s).len() && relink(s)[i].id == id;
        assert(s[i].id == id);
    }
}

pub proof fn lemma_visible_concat(s1: Seq<Item>, s2: Seq<Item>)
    ensures
        visible(s1 + s2) == visible(s1) + visible(s2),
        all_text(s1 + s2) == all_text(s1) + all_text(s2),
    decreases s2.len(),
{
    if s2.len() == 0 {
        assert(s1 + s2 =~= s1);
        assert(visible(s1) + visible(s2) =~= visible(s1));
        assert(all_text(s1) + all_text(s2) =~= all_text(s1));
    } else {
        lemma_visible_concat(s1, s2.drop_last());
        assert((s1 + s2).drop_last() =~= s1 + s2.drop_last());
        assert((s1 + s2).last() == s2.last());
        assert(visible(s1) + (visible(s2.drop_last()) + s2.last().vis()) =~= (visible(s1)
            + visible(s2.drop_last())) + s2.last().vis());
        assert(all_text(s1) + (all_text(s2.drop_last()) + s2.last().content@) =~= (all_text(s1)
            + all_text(s2.drop_last())) + s2.last().content@);
    }
}

/// Splitting a sequence anywhere splits its texts at the matching point.
pub proof fn lemma_visible_split(s: Seq<Item>, i: int)
    requires
        0 <= i <= s.len(),
    ensures
        visible(s) == visible(s.take(i)) + visible(s.skip(i)),
        all_text(s) == all_text(s.take(i)) + all_text(s.skip(i)),
{
    assert(s =~= s.take(i) + s.skip(i));
    lemma_visible_concat(s.take(i), s.skip(i));
}

/// Taking one more item extends the texts by that item's contribution.
pub proof fn lemma_visible_take_succ(s: Seq<Item>, i: int)
    requires
        0 <= i < s.len(),
    ensures
        visible(s.take(i + 1)) == visible(s.take(i)) + s[i].vis(),
        all_text(s.take(i + 1)) == all_text(s.take(i)) + s[i].content@,
{
    assert(s.take(i + 1).drop_last() =~= s.take(i));
    assert(s.take(i + 1).last() == s[i]);
}

/// The texts only depend on the items' payloads, never on their pointers.
pub proof fn lemma_visible_congruent(s1: Seq<Item>, s2: Seq<Item>)
    requires
        s1.len() == s2.len(),
        forall|i: int| 0 <= i < s1.len() ==> same_payload(#[trigger] s1[i], s2[i]),
    ensures
        visible(s1) == visible(s2),
        all_text(s1) == all_text(s2),
    decreases s1.len(),
{
    if s1.len() > 0 {
        lemma_visible_congruent(s1.drop_last(), s2.drop_last());
        assert(same_payload(s1[s1.len() - 1], s2[s2.len() - 1]));
        assert(s1.last().vis() == s2.last().vis());
    }
}

/// How many characters into its containing visible item the visible
/// position `pos` falls: zero when `pos` lies on an item boundary or past
/// the visible end, so exactly the offset at which an edit there must
/// split.
pub open spec fn split_offset(s: Seq<Item>, pos: nat) -> nat
    decreases s.len(),
{
    if s.len() == 0 {
        0
    } else if s[0].is_deleted {
        split_offset(s.drop_first(), pos)
    } else if pos < s[0].len() {
        pos
    } else {
        split_offset(s.drop_first(), (pos - s[0].len()) as nat)
    }
}

/// The visible item containing visible position `pos` (meaningful only
/// while `pos` lies inside the visible text).
pub open spec fn item_at(s: Seq<Item>, pos: nat) -> Item
    decreases s.len(),
{
    if s.len() == 0 {
        vstd::pervasive::arbitrary()
    } else if s[0].is_deleted {
        item_at(s.drop_first(), pos)
    } else if pos < s[0].len() {
        s[0]
    } else {
        item_at(s.drop_first(), (pos - s[0].len()) as nat)
    }
}

/// Whether the sequence holds an item with exactly this identifier,
/// content and tombstone flag.
pub open spec fn has_run(s: Seq<Item>, id: ID, content: Seq<char>, deleted: bool) -> bool {
    exists|w: int|
        0 <= w < s.len() && (#[trigger] s[w]).id == id && s[w].content@ == content
            && s[w].is_deleted == deleted
}

/// Where the structural answer of a position lookup locates `pos` — `off`
/// characters into the visible item at index `j` — the split offset is that
/// `off`.
pub proof fn lemma_split_offset_at(s: Seq<Item>, j: int, pos: nat, off: nat)
    requires
        0 <= j < s.len(),
        !s[j].is_deleted,
        off < s[j].len(),
        visible(s.take(j)).len() + off == pos,
    ensures
        split_offset(s, pos) == off,
        item_at(s, pos) == s[j],
    decreases s.len(),
{
    if s[0].is_deleted {
        assert(j >= 1);
        assert(s.take(j)[0] == s[0]);
        lemma_visible_first(s.take(j));
        assert(s.take(j).drop_first() =~= s.drop_first().take(j - 1));
        assert(s[0].vis() =~= Seq::<char>::empty());
        assert(visible(s.take(j)) =~= visible(s.drop_first().take(j - 1)));
        lemma_split_offset_at(s.drop_first(), j - 1, pos, off);
    } else if j == 0 {
        assert(s.take(0) =~= Seq::<Item>::empty());
    } else {
        assert(s.take(j)[0] == s[0]);
        lemma_visible_first(s.take(j));
        assert(s.take(j).drop_first() =~= s.drop_first().take(j - 1));
        assert(visible(s.take(j)) == s[0].content@ + visible(s.drop_first().take(j - 1)));
        lemma_split_offset_at(s.drop_first(), j - 1, (pos - s[0].len()) as nat, off);
    }
}

/// At or past the visible end nothing splits.
pub proof fn lemma_split_offset_end(s: Seq<Item>, pos: nat)
    requires
        pos >= visible(s).len(),
    ensures
        split_offset(s, pos) == 0,
    decreases s.len(),
{
    if s.len() > 0 {
        lemma_visible_first(s);
        if s[0].is_deleted {
            assert(s[0].vis() =~= Seq::<char>::empty());
            assert(visible(s) =~= visible(s.drop_first()));
            lemma_split_offset_end(s.drop_first(), pos);
        } else {
            assert(visible(s) == s[0].content@ + visible(s.drop_first()));
            lemma_split_offset_end(s.drop_first(), (pos - s[0].len()) as nat);
        }
    }
}

/// The split offset never exceeds the full text.
pub proof fn lemma_split_offset_le(s: Seq<Item>, pos: nat)
    ensures
        split_offset(s, pos) <= all_text(s).len(),
    decreases s.len(),
{
    if s.len() > 0 {
        lemma_visible_first(s);
        assert(all_text(s) == s[0].content@ + all_text(s.drop_first()));
        if s[0].is_deleted {
            lemma_split_offset_le(s.drop_first(), pos);
        } else if pos < s[0].len() {
        } else {
            lemma_split_offset_le(s.drop_first(), (pos - s[0].len()) as nat);
        }
    }
}

/// How a deletion may change one stored item: its identifier survives, its
/// tombstone flag only ever turns on, and its content is never rewritten —
/// at most cut down to a suffix of itself, where a split handed the leading
/// characters to a freshly minted left half.
pub open spec fn shrunk_into(post: Seq<Item>, b: Item) -> bool {
    &&& contains_id(post, b.id)
    &&& ({
        let a = post[idx_of(post, b.id)];
        &&& (b.is_deleted ==> a.is_deleted)
        &&& a.content@.len() <= b.content@.len()
        &&& a.content@ == b.content@.skip(b.content@.len() - a.content@.len())
    })
}

/// Shrinking composes: what shrank into `mid` and then shrank further into
/// `post` shrank into `post`.
pub proof fn lemma_shrunk_into_trans(mid: Seq<Item>, post: Seq<Item>, b: Item)
    requires
        shrunk_into(mid, b),
        forall|q: int| 0 <= q < mid.len() ==> shrunk_into(post, #[trigger] mid[q]),
    ensures
        shrunk_into(post, b),
{
    let m = mid[idx_of(mid, b.id)];
    assert(0 <= idx_of(mid, b.id) < mid.len() && m.id == b.id) by {
        let w = choose|w: int| 0 <= w < mid.len() && mid[w].id == b.id;
        assert(0 <= w < mid.len() && mid[w].id == b.id);
    }
    assert(shrunk_into(post, m));
    let a = post[idx_of(post, m.id)];
    assert(a.content@ == m.content@.skip(m.content@.len() - a.content@.len()));
    assert(m.content@ == b.content@.skip(b.content@.len() - m.content@.len()));
    assert(b.content@.skip(b.content@.len() - m.content@.len()).skip(
        m.content@.len() - a.content@.len(),
    ) =~= b.content@.skip(b.content@.len() - a.content@.len()));
}

/// Every item of a store with unique identifiers trivially shrinks into
/// that store itself.
pub proof fn lemma_shrunk_identity(s: Seq<Item>)
    requires
        ids_unique(s),
    ensures
        forall|q: int| 0 <= q < s.len() ==> shrunk_into(s, #[trigger] s[q]),
{
    assert forall|q: int| 0 <= q < s.len() implies shrunk_into(s, #[trigger] s[q]) by {
        lemma_idx_of(s, q);
        assert(s[q].content@.skip(0) =~= s[q].content@);
    }
}

/// Splicing a fresh item in shrinks nothing: every previous item keeps its
/// payload.
pub proof fn lemma_shrunk_relink_insert(s: Seq<Item>, k: int, v: Item)
    requires
        0 <= k <= s.len(),
        ids_unique(relink(s.insert(k, v))),
    ensures
        forall|w: int| 0 <= w < s.len() ==> shrunk_into(relink(s.insert(k, v)), #[trigger] s[w]),
{
    let t = relink(s.insert(k, v));
    lemma_relink_payloads(s.insert(k, v));
    assert forall|w: int| 0 <= w < s.len() implies shrunk_into(t, #[trigger] s[w]) by {
        let w2: int = if w < k {
            w
        } else {
            w + 1
        };
        assert(s.insert(k, v)[w2] == s[w]);
        assert(same_payload(t[w2], s[w]));
        lemma_idx_of(t, w2);
        assert(s[w].content@.skip(0) =~= s[w].content@);
    }
}

/// A run survives a payload-preserving splice.
pub proof fn lemma_has_run_relink_insert(
    s: Seq<Item>,
    k: int,
    v: Item,
    id: ID,
    c: Seq<char>,
    d: bool,
)
    requires
        0 <= k <= s.len(),
        has_run(s, id, c, d),
    ensures
        has_run(relink(s.insert(k, v)), id, c, d),
{
    let w = choose|w: int|
        0 <= w < s.len() && (#[trigger] s[w]).id == id && s[w].content@ == c && s[w].is_deleted
            == d;
    lemma_relink_payloads(s.insert(k, v));
    let w2: int = if w < k {
        w
    } else {
        w + 1
    };
    assert(s.insert(k, v)[w2] == s[w]);
    assert(same_payload(relink(s.insert(k, v))[w2], s[w]));
}

/// Under unique identifiers, `idx_of` finds exactly the index an item
/// stands at.
pub proof fn lemma_idx_of(s: Seq<Item>, i: int)
    requires
        ids_unique(s),
        0 <= i < s.len(),
    ensures
        contains_id(s, s[i].id),
        idx_of(s, s[i].id) == i,
{
    assert(0 <= i < s.len() && s[i].id == s[i].id);
    let j = idx_of(s, s[i].id);
    assert(0 <= j < s.len() && s[j].id == s[i].id);
    if i < j {
        assert(false);
    } else if j < i {
        assert(false);
    }
}

/// What `find_pos` reports for a position `pos` of the visible text: the
/// anchors `(left, right, offset)` of the matching place in the item list.
///
/// `right` carries the item containing or immediately after `pos`, with
/// `offset` characters of it falling before `pos`; `left` carries the last
/// visible item wholly before `pos`. At or past the end of the visible text
/// `right` is `None` and `left` the last visible item of the list.
pub open spec fn find_pos_post(s: Seq<Item>, pos: nat, r: (Option<ID>, Option<ID>, usize)) -> bool {
    match r.1 {
        Some(rid) => {
            &&& contains_id(s, rid)
            &&& ({
                let j = idx_of(s, rid);
                &&& !s[j].is_deleted
                &&& (r.2 as nat) < s[j].len()
                &&& visible(s.take(j)).len() + r.2 == pos
                &&& r.0 == last_vis_before(s, j)
            })
            &&& pos < visible(s).len()
        },
        None => {
            &&& r.2 == 0
            &&& pos >= visible(s).len()
            &&& r.0 == last_vis_before(s, s.len() as int)
        },
    }
}

pub proof fn lemma_visible_singleton(it: Item)
    ensures
        visible(seq![it]) == it.vis(),
        all_text(seq![it]) == it.content@,
{
    assert(seq![it].drop_last() =~= Seq::<Item>::empty());
    assert(seq![it].last() == it);
    assert(visible(Seq::<Item>::empty()) == Seq::<char>::empty());
    assert(all_text(Seq::<Item>::empty()) == Seq::<char>::empty());
    assert(Seq::<char>::empty() + it.vis() =~= it.vis());
    assert(Seq::<char>::empty() + it.content@ =~= it.content@);
}

/// Peeling the first item off the front of the texts.
pub proof fn lemma_visible_first(s: Seq<Item>)
    requires
        s.len() > 0,
    ensures
        visible(s) == s[0].vis() + visible(s.drop_first()),
        all_text(s) == s[0].content@ + all_text(s.drop_first()),
{
    assert(s =~= seq![s[0]] + s.drop_first());
    lemma_visible_singleton(s[0]);
    lemma_visible_concat(seq![s[0]], s.drop_first());
}

/// Replacing the item at `j` replaces exactly its contribution to the texts.
pub proof fn lemma_visible_update(s: Seq<Item>, j: int, it: Item)
    requires
        0 <= j < s.len(),
    ensures
        visible(s.update(j, it)) == visible(s.take(j)) + it.vis() + visible(s.skip(j + 1)),
        all_text(s.update(j, it)) == all_text(s.take(j)) + it.content@ + all_text(s.skip(j + 1)),
        visible(s) == visible(s.take(j)) + s[j].vis() + visible(s.skip(j + 1)),
        all_text(s) == all_text(s.take(j)) + s[j].content@ + all_text(s.skip(j + 1)),
{
    let u = s.update(j, it);
    assert(u =~= s.take(j) + seq![it] + s.skip(j + 1));
    lemma_visible_concat(s.take(j) + seq![it], s.skip(j + 1));
    lemma_visible_concat(s.take(j), seq![it]);
    lemma_visible_singleton(it);
    assert(s =~= s.take(j) + seq![s[j]] + s.skip(j + 1));
    lemma_visible_concat(s.take(j) + seq![s[j]], s.skip(j + 1));
    lemma_visible_concat(s.take(j), seq![s[j]]);
    lemma_visible_singleton(s[j]);
}

/// Inserting an item at `k` inserts exactly its contribution to the texts.
pub proof fn lemma_visible_insert(s: Seq<Item>, k: int, it: Item)
    requires
        0 <= k <= s.len(),
    ensures
        visible(s.insert(k, it)) == visible(s.take(k)) + it.vis() + visible(s.skip(k)),
        all_text(s.insert(k, it)) == all_text(s.take(k)) + it.content@ + all_text(s.skip(k)),
{
    assert(s.insert(k, it) =~= s.take(k) + seq![it] + s.skip(k));
    lemma_visible_concat(s.take(k) + seq![it], s.skip(k));
    lemma_visible_concat(s.take(k), seq![it]);
    lemma_visible_singleton(it);
}

/// Each single item's content is no longer than the full text.
pub proof fn lemma_item_within_all_text(s: Seq<Item>, j: int)
    requires
        0 <= j < s.len(),
    ensures
        s[j].len() <= all_text(s).len(),
        s[j].vis().len() <= visible(s).len(),
{
    lemma_visible_update(s, j, s[j]);
}

/// Membership by identifier, after inserting an item.
pub proof fn lemma_contains_id_insert(s: Seq<Item>, k: int, it: Item, id: ID)
    requires
        0 <= k <= s.len(),
    ensures
        contains_id(s.insert(k, it), id) <==> (contains_id(s, id) || it.id == id),
{
    let u = s.insert(k, it);
    if contains_id(s, id) {
        let i = choose|i: int| 0 <= i < s.len() && s[i].id == id;
        if i < k {
            assert(u[i].id == id);
        } else {
            assert(u[i + 1].id == id);
        }
    }
    if it.id == id {
        assert(u[k].id == id);
    }
    if contains_id(u, id) && it.id != id {
        let i = choose|i: int| 0 <= i < u.len() && u[i].id == id;
        if i < k {
            assert(s[i].id == id);
        } else {
            assert(i != k);
            assert(s[i - 1].id == id);
        }
    }
}

/// Whether `post` still holds every item of `pre`, by identifier, with its
/// payload (content and tombstone flag) intact. Integration only ever adds
/// items and rewrites neighbour pointers; nothing it does may lose or alter
/// what a store already holds.
pub open spec fn store_extends(post: Seq<Item>, pre: Seq<Item>) -> bool {
    forall|i: int|
        0 <= i < pre.len() ==> contains_id(post, (#[trigger] pre[i]).id) && same_payload(
            post[idx_of(post, pre[i].id)],
            pre[i],
        )
}

pub proof fn lemma_store_extends_refl(s: Seq<Item>)
    requires
        ids_unique(s),
    ensures
        store_extends(s, s),
{
    assert forall|i: int|
        0 <= i < s.len() implies contains_id(s, (#[trigger] s[i]).id) && same_payload(
        s[idx_of(s, s[i].id)],
        s[i],
    ) by {
        lemma_idx_of(s, i);
    }
}

pub proof fn lemma_store_extends_trans(a: Seq<Item>, b: Seq<Item>, c: Seq<Item>)
    requires
        store_extends(b, a),
        store_extends(c, b),
    ensures
        store_extends(c, a),
{
    assert forall|i: int|
        0 <= i < a.len() implies contains_id(c, (#[trigger] a[i]).id) && same_payload(
        c[idx_of(c, a[i].id)],
        a[i],
    ) by {
        assert(contains_id(b, a[i].id) && same_payload(b[idx_of(b, a[i].id)], a[i]));
        let j = idx_of(b, a[i].id);
        assert(0 <= j < b.len() && b[j].id == a[i].id);
        assert(contains_id(c, (b[j]).id) && same_payload(c[idx_of(c, b[j].id)], b[j]));
    }
}

/// Splicing a fresh item in (with the pointers rewritten) keeps every item
/// the store already had, with its payload.
pub proof fn lemma_store_extends_insert(s: Seq<Item>, k: int, it: Item)
    requires
        ids_unique(s),
        !contains_id(s, it.id),
        0 <= k <= s.len(),
    ensures
        store_extends(relink(s.insert(k, it)), s),
        contains_id(relink(s.insert(k, it)), it.id),
        ids_unique(relink(s.insert(k, it))),
{
    let u = s.insert(k, it);
    let t = relink(u);
    lemma_relink_payloads(u);
    lemma_ids_unique_insert(s, k, it);
    assert(u[k] == it);
    assert(same_payload(t[k], it));
    assert(t[k].id == it.id);
    assert forall|i: int|
        0 <= i < s.len() implies contains_id(t, (#[trigger] s[i]).id) && same_payload(
        t[idx_of(t, s[i].id)],
        s[i],
    ) by {
        let w: int = if i < k {
            i
        } else {
            i + 1
        };
        assert(u[w] == s[i]);
        assert(same_payload(t[w], s[i]));
        lemma_idx_of(t, w);
    }
}

/// A walk consuming visible text, positioned before index `i`: stepping
/// over a tombstone changes neither the consumed prefix nor the remaining
/// tail.
pub proof fn lemma_walk_skip_tombstone(s: Seq<Item>, i: int)
    requires
        0 <= i < s.len(),
        s[i].is_deleted,
    ensures
        visible(s.take(i + 1)) == visible(s.take(i)),
        visible(s.skip(i + 1)) == visible(s.skip(i)),
{
    lemma_visible_take_succ(s, i);
    assert(visible(s.take(i)) + s[i].vis() =~= visible(s.take(i)));
    lemma_visible_first(s.skip(i));
    assert(s.skip(i)[0] == s[i]);
    assert(s.skip(i).drop_first() =~= s.skip(i + 1));
    assert(s[i].vis() + visible(s.skip(i + 1)) =~= visible(s.skip(i + 1)));
}

/// Tombstoning the whole visible item at `i` consumes exactly its content
/// from the front of the remaining tail.
pub proof fn lemma_walk_mark_whole(s: Seq<Item>, i: int)
    requires
        0 <= i < s.len(),
        !s[i].is_deleted,
    ensures
        ({
            let s3 = s.update(i, Item { is_deleted: true, ..s[i] });
            &&& visible(s3.take(i + 1)) == visible(s.take(i))
            &&& visible(s3.skip(i + 1)) == visible(s.skip(i)).skip(s[i].content@.len() as int)
            &&& visible(s.skip(i)).len() >= s[i].content@.len()
        }),
{
    let s3 = s.update(i, Item { is_deleted: true, ..s[i] });
    assert(s3.take(i) =~= s.take(i));
    lemma_visible_take_succ(s3, i);
    assert(s3[i].vis() =~= Seq::<char>::empty());
    assert(visible(s3.take(i)) + Seq::<char>::empty() =~= visible(s3.take(i)));
    assert(s3.skip(i + 1) =~= s.skip(i + 1));
    lemma_visible_first(s.skip(i));
    assert(s.skip(i)[0] == s[i]);
    assert(s.skip(i).drop_first() =~= s.skip(i + 1));
    assert(visible(s.skip(i)) == s[i].content@ + visible(s.skip(i + 1)));
    assert(visible(s.skip(i)).skip(s[i].content@.len() as int) =~= visible(s.skip(i + 1)));
}

/// The partial step ending a deletion: after the item at `i` was split
/// `rem` characters in (the sequence `s2`) and its left half tombstoned,
/// the walk has consumed exactly `rem` more characters of the tail.
pub proof fn lemma_walk_mark_partial(s: Seq<Item>, s2: Seq<Item>, i: int, rem: int)
    requires
        0 <= i < s.len(),
        !s[i].is_deleted,
        0 < rem < s[i].content@.len(),
        s2.len() == s.len() + 1,
        forall|q: int| 0 <= q < i ==> same_payload(#[trigger] s2[q], s[q]),
        !s2[i].is_deleted,
        s2[i + 1].content@ == s[i].content@.skip(rem),
        s2[i + 1].is_deleted == s[i].is_deleted,
        forall|q: int| i + 2 <= q < s2.len() ==> same_payload(#[trigger] s2[q], s[q - 1]),
    ensures
        ({
            let s3 = s2.update(i, Item { is_deleted: true, ..s2[i] });
            &&& visible(s3.take(i)) == visible(s.take(i))
            &&& visible(s3.skip(i)) == visible(s.skip(i)).skip(rem)
            &&& visible(s.skip(i)).len() > rem
        }),
{
    let s3 = s2.update(i, Item { is_deleted: true, ..s2[i] });
    assert(s3.take(i) =~= s2.take(i));
    assert forall|q: int| 0 <= q < i implies same_payload(#[trigger] s2.take(i)[q], s.take(i)[q])
        by {
        assert(s2.take(i)[q] == s2[q] && s.take(i)[q] == s[q]);
    }
    lemma_visible_congruent(s2.take(i), s.take(i));
    // the tombstoned left half contributes nothing
    lemma_visible_first(s3.skip(i));
    assert(s3.skip(i)[0] == s3[i]);
    assert(s3[i].vis() =~= Seq::<char>::empty());
    assert(s3.skip(i).drop_first() =~= s3.skip(i + 1));
    assert(Seq::<char>::empty() + visible(s3.skip(i + 1)) =~= visible(s3.skip(i + 1)));
    // the right remainder keeps the tail of the run
    assert(s3.skip(i + 1) =~= s2.skip(i + 1));
    lemma_visible_first(s2.skip(i + 1));
    assert(s2.skip(i + 1)[0] == s2[i + 1]);
    assert(s2.skip(i + 1).drop_first() =~= s2.skip(i + 2));
    assert(s2[i + 1].vis() == s[i].content@.skip(rem));
    assert forall|q: int| 0 <= q < s2.skip(i + 2).len() implies same_payload(
        #[trigger] s2.skip(i + 2)[q],
        s.skip(i + 1)[q],
    ) by {
        assert(s2.skip(i + 2)[q] == s2[q + i + 2] && s.skip(i + 1)[q] == s[q + i + 1]);
    }
    lemma_visible_congruent(s2.skip(i + 2), s.skip(i + 1));
    // align with the undisturbed tail
    lemma_visible_first(s.skip(i));
    assert(s.skip(i)[0] == s[i]);
    assert(s.skip(i).drop_first() =~= s.skip(i + 1));
    assert(visible(s.skip(i)) == s[i].content@ + visible(s.skip(i + 1)));
    assert(visible(s.skip(i)).skip(rem) =~= s[i].content@.skip(rem) + visible(s.skip(i + 1)));
    assert(visible(s3.skip(i)) == s[i].content@.skip(rem) + visible(s.skip(i + 1)));
}

/// The effect of a split on the texts: truncating the item at `j` to the
/// tail of its content and splicing the head of its content in front of it
/// leaves both texts unchanged, and the new boundary sits exactly after the
/// head's characters.
#[verifier::rlimit(100)]
pub proof fn lemma_split_texts(s0: Seq<Item>, j: int, left_half: Item, trunc: Item)
    requires
        0 <= j < s0.len(),
        !s0[j].is_deleted,
        trunc.id == s0[j].id,
        trunc.is_deleted == s0[j].is_deleted,
        !left_half.is_deleted,
        left_half.content@ + trunc.content@ == s0[j].content@,
    ensures
        ({
            let s2 = relink(s0.update(j, trunc).insert(j, left_half));
            &&& visible(s2) == visible(s0)
            &&& all_text(s2) == all_text(s0)
            &&& visible(s2.take(j + 1)) == visible(s0.take(j)) + left_half.content@
        }),
{
    let s1 = s0.update(j, trunc);
    let u = s1.insert(j, left_half);
    let s2 = relink(u);
    lemma_relink_payloads(u);
    lemma_visible_insert(s1, j, left_half);
    assert(s1.take(j) =~= s0.take(j));
    assert(s1.skip(j)[0] == trunc);
    lemma_visible_first(s1.skip(j));
    assert(s1.skip(j).drop_first() =~= s0.skip(j + 1));
    lemma_visible_update(s0, j, s0[j]);
    assert(s0.update(j, s0[j]) =~= s0);
    assert(left_half.vis() == left_half.content@);
    assert(trunc.vis() == trunc.content@);
    assert(s0[j].vis() == s0[j].content@);
    assert(visible(s2) == visible(s0.take(j)) + left_half.content@ + (trunc.content@ + visible(
        s0.skip(j + 1),
    )));
    assert(visible(s0.take(j)) + left_half.content@ + (trunc.content@ + visible(s0.skip(j + 1)))
        =~= visible(s0.take(j)) + s0[j].content@ + visible(s0.skip(j + 1)));
    assert(all_text(s2) == all_text(s0.take(j)) + left_half.content@ + (trunc.content@ + all_text(
        s0.skip(j + 1),
    )));
    assert(all_text(s0.take(j)) + left_half.content@ + (trunc.content@ + all_text(s0.skip(j + 1)))
        =~= all_text(s0.take(j)) + s0[j].content@ + all_text(s0.skip(j + 1)));
    lemma_visible_take_succ(s2, j);
    assert forall|i: int| 0 <= i < j implies same_payload(#[trigger] s2.take(j)[i], s0.take(j)[i])
        by {
        assert(u[i] == s1[i]);
        assert(same_payload(s2[i], u[i]));
    }
    lemma_visible_congruent(s2.take(j), s0.take(j));
    assert(u[j] == left_half);
    assert(same_payload(s2[j], left_half));
    assert(s2[j].vis() == left_half.content@);
}

/// Inserting an item with an unused identifier keeps identifiers unique.
pub proof fn lemma_ids_unique_insert(s: Seq<Item>, k: int, it: Item)
    requires
        ids_unique(s),
        !contains_id(s, it.id),
        0 <= k <= s.len(),
    ensures
        ids_unique(s.insert(k, it)),
{
    let u = s.insert(k, it);
    assert forall|i: int, j: int| 0 <= i < j < u.len() implies u[i].id != u[j].id by {
        if i < k && j < k {
            assert(u[i] == s[i] && u[j] == s[j]);
        } else if i < k && j == k {
            assert(u[i] == s[i]);
            assert(!(0 <= i < s.len() && s[i].id == it.id));
        } else if i < k && j > k {
            assert(u[i] == s[i] && u[j] == s[j - 1]);
        } else if i == k {
            assert(u[j] == s[j - 1]);
            assert(!(0 <= j - 1 < s.len() && s[j - 1].id == it.id));
        } else {
            assert(u[i] == s[i - 1] && u[j] == s[j - 1]);
        }
    }
}

/// `relink` keeps every payload.
pub proof fn lemma_relink_payloads(s: Seq<Item>)
    ensures
        relink(s).len() == s.len(),
        forall|i: int| 0 <= i < s.len() ==> same_payload(#[trigger] relink(s)[i], s[i]),
        visible(relink(s)) == visible(s),
        all_text(relink(s)) == all_text(s),
        linked(relink(s)),
        ids_unique(s) ==> ids_unique(relink(s)),
{
    assert(forall|i: int| 0 <= i < s.len() ==> same_payload(#[trigger] relink(s)[i], s[i]));
    lemma_visible_congruent(relink(s), s);
}

} // verus!
