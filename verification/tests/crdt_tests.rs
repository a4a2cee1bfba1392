use yata_text::{Crdt, CrdtError, Doc, Item, SequenceCrdt, ID};

fn id(client: u64, clock: u64) -> ID {
    ID { client, clock }
}

fn item(id_: ID, left: Option<ID>, right: Option<ID>, content: &str, deleted: bool) -> Item {
    Item { id: id_, left, right, content: content.to_string(), is_deleted: deleted }
}

#[test]
fn two_consecutive_inserts_make_two_items() {
    let mut doc = Doc::new(1);
    doc.insert(0, "hello").unwrap();
    doc.insert(5, "world").unwrap();

    assert_eq!(doc.value(), "helloworld");
    assert_eq!(doc.items.len(), 2);
}

#[test]
fn split_keeps_original_id_on_right_remainder() {
    let mut doc = Doc::new(1);
    doc.insert(0, "hllo").unwrap();
    doc.insert(1, "e").unwrap();

    assert_eq!(doc.value(), "hello");
    assert_eq!(doc.items.len(), 3);
    assert_eq!(doc.get_item(id(1, 0)).unwrap().content, "llo");
}

#[test]
fn deleted_item_remains_resolvable_by_id() {
    let mut doc = Doc::new(1);
    doc.insert(0, "First Item").unwrap();
    doc.insert(10, "Second Item").unwrap();
    doc.delete(10, 11).unwrap();

    assert_eq!(doc.value(), "First Item");
    let second = doc.get_item(id(1, 10)).unwrap();
    assert!(second.is_deleted);
    assert_eq!(second.content, "Second Item");
}

#[test]
fn split_round_trip_preserves_content() {
    // Splitting anywhere strictly inside an item leaves the concatenation of
    // the parts, in list order, equal to the original content.
    let original = "abcdef";
    for offset in 1..original.len() {
        let mut doc = Doc::new(1);
        doc.insert(0, original).unwrap();
        doc.split_item(id(1, 0), offset);

        assert_eq!(doc.value(), original);
        let mut rebuilt = String::new();
        let mut iter = doc.iter();
        while let Some(it) = iter.next() {
            rebuilt.push_str(&it.content);
        }
        assert_eq!(rebuilt, original);
        assert_eq!(doc.items.len(), 2);
    }
}

#[test]
fn insert_beyond_end_is_invalid_position() {
    let mut doc = Doc::new(1);
    assert_eq!(doc.insert(1, "a"), Err(CrdtError::InvalidPosition));

    doc.insert(0, "abc").unwrap();
    assert_eq!(doc.insert(4, "x"), Err(CrdtError::InvalidPosition));
    assert_eq!(doc.value(), "abc");
}

#[test]
fn delete_beyond_end_is_invalid_position() {
    let mut doc = Doc::new(1);
    doc.insert(0, "abc").unwrap();

    assert_eq!(doc.delete(4, 1), Err(CrdtError::InvalidPosition));
    assert_eq!(doc.value(), "abc");
}

#[test]
fn delete_zero_length_is_noop_even_out_of_range() {
    let mut doc = Doc::new(1);
    doc.insert(0, "abc").unwrap();

    assert_eq!(doc.delete(100, 0), Ok(()));
    assert_eq!(doc.value(), "abc");
}

#[test]
fn delete_truncates_past_end() {
    let mut doc = Doc::new(1);
    doc.insert(0, "abc").unwrap();

    doc.delete(1, 100).unwrap();
    assert_eq!(doc.value(), "a");
}

#[test]
fn delete_spanning_items() {
    let mut doc = Doc::new(1);
    doc.insert(0, "abc").unwrap();
    doc.insert(3, "def").unwrap();

    doc.delete(1, 4).unwrap();
    assert_eq!(doc.value(), "af");
}

#[test]
fn delete_strictly_inside_one_item() {
    let mut doc = Doc::new(1);
    doc.insert(0, "abcdef").unwrap();

    doc.delete(2, 2).unwrap();
    assert_eq!(doc.value(), "abef");
}

#[test]
fn delete_with_unicode_positions() {
    let mut doc = Doc::new(1);
    doc.insert(0, "hello🦀🦀world").unwrap();

    doc.delete(5, 2).unwrap();
    assert_eq!(doc.value(), "helloworld");
}

#[test]
fn apply_integrates_remote_items() {
    let mut doc = Doc::new(1);
    doc.apply(vec![item(id(9, 0), None, None, "xyz", false)]);

    assert_eq!(doc.value(), "xyz");
    assert_eq!(doc.state_vector.get(9), Some(2));
}

#[test]
fn apply_is_idempotent() {
    let update = vec![
        item(id(9, 0), None, None, "abc", false),
        item(id(9, 3), Some(id(9, 0)), None, "def", false),
    ];

    let mut doc = Doc::new(1);
    doc.apply(update.clone());
    let value_once = doc.value();
    let items_once = doc.items.len();
    let pending_once = doc.pending.len();

    doc.apply(update);
    assert_eq!(doc.value(), value_once);
    assert_eq!(doc.items.len(), items_once);
    assert_eq!(doc.pending.len(), pending_once);
}

#[test]
fn apply_buffers_items_with_missing_dependencies() {
    let mut doc = Doc::new(1);

    // references a neighbour that has not arrived: causally blocked
    let blocked = item(id(9, 1), Some(id(9, 0)), None, "y", false);
    doc.apply(vec![blocked]);
    assert_eq!(doc.value(), "");
    assert_eq!(doc.pending.len(), 1);

    // once the dependency arrives, the buffered item is integrated too
    let dependency = item(id(9, 0), None, None, "x", false);
    doc.apply(vec![dependency]);
    assert_eq!(doc.value(), "xy");
    assert_eq!(doc.pending.len(), 0);
}

#[test]
fn apply_in_any_order_converges() {
    let first = item(id(9, 0), None, None, "x", false);
    let second = item(id(9, 1), Some(id(9, 0)), None, "y", false);

    let mut forward = Doc::new(1);
    forward.apply(vec![first.clone()]);
    forward.apply(vec![second.clone()]);

    let mut reverse = Doc::new(2);
    reverse.apply(vec![second]);
    reverse.apply(vec![first]);

    assert_eq!(forward.value(), "xy");
    assert_eq!(reverse.value(), "xy");
}

#[test]
fn disjoint_updates_commute() {
    let u1 = vec![item(id(8, 0), None, None, "left", false)];
    let u2 = vec![item(id(9, 0), None, None, "right", false)];

    let mut one_way = Doc::new(1);
    one_way.apply(u1.clone());
    one_way.apply(u2.clone());

    let mut other_way = Doc::new(1);
    other_way.apply(u2);
    other_way.apply(u1);

    assert_eq!(one_way.value(), other_way.value());
    assert_eq!(one_way.items.len(), other_way.items.len());
}

#[test]
fn concurrent_inserts_at_same_anchor_converge() {
    let mut a = Doc::new(1);
    let mut b = Doc::new(2);

    a.insert(0, "apple").unwrap();
    b.insert(0, "banana").unwrap();

    let to_b = a.diff(&b.state_vector());
    let to_a = b.diff(&a.state_vector());
    a.apply(to_a);
    b.apply(to_b);

    assert_eq!(a.value(), b.value());
    // the baseline strategy orders by identifier: replica 1 before replica 2
    assert_eq!(a.value(), "applebanana");
}

#[test]
fn replicas_converge_through_sync() {
    let mut a = Doc::new(1);
    let mut b = Doc::new(2);

    a.insert(0, "shared").unwrap();
    b.apply(a.diff(&b.state_vector()));
    assert_eq!(b.value(), "shared");

    b.insert(6, " text").unwrap();
    a.apply(b.diff(&a.state_vector()));

    assert_eq!(a.value(), b.value());
    assert_eq!(a.value(), "shared text");
}

#[test]
fn diff_state_vector_round_trip() {
    let mut a = Doc::new(1);
    a.insert(0, "base").unwrap();

    let mut b = Doc::new(2);
    b.apply(a.diff(&b.state_vector()));
    b.insert(4, " more").unwrap();
    b.delete(0, 1).unwrap();

    // a fresh copy synced from `b` sees exactly `b`'s text
    let mut a_prime = Doc::new(3);
    a_prime.apply(b.diff(&a_prime.state_vector()));

    assert_eq!(a_prime.value(), b.value());
    assert_eq!(a_prime.value(), "ase more");
}

#[test]
fn diff_returns_only_missing_items() {
    let mut a = Doc::new(1);
    a.insert(0, "one").unwrap();

    let mut b = Doc::new(2);
    b.apply(a.diff(&b.state_vector()));

    // after syncing, `a` has nothing `b` is missing
    assert_eq!(a.diff(&b.state_vector()).len(), 0);

    a.insert(3, "two").unwrap();
    let delta = a.diff(&b.state_vector());
    assert_eq!(delta.len(), 1);
    assert_eq!(delta[0].content, "two");
}

#[test]
fn diff_orders_items_by_replica_then_clock() {
    let mut doc = Doc::new(1);
    doc.insert(0, "world").unwrap();
    doc.insert(0, "hello ").unwrap();
    doc.apply(vec![item(id(0, 7), None, None, "!", false)]);

    let empty = Doc::new(9);
    let delta = doc.diff(&empty.state_vector());
    assert_eq!(delta.len(), 3);
    assert_eq!(delta[0].id, id(0, 7));
    assert_eq!(delta[1].id, id(1, 0));
    assert_eq!(delta[2].id, id(1, 5));
}

#[test]
fn diff_carries_tombstones() {
    let mut a = Doc::new(1);
    a.insert(0, "abc").unwrap();
    a.delete(1, 1).unwrap();

    let mut b = Doc::new(2);
    b.apply(a.diff(&b.state_vector()));

    assert_eq!(b.value(), "ac");
    // the tombstoned "b" was the left half of a split, minted at clock 4
    let tombstone = b.get_item(id(1, 4)).unwrap();
    assert!(tombstone.is_deleted);
    assert_eq!(tombstone.content, "b");
}

#[test]
fn apply_ignores_degenerate_items() {
    let mut doc = Doc::new(1);
    doc.apply(vec![item(id(9, 0), None, None, "", false)]);

    assert_eq!(doc.items.len(), 0);
    assert_eq!(doc.pending.len(), 0);
}

#[test]
fn state_vector_snapshot_is_independent() {
    let mut doc = Doc::new(1);
    doc.insert(0, "abc").unwrap();

    let snapshot = doc.state_vector();
    doc.insert(3, "def").unwrap();

    assert_eq!(snapshot.get(1), Some(2));
    assert_eq!(doc.state_vector.get(1), Some(5));
}

#[test]
fn value_of_empty_document_is_empty() {
    let doc = Doc::new(1);
    assert_eq!(doc.value(), "");
    assert_eq!(doc.head(), None);
}

#[test]
fn apply_buffers_items_with_missing_right_anchor() {
    let mut doc = Doc::new(1);
    doc.insert(0, "x").unwrap();

    // a right anchor that has not arrived blocks integration too
    let blocked = item(id(9, 5), None, Some(id(9, 0)), "y", false);
    doc.apply(vec![blocked]);
    assert_eq!(doc.value(), "x");
    assert_eq!(doc.pending.len(), 1);

    // once the anchor arrives, the worklist integrates the buffered item
    let dependency = item(id(9, 0), None, None, "z", false);
    doc.apply(vec![dependency]);
    assert_eq!(doc.pending.len(), 0);
    assert_eq!(doc.value(), "xyz");
}

#[test]
fn diff_carries_creation_anchors() {
    let mut doc = Doc::new(1);
    doc.insert(0, "hello").unwrap();
    doc.insert(5, " world").unwrap();

    let delta = doc.diff(&Doc::new(2).state_vector());
    assert_eq!(delta.len(), 2);
    assert_eq!(delta[0].id, id(1, 0));
    assert_eq!(delta[0].left, None);
    assert_eq!(delta[0].right, None);
    assert_eq!(delta[1].id, id(1, 5));
    assert_eq!(delta[1].left, Some(id(1, 0)));
    assert_eq!(delta[1].right, None);
}
