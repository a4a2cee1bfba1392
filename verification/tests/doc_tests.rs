use yata_text::{Doc, Item, SequenceCrdt, ID};

// Helper function to create test IDs
fn id(client: u64, clock: u64) -> ID {
    ID { client, clock }
}

// Helper: collect the visible items of a document, in list order.
fn collect_items(doc: &Doc) -> Vec<&Item> {
    let mut items = Vec::new();
    let mut iter = doc.iter();
    while let Some(item) = iter.next() {
        items.push(item);
    }
    items
}

#[test]
fn next_id_clock_starts_at_0() {
    let mut doc = Doc::new(1);
    let next_id = doc.next_id("abc");

    assert!(next_id.clock == 0);
}

#[test]
fn next_id_advanced_clock_by_text_length() {
    let mut doc = Doc::new(1);
    let next_id = doc.next_id("abc");

    assert_eq!(doc.clock, 3);
    assert!(next_id.clock == doc.clock - 3);
}

#[test]
fn next_id_updates_state_vector_to_last_used_clock() {
    let mut doc = Doc::new(1);
    let next_id = doc.next_id("hello");

    assert_eq!(next_id.clock, 0);

    assert_eq!(doc.clock, 5);

    // State vector stores last clock value used, not the next available
    let state = doc.state_vector.get(1).unwrap();
    assert_eq!(state, 4);
    assert_eq!(state, doc.clock - 1);
}

#[test]
fn find_pos_in_empty_doc() {
    let doc = Doc::new(1);
    let (left, right, offset) = doc.find_pos(0);

    assert!(left.is_none());
    assert!(right.is_none());
    assert!(offset == 0);
}

#[test]
fn find_pos_at_start() {
    let mut doc = Doc::new(1);

    doc.insert(0, "hello").unwrap();

    let (left, right, offset) = doc.find_pos(0);
    assert!(left.is_none());
    assert!(right.is_some());
    assert!(offset == 0);
}

#[test]
fn find_pos_at_end() {
    let mut doc = Doc::new(1);

    doc.insert(0, "Hello world!").unwrap();

    let (left, right, _) = doc.find_pos(12);
    assert!(left.is_some());
    assert!(right.is_none());
}

#[test]
fn find_pos_in_middle_of_item() {
    let mut doc = Doc::new(1);

    doc.insert(0, "This is all one item!").unwrap();

    // Position 5 should have one item to the right, with
    // an offset of 5, indicating the right item will need
    // to be split on insertion
    let (left, right, offset) = doc.find_pos(5);
    assert!(left.is_none());
    assert!(right.is_some());
    assert!(offset == 5);
}

#[test]
fn find_pos_between_items() {
    let mut doc = Doc::new(1);

    doc.insert(0, "First Item").unwrap();
    doc.insert(10, "Second Item").unwrap();

    let (left, right, offset) = doc.find_pos(10);
    assert_eq!(left, Some(id(1, 0)));
    assert_eq!(right, Some(id(1, 10)));
    assert_eq!(offset, 0);
}

#[test]
fn find_pos_skips_deleted_items() {
    let mut doc = Doc::new(1);

    doc.insert(0, "First Item").unwrap();
    doc.insert(10, "Second Item").unwrap();

    // Mark the second item as deleted
    doc.delete(10, 11).unwrap();

    // Position 10 should be right to the first item
    let (left, right, offset) = doc.find_pos(10);
    assert_eq!(left, Some(id(1, 0)));
    assert!(right.is_none());
    assert_eq!(offset, 0);
}

#[test]
fn test_find_pos_with_unicode() {
    let mut doc = Doc::new(1);

    doc.insert(0, "hello").unwrap();
    doc.insert(5, "🦀🦀").unwrap();

    // Position 6 should be in the emoji item
    let (left, right, offset) = doc.find_pos(6);
    assert_eq!(left, Some(id(1, 0)));
    assert_eq!(right, Some(id(1, 5)));
    assert_eq!(offset, 1);

    // Position 7 should be at the end
    let (left, right, offset) = doc.find_pos(7);
    assert_eq!(left, Some(id(1, 5)));
    assert_eq!(right, None);
    assert_eq!(offset, 0);
}

#[test]
fn find_pos_all_items_deleted() {
    let mut doc = Doc::new(1);

    doc.insert(0, "First Item").unwrap();
    doc.insert(10, "Second Item").unwrap();
    doc.insert(21, "Third Iten").unwrap();

    doc.delete(0, 31).unwrap();

    // Position 5 should be at the start
    let (left, right, offset) = doc.find_pos(5);
    assert_eq!(left, None);
    assert_eq!(right, None);
    assert_eq!(offset, 0);

    // Position 10 should be at the start
    let (left, right, offset) = doc.find_pos(10);
    assert_eq!(left, None);
    assert_eq!(right, None);
    assert_eq!(offset, 0);

    // Position 15 should be at the start
    let (left, right, offset) = doc.find_pos(15);
    assert_eq!(left, None);
    assert_eq!(right, None);
    assert_eq!(offset, 0);
}

#[test]
fn test_iterator_empty_doc() {
    let doc = Doc::new(1);
    let mut iter = doc.iter();

    assert_eq!(iter.next(), None);
}

#[test]
fn test_iterator_single_item() {
    let mut doc = Doc::new(1);
    doc.insert(0, "hello").unwrap();

    let items = collect_items(&doc);
    assert_eq!(items.len(), 1);
    assert_eq!(items[0].content, "hello");
    assert_eq!(items[0].id.clock, 0);
}

#[test]
fn iterator_empty_doc() {
    let doc = Doc::new(1);
    let items = collect_items(&doc);
    assert_eq!(items.len(), 0);
}

#[test]
fn iterator_single_item() {
    let mut doc = Doc::new(1);
    doc.insert(0, "hello").unwrap();

    let items = collect_items(&doc);
    assert_eq!(items.len(), 1);
    assert_eq!(items[0].content, "hello");
}

#[test]
fn iterator_multiple_items() {
    let mut doc = Doc::new(1);
    doc.insert(0, "hello").unwrap();
    doc.insert(5, " ").unwrap();
    doc.insert(6, "world").unwrap();

    let items = collect_items(&doc);
    assert_eq!(items.len(), 3);
    assert_eq!(items[0].content, "hello");
    assert_eq!(items[1].content, " ");
    assert_eq!(items[2].content, "world");
}

#[test]
fn iterator_skips_deleted_items() {
    let mut doc = Doc::new(1);
    doc.insert(0, "hello").unwrap();
    doc.insert(5, " ").unwrap();
    doc.insert(6, "world").unwrap();

    doc.delete(5, 1).unwrap();

    let items = collect_items(&doc);
    assert_eq!(items.len(), 2);
    assert_eq!(items[0].content, "hello");
    assert_eq!(items[1].content, "world");
}

#[test]
fn value_uses_iterator() {
    let mut doc = Doc::new(1);
    doc.insert(0, "hello").unwrap();
    doc.insert(5, " ").unwrap();
    doc.insert(6, "world").unwrap();

    assert_eq!(doc.value(), "hello world");
}

#[test]
fn iterator_after_split() {
    let mut doc = Doc::new(1);
    doc.insert(0, "hello").unwrap();
    doc.insert(2, "X").unwrap(); // Splits "hello" into "he", "X", "llo"

    let items = collect_items(&doc);
    assert_eq!(items.len(), 3);
    assert_eq!(items[0].content, "he");
    assert_eq!(items[1].content, "X");
    assert_eq!(items[2].content, "llo");
}

#[test]
fn insert_into_empty_list() {
    let mut doc = Doc::new(1);
    doc.insert(0, "hello").unwrap();

    assert_eq!(doc.value(), "hello");
    assert_eq!(doc.head(), Some(id(1, 0)));
    assert_eq!(doc.clock, 5);
}

#[test]
fn insert_at_beginning() {
    let mut doc = Doc::new(1);
    doc.insert(0, "world").unwrap();
    doc.insert(0, "hello ").unwrap();

    assert_eq!(doc.value(), "hello world");

    // First item should be "hello " starting at clock 5
    let first_item = doc.get_item(id(1, 5)).unwrap();
    assert_eq!(first_item.content, "hello ");
    assert_eq!(first_item.left, None);
    assert_eq!(first_item.right, Some(id(1, 0)));
}

#[test]
fn insert_at_end() {
    let mut doc = Doc::new(1);
    doc.insert(0, "hello").unwrap();
    doc.insert(5, " world").unwrap();

    assert_eq!(doc.value(), "hello world");

    let second_item = doc.get_item(id(1, 5)).unwrap();
    assert_eq!(second_item.content, " world");
    assert_eq!(second_item.left, Some(id(1, 0)));
    assert_eq!(second_item.right, None);
}

#[test]
fn insert_in_middle_splits_item() {
    let mut doc = Doc::new(1);
    doc.insert(0, "hllo").unwrap(); // Creates ID (1, 0) with length 4, clock advances to 4
    doc.insert(1, "e").unwrap(); // Split creates ID (1, 4) for "h", then (1, 5) for "e"

    assert_eq!(doc.value(), "hello");
    assert_eq!(doc.items.len(), 3);

    // Left split "h" has NEW ID starting at clock 4
    let left_split = doc.get_item(id(1, 4)).unwrap();
    assert_eq!(left_split.content, "h");

    // Inserted "e" has ID starting at clock 5
    let inserted = doc.get_item(id(1, 5)).unwrap();
    assert_eq!(inserted.content, "e");

    // Right split "llo" keeps ORIGINAL ID starting at clock 0
    let right_split = doc.get_item(id(1, 0)).unwrap();
    assert_eq!(right_split.content, "llo");
}

#[test]
fn insert_splits_at_exact_midpoint() {
    let mut doc = Doc::new(1);
    doc.insert(0, "abcd").unwrap();
    doc.insert(2, "X").unwrap(); // Insert at exact middle

    assert_eq!(doc.value(), "abXcd");

    // "ab" (split left), "X" (inserted), "cd" (split right)
    assert_eq!(doc.items.len(), 3);
}

#[test]
fn multiple_inserts_at_same_position() {
    let mut doc = Doc::new(1);
    doc.insert(0, "a").unwrap();
    doc.insert(1, "b").unwrap();
    doc.insert(2, "c").unwrap();
    doc.insert(3, "d").unwrap();

    assert_eq!(doc.value(), "abcd");
    assert_eq!(doc.items.len(), 4);
}

#[test]
fn insert_with_unicode() {
    let mut doc = Doc::new(1);
    doc.insert(0, "hello🦀world").unwrap();
    doc.insert(6, "rust").unwrap(); // Insert after emoji (1 char)

    assert_eq!(doc.value(), "hello🦀rustworld");
}

#[test]
fn insert_empty_string_is_noop() {
    let mut doc = Doc::new(1);
    doc.insert(0, "hello").unwrap();
    let clock_before = doc.clock;

    doc.insert(2, "").unwrap(); // Should be no-op

    assert_eq!(doc.value(), "hello");
    assert_eq!(doc.clock, clock_before); // Clock shouldn't advance
}

#[test]
fn insert_updates_head_correctly() {
    let mut doc = Doc::new(1);
    doc.insert(0, "second").unwrap();

    let original_head = doc.head();

    doc.insert(0, "first").unwrap();

    // Head should now point to "first"
    assert_ne!(doc.head(), original_head);
    assert_eq!(doc.value(), "firstsecond");
}

#[test]
fn insert_maintains_linked_list_integrity() {
    let mut doc = Doc::new(1);
    doc.insert(0, "a").unwrap();
    doc.insert(1, "b").unwrap();
    doc.insert(2, "c").unwrap();

    // Walk the linked list and verify integrity
    let mut visited = vec![];
    let mut current = doc.head();

    while let Some(id) = current {
        let item = doc.get_item(id).unwrap();
        visited.push(item.content.clone());

        // Verify bidirectional links
        if let Some(right_id) = item.right {
            let right_item = doc.get_item(right_id).unwrap();
            assert_eq!(right_item.left, Some(id), "Right item's left should point back");
        }

        current = item.right;
    }

    assert_eq!(visited, vec!["a", "b", "c"]);
}

#[test]
fn clock_advances_correctly_with_splits() {
    let mut doc = Doc::new(1);

    doc.insert(0, "hello").unwrap(); // clock: 0 -> 5
    assert_eq!(doc.clock, 5);

    doc.insert(2, "X").unwrap();
    // Split creates "he" (2 chars) at clock 5, clock becomes 7
    // Then insert "X" (1 char) at clock 7, clock becomes 8
    // Original "llo" keeps its ID

    assert_eq!(doc.value(), "heXllo");
}

#[test]
fn insert_between_two_items() {
    let mut doc = Doc::new(1);
    doc.insert(0, "ac").unwrap();
    doc.insert(1, "b").unwrap();

    assert_eq!(doc.value(), "abc");
    assert_eq!(doc.items.len(), 3); // "a" (split), "b" (inserted), "c" (split)
}
