use synckit_core::Block;
use synckit_core::FugueText;
use synckit_core::TextError;
use synckit_core::node::str_cmp;

#[test]
fn test_append_then_append() {
    let mut text = FugueText::new("A".to_string());
    text.insert(0, "Hello").unwrap();
    text.insert(5, " World").unwrap();
    assert_eq!(text.to_string(), "Hello World");
}

#[test]
fn test_two_replicas_contain_both_runs() {
    let mut a = FugueText::new("A".to_string());
    let mut b = FugueText::new("B".to_string());
    a.insert(0, "A").unwrap();
    b.insert(0, "B").unwrap();
    a.merge(&b).unwrap();
    b.merge(&a).unwrap();
    assert_eq!(a.to_string(), b.to_string());
    assert!(a.to_string().contains('A'));
    assert!(a.to_string().contains('B'));
}

#[test]
fn test_range_error_fields() {
    let mut text = FugueText::new("client1".to_string());
    text.insert(0, "Hello").unwrap();
    match text.delete(2, 9) {
        Err(TextError::RangeOutOfBounds { start, end, length }) => {
            assert_eq!(start, 2);
            assert_eq!(end, 11);
            assert_eq!(length, 5);
        }
        _ => panic!("Expected RangeOutOfBounds error"),
    }
}

#[test]
fn test_delete_reports_tombstoned_ids() {
    let mut text = FugueText::new("client1".to_string());
    let id = text.insert(0, "Hello").unwrap();
    let deleted = text.delete(0, 5).unwrap();
    assert_eq!(deleted.len(), 1);
    assert_eq!(deleted[0], id);
}

#[test]
fn test_delete_zero_length() {
    let mut text = FugueText::new("client1".to_string());
    text.insert(0, "Hello").unwrap();
    let deleted = text.delete(2, 0).unwrap();
    assert!(deleted.is_empty());
    assert_eq!(text.to_string(), "Hello");
}

#[test]
fn test_combining_accent_added_explicitly() {
    let mut text = FugueText::new("client1".to_string());
    text.insert(0, "e\u{301}").unwrap(); // 'e' followed by a combining acute
    assert_eq!(text.len(), 1);
    assert_eq!(text.to_string(), "e\u{301}");
}

#[test]
fn test_live_grapheme_total_matches_len_at_quiescence() {
    let mut text = FugueText::new("client1".to_string());
    text.insert(0, "Hello").unwrap();
    text.insert(5, " World").unwrap();
    assert_eq!(text.live_grapheme_total(), Some(text.len()));
}

#[test]
fn test_from_parts_round_trip() {
    // Delete exactly the first block's span, so the rendered buffer and
    // the store concatenation agree and the round trip is lossless.
    let mut original = FugueText::new("client1".to_string());
    original.insert(0, "Hello").unwrap();
    original.insert(5, " World").unwrap();
    original.delete(0, 5).unwrap();

    let blocks: Vec<Block> = original.blocks().iter().cloned().collect();
    let rebuilt = FugueText::from_parts(blocks, original.clock(), original.client_id().to_string());

    assert_eq!(rebuilt.to_string(), original.to_string());
    assert_eq!(rebuilt.clock(), original.clock());
    assert_eq!(rebuilt.client_id(), original.client_id());
    assert_eq!(rebuilt.block_count(), original.block_count());
}

#[test]
fn test_from_parts_reorders_blocks() {
    let mut original = FugueText::new("client1".to_string());
    original.insert(0, "ab").unwrap();
    original.insert(2, "cd").unwrap();

    let mut blocks: Vec<Block> = original.blocks().iter().cloned().collect();
    blocks.reverse(); // the array order is a hint only
    let rebuilt = FugueText::from_parts(blocks, original.clock(), "client1".to_string());

    assert_eq!(rebuilt.to_string(), "abcd");
}

#[test]
fn test_merge_is_infallible_and_raises_clock() {
    let mut a = FugueText::new("A".to_string());
    let mut b = FugueText::new("B".to_string());
    b.insert(0, "x").unwrap();
    b.insert(1, "y").unwrap();
    assert!(a.merge(&b).is_ok());
    assert_eq!(a.clock(), 2);
    assert_eq!(a.to_string(), "xy");
}

#[test]
fn test_clone_is_equal_view() {
    let mut a = FugueText::new("A".to_string());
    a.insert(0, "Hello").unwrap();
    let c = a.clone();
    assert_eq!(c.to_string(), a.to_string());
    assert_eq!(c.len(), a.len());
    assert_eq!(c.clock(), a.clock());
    assert_eq!(c.client_id(), a.client_id());
}

#[test]
fn test_str_cmp_orders_lexicographically() {
    assert_eq!(str_cmp("abc", "abd"), -1);
    assert_eq!(str_cmp("abd", "abc"), 1);
    assert_eq!(str_cmp("abc", "abc"), 0);
    assert_eq!(str_cmp("ab", "abc"), -1);
    assert_eq!(str_cmp("abc", "ab"), 1);
    assert_eq!(str_cmp("", "a"), -1);
}

#[test]
fn test_clock_dominant_order_across_merges() {
    // After observing a remote block with a higher clock, the next local
    // insert sorts after it in store order.
    let mut a = FugueText::new("A".to_string());
    let mut b = FugueText::new("B".to_string());
    a.insert(0, "1").unwrap();
    b.merge(&a).unwrap();
    b.insert(1, "2").unwrap();
    a.merge(&b).unwrap();
    a.insert(2, "3").unwrap();
    b.merge(&a).unwrap();
    assert_eq!(a.to_string(), "123");
    assert_eq!(b.to_string(), "123");
}

#[test]
fn test_insert_middle_renders_at_position() {
    let mut text = FugueText::new("client1".to_string());
    text.insert(0, "Hd").unwrap();
    text.insert(1, "ello Worl").unwrap();
    assert_eq!(text.to_string(), "Hello World");
}
