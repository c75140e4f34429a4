use synckit_core::FugueText;
use synckit_core::TextError;

#[test]
fn test_new() {
    let text = FugueText::new("client1".to_string());
    assert_eq!(text.len(), 0);
    assert_eq!(text.to_string(), "");
    assert_eq!(text.client_id(), "client1");
    assert_eq!(text.clock(), 0);
}

#[test]
fn test_insert_single() {
    let mut text = FugueText::new("client1".to_string());
    text.insert(0, "Hello").unwrap();

    assert_eq!(text.len(), 5);
    assert_eq!(text.to_string(), "Hello");
    assert_eq!(text.clock(), 1); // Clock ticked once
}

#[test]
fn test_insert_multiple() {
    let mut text = FugueText::new("client1".to_string());
    text.insert(0, "Hello").unwrap();
    text.insert(5, " ").unwrap();
    text.insert(6, "World").unwrap();

    assert_eq!(text.to_string(), "Hello World");
    assert_eq!(text.clock(), 3); // Clock ticked 3 times
}

#[test]
fn test_insert_out_of_bounds() {
    let mut text = FugueText::new("client1".to_string());
    let result = text.insert(10, "test");

    assert!(result.is_err());
    match result {
        Err(TextError::PositionOutOfBounds { position, length }) => {
            assert_eq!(position, 10);
            assert_eq!(length, 0);
        }
        _ => panic!("Expected PositionOutOfBounds error"),
    }
}

#[test]
fn test_delete_single() {
    let mut text = FugueText::new("client1".to_string());
    text.insert(0, "Hello World").unwrap();
    text.delete(5, 6).unwrap();

    assert_eq!(text.to_string(), "Hello");
    assert_eq!(text.len(), 5);
}

#[test]
fn test_delete_out_of_bounds() {
    let mut text = FugueText::new("client1".to_string());
    text.insert(0, "Hello").unwrap();

    let result = text.delete(0, 10);
    assert!(result.is_err());
}

#[test]
fn test_concurrent_insert() {
    let mut text1 = FugueText::new("client1".to_string());
    let mut text2 = FugueText::new("client2".to_string());

    // Both insert at position 0
    text1.insert(0, "A").unwrap();
    text2.insert(0, "B").unwrap();

    // Merge
    text1.merge(&text2).unwrap();
    text2.merge(&text1).unwrap();

    // Should converge (order determined by Lamport timestamp + client_id)
    assert_eq!(text1.to_string(), text2.to_string());
}

#[test]
fn test_convergence() {
    let mut text1 = FugueText::new("client1".to_string());
    let mut text2 = FugueText::new("client2".to_string());

    // Complex concurrent operations
    text1.insert(0, "Hello").unwrap();
    text2.insert(0, "World").unwrap();

    text1.insert(5, " there").unwrap();
    text2.insert(5, "!").unwrap();

    // Merge both ways
    text1.merge(&text2).unwrap();
    text2.merge(&text1).unwrap();

    // Must converge
    assert_eq!(text1.to_string(), text2.to_string());
}

#[test]
fn test_unicode_emoji() {
    let mut text = FugueText::new("client1".to_string());
    text.insert(0, "Hello 👋").unwrap();

    assert_eq!(text.len(), 7); // 5 chars + space + emoji (1 grapheme)
    assert_eq!(text.to_string(), "Hello 👋");
}

#[test]
fn test_empty_string_insert() {
    let mut text = FugueText::new("client1".to_string());
    text.insert(0, "").unwrap();
    assert_eq!(text.len(), 0);
    assert_eq!(text.to_string(), "");
}

#[test]
fn test_large_text_insert() {
    let mut text = FugueText::new("client1".to_string());
    let large_text = "a".repeat(10000);
    text.insert(0, &large_text).unwrap();
    assert_eq!(text.len(), 10000);
    assert_eq!(text.to_string(), large_text);
}

#[test]
fn test_delete_entire_text() {
    let mut text = FugueText::new("client1".to_string());
    text.insert(0, "Hello World").unwrap();
    text.delete(0, 11).unwrap();
    assert_eq!(text.len(), 0);
    assert_eq!(text.to_string(), "");
}

#[test]
fn test_delete_then_insert_same_position() {
    let mut text = FugueText::new("client1".to_string());
    text.insert(0, "Hello World").unwrap();
    text.delete(6, 5).unwrap(); // Delete "World"
    text.insert(6, "Rust").unwrap(); // Insert "Rust"
    assert_eq!(text.to_string(), "Hello Rust");
}

#[test]
fn test_three_way_concurrent_insert() {
    let mut text1 = FugueText::new("client1".to_string());
    let mut text2 = FugueText::new("client2".to_string());
    let mut text3 = FugueText::new("client3".to_string());

    // All three clients insert at position 0
    text1.insert(0, "A").unwrap();
    text2.insert(0, "B").unwrap();
    text3.insert(0, "C").unwrap();

    // Merge all
    text1.merge(&text2).unwrap();
    text1.merge(&text3).unwrap();
    text2.merge(&text1).unwrap();
    text3.merge(&text1).unwrap();

    // All should converge
    let result = text1.to_string();
    assert_eq!(text2.to_string(), result);
    assert_eq!(text3.to_string(), result);
    assert!(result.contains('A') && result.contains('B') && result.contains('C'));
}

#[test]
fn test_interleaved_operations() {
    let mut text1 = FugueText::new("client1".to_string());
    let mut text2 = FugueText::new("client2".to_string());

    text1.insert(0, "Hello").unwrap();
    text2.merge(&text1).unwrap();

    text1.insert(5, " World").unwrap();
    text2.insert(5, " Rust").unwrap();

    text1.merge(&text2).unwrap();
    text2.merge(&text1).unwrap();

    assert_eq!(text1.to_string(), text2.to_string());
}

#[test]
fn test_multiple_sequential_merges() {
    let mut text1 = FugueText::new("client1".to_string());
    let mut text2 = FugueText::new("client2".to_string());

    text1.insert(0, "A").unwrap();
    text2.merge(&text1).unwrap();

    text2.insert(1, "B").unwrap();
    text1.merge(&text2).unwrap();

    text1.insert(2, "C").unwrap();
    text2.merge(&text1).unwrap();

    assert_eq!(text1.to_string(), "ABC");
    assert_eq!(text2.to_string(), "ABC");
}

#[test]
fn test_concurrent_delete_and_insert() {
    let mut text1 = FugueText::new("client1".to_string());
    let mut text2 = FugueText::new("client2".to_string());

    text1.insert(0, "Hello World").unwrap();
    text2.merge(&text1).unwrap();

    text1.delete(6, 5).unwrap(); // Delete "World"
    text2.insert(11, "!").unwrap(); // Insert "!" at end

    text1.merge(&text2).unwrap();
    text2.merge(&text1).unwrap();

    assert_eq!(text1.to_string(), text2.to_string());
}

#[test]
fn test_network_partition_simulation() {
    let mut text1 = FugueText::new("client1".to_string());
    let mut text2 = FugueText::new("client2".to_string());
    let mut text3 = FugueText::new("client3".to_string());

    // Initial state
    text1.insert(0, "Start").unwrap();
    text2.merge(&text1).unwrap();
    text3.merge(&text1).unwrap();

    // Network partition: clients 1 and 2 can communicate, but not with 3
    text1.insert(5, " A").unwrap();
    text2.insert(5, " B").unwrap();
    text3.insert(5, " C").unwrap();

    // Partial merge (1 and 2)
    text1.merge(&text2).unwrap();
    text2.merge(&text1).unwrap();

    // Network heals
    text1.merge(&text3).unwrap();
    text2.merge(&text3).unwrap();
    text3.merge(&text1).unwrap();

    // All converge
    let result = text1.to_string();
    assert_eq!(text2.to_string(), result);
    assert_eq!(text3.to_string(), result);
}

#[test]
fn test_rle_optimization() {
    let mut text = FugueText::new("client1".to_string());
    text.insert(0, "Hello").unwrap();

    // With run-length encoding, "Hello" is stored in one block
    assert_eq!(text.block_count(), 1);

    // Insert at different position creates new block
    text.insert(0, "Hi ").unwrap();
    assert_eq!(text.block_count(), 2);
}

#[test]
fn test_rtl_text() {
    let mut text = FugueText::new("client1".to_string());
    text.insert(0, "مرحبا").unwrap(); // Arabic "Hello"
    assert_eq!(text.to_string(), "مرحبا");
    assert!(!text.is_empty());
}

#[test]
fn test_combining_characters() {
    let mut text = FugueText::new("client1".to_string());
    text.insert(0, "é").unwrap(); // e with combining acute accent
    assert_eq!(text.len(), 1); // Should count as 1 grapheme
}

#[test]
fn test_mixed_scripts() {
    let mut text = FugueText::new("client1".to_string());
    text.insert(0, "Hello世界🌍").unwrap(); // English + Chinese + Emoji
    assert_eq!(text.to_string(), "Hello世界🌍");
}

#[test]
fn test_sequential_single_char_inserts() {
    let mut text = FugueText::new("client1".to_string());
    text.insert(0, "H").unwrap();
    text.insert(1, "e").unwrap();
    text.insert(2, "l").unwrap();
    text.insert(3, "l").unwrap();
    text.insert(4, "o").unwrap();
    assert_eq!(text.to_string(), "Hello");
}

#[test]
fn test_is_empty() {
    let mut text = FugueText::new("client1".to_string());
    assert!(text.is_empty());

    text.insert(0, "Hello").unwrap();
    assert!(!text.is_empty());

    text.delete(0, 5).unwrap();
    assert!(text.is_empty());
}

#[test]
fn test_delete_middle() {
    let mut text = FugueText::new("client1".to_string());
    text.insert(0, "Hello World").unwrap();
    text.delete(5, 1).unwrap(); // Delete space
    assert_eq!(text.to_string(), "HelloWorld");
}

#[test]
fn test_delete_beginning() {
    let mut text = FugueText::new("client1".to_string());
    text.insert(0, "Hello World").unwrap();
    text.delete(0, 6).unwrap(); // Delete "Hello "
    assert_eq!(text.to_string(), "World");
}

#[test]
fn test_idempotent_merge() {
    let mut text1 = FugueText::new("client1".to_string());
    text1.insert(0, "Hello").unwrap();

    let state = text1.to_string();

    // Merge with itself should be idempotent
    text1.merge(&text1.clone()).unwrap();
    assert_eq!(text1.to_string(), state);
}

#[test]
fn test_commutative_merge() {
    let mut text1 = FugueText::new("client1".to_string());
    let mut text2 = FugueText::new("client2".to_string());

    text1.insert(0, "A").unwrap();
    text2.insert(0, "B").unwrap();

    let mut text_ab = text1.clone();
    text_ab.merge(&text2).unwrap();

    let mut text_ba = text2.clone();
    text_ba.merge(&text1).unwrap();

    // Merge should be commutative
    assert_eq!(text_ab.to_string(), text_ba.to_string());
}

#[test]
fn test_associative_merge() {
    let mut text1 = FugueText::new("client1".to_string());
    let mut text2 = FugueText::new("client2".to_string());
    let mut text3 = FugueText::new("client3".to_string());

    text1.insert(0, "A").unwrap();
    text2.insert(0, "B").unwrap();
    text3.insert(0, "C").unwrap();

    // (text1 ∪ text2) ∪ text3
    let mut result1 = text1.clone();
    result1.merge(&text2).unwrap();
    result1.merge(&text3).unwrap();

    // text1 ∪ (text2 ∪ text3)
    let mut result2 = text1.clone();
    let mut text23 = text2.clone();
    text23.merge(&text3).unwrap();
    result2.merge(&text23).unwrap();

    // Merge should be associative
    assert_eq!(result1.to_string(), result2.to_string());
}
