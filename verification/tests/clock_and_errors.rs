use synckit_core::LamportClock;
use synckit_core::NodeId;
use synckit_core::TextError;

#[test]
fn test_lamport_clock() {
    let mut clock = LamportClock::new();
    assert_eq!(clock.value(), 0);

    let ts1 = clock.tick();
    assert_eq!(ts1, 1);

    let ts2 = clock.tick();
    assert_eq!(ts2, 2);

    clock.update(5);
    assert_eq!(clock.value(), 5);

    let ts3 = clock.tick();
    assert_eq!(ts3, 6);
}

#[test]
fn test_lamport_clock_default() {
    let clock = LamportClock::default();
    assert_eq!(clock.value(), 0);
}

#[test]
fn test_lamport_clock_update_keeps_max() {
    let mut clock = LamportClock::new();
    clock.update(7);
    clock.update(3);
    assert_eq!(clock.value(), 7);
}

#[test]
fn test_position_error_message() {
    let e = TextError::PositionOutOfBounds { position: 10, length: 0 };
    assert_eq!(e.message(), "Position 10 out of bounds (length: 0)");
}

#[test]
fn test_range_error_message() {
    let e = TextError::RangeOutOfBounds { start: 3, end: 12, length: 5 };
    assert_eq!(e.message(), "Range 3..12 out of bounds (length: 5)");
}

#[test]
fn test_block_not_found_message() {
    let id = NodeId::new("client1".to_string(), 42, 0);
    let e = TextError::BlockNotFound(id);
    assert_eq!(e.message(), "Block not found: client1@42:0");
}

#[test]
fn test_split_required_message() {
    let e = TextError::BlockSplitRequired;
    assert_eq!(e.message(), "Block splitting not implemented in Phase 1");
}

#[test]
fn test_rope_error_message() {
    let e = TextError::RopeError("bad slice".to_string());
    assert_eq!(e.message(), "Rope error: bad slice");
}
