use wail::slot::{ClientChannelMapping, SlotTable, MAX_SLOTS};

fn mapping(id: &str, ch: u16) -> ClientChannelMapping {
    ClientChannelMapping::new(id, ch)
}

#[test]
fn assign_returns_slot_zero_for_first() {
    let mut table = SlotTable::new();
    assert_eq!(table.assign(&mapping("alice", 0)), Some(0));
}

#[test]
fn assign_is_idempotent() {
    let mut table = SlotTable::new();
    let m = mapping("alice", 0);
    assert_eq!(table.assign(&m), Some(0));
    assert_eq!(table.assign(&m), Some(0));
}

#[test]
fn different_mappings_get_different_slots() {
    let mut table = SlotTable::new();
    assert_eq!(table.assign(&mapping("alice", 0)), Some(0));
    assert_eq!(table.assign(&mapping("bob", 0)), Some(1));
}

#[test]
fn two_channels_same_client_get_separate_slots() {
    let mut table = SlotTable::new();
    assert_eq!(table.assign(&mapping("alice", 0)), Some(0));
    assert_eq!(table.assign(&mapping("alice", 1)), Some(1));
}

#[test]
fn release_and_reclaim_via_affinity() {
    let mut table = SlotTable::new();
    let m = mapping("alice", 0);
    assert_eq!(table.assign(&m), Some(0));

    // Another peer takes slot 1
    assert_eq!(table.assign(&mapping("bob", 0)), Some(1));

    // Alice disconnects
    table.release(&m);
    assert!(!table.is_occupied(0));

    // Alice reconnects — should reclaim slot 0
    assert_eq!(table.assign(&m), Some(0));
}

#[test]
fn release_all_for_client() {
    let mut table = SlotTable::new();
    assert_eq!(table.assign(&mapping("alice", 0)), Some(0));
    assert_eq!(table.assign(&mapping("alice", 1)), Some(1));
    assert_eq!(table.assign(&mapping("bob", 0)), Some(2));

    table.release_all_for_client("alice");
    assert!(!table.is_occupied(0));
    assert!(!table.is_occupied(1));
    assert!(table.is_occupied(2));

    // Alice channels reclaim via affinity
    assert_eq!(table.assign(&mapping("alice", 0)), Some(0));
    assert_eq!(table.assign(&mapping("alice", 1)), Some(1));
}

#[test]
fn full_capacity_returns_none() {
    let mut table = SlotTable::new();
    for i in 0..MAX_SLOTS {
        assert!(table.assign(&mapping(&format!("peer-{i}"), 0)).is_some());
    }
    assert_eq!(table.assign(&mapping("overflow", 0)), None);
}

#[test]
fn clear_resets_everything() {
    let mut table = SlotTable::new();
    table.assign(&mapping("alice", 0));
    table.release(&mapping("alice", 0));
    table.clear();

    // No affinity — alice gets whatever is free (slot 0)
    assert_eq!(table.assign(&mapping("alice", 0)), Some(0));
    // But this tests that reserved was cleared (slot 0 was free, not reserved)
    assert!(table.active_mappings().len() == 1);
}

#[test]
fn clear_active_to_reserved_preserves_affinity() {
    let mut table = SlotTable::new();
    assert_eq!(table.assign(&mapping("alice", 0)), Some(0));
    assert_eq!(table.assign(&mapping("bob", 0)), Some(1));

    table.clear_active_to_reserved();
    assert!(!table.is_occupied(0));
    assert!(!table.is_occupied(1));
    assert!(table.active_mappings().is_empty());

    // Both reclaim via affinity
    assert_eq!(table.assign(&mapping("alice", 0)), Some(0));
    assert_eq!(table.assign(&mapping("bob", 0)), Some(1));
}

#[test]
fn slot_for_returns_active_slot() {
    let mut table = SlotTable::new();
    let m = mapping("alice", 0);
    assert_eq!(table.slot_for(&m), None);
    table.assign(&m);
    assert_eq!(table.slot_for(&m), Some(0));
    table.release(&m);
    assert_eq!(table.slot_for(&m), None);
}

#[test]
fn short_id_format() {
    let m = ClientChannelMapping::new("abcdef1234567890", 3);
    assert_eq!(m.short_id(), "abcdef:3");

    let short = ClientChannelMapping::new("ab", 0);
    assert_eq!(short.short_id(), "ab:0");
}

#[test]
fn affinity_survives_slot_taken_by_another() {
    let mut table = SlotTable::new();
    let alice = mapping("alice", 0);
    let bob = mapping("bob", 0);

    // Alice gets slot 0
    assert_eq!(table.assign(&alice), Some(0));
    // Alice leaves — slot 0 reserved
    table.release(&alice);

    // Bob takes slot 0 (no affinity for bob, lowest free)
    assert_eq!(table.assign(&bob), Some(0));

    // Alice reconnects — slot 0 is taken, falls through to next free
    assert_eq!(table.assign(&alice), Some(1));
}

#[test]
fn rekey_client_preserves_slot() {
    let mut table = SlotTable::new();
    // Assign under fallback peer_id key
    let fallback = mapping("peer-abc", 0);
    assert_eq!(table.assign(&fallback), Some(0));

    // Identity becomes known — re-key to persistent UUID
    table.rekey_client("peer-abc", "uuid-alice");

    // The slot is now accessible under the new key
    let real = mapping("uuid-alice", 0);
    assert_eq!(table.slot_for(&real), Some(0));
    // Old key no longer resolves
    assert_eq!(table.slot_for(&fallback), None);
    // Only one slot occupied
    assert_eq!(table.active_mappings().len(), 1);
}

#[test]
fn rekey_client_works_for_reserved() {
    let mut table = SlotTable::new();
    let fallback = mapping("peer-abc", 0);
    assert_eq!(table.assign(&fallback), Some(0));
    table.release(&fallback);

    // Re-key while reserved
    table.rekey_client("peer-abc", "uuid-alice");

    // Reclaim under the new key
    let real = mapping("uuid-alice", 0);
    assert_eq!(table.assign(&real), Some(0));
}

#[test]
fn released_client_comes_back_in_any_order() {
    let mut table = SlotTable::new();
    table.assign(&mapping("bob", 0));
    for ch in 0..3 {
        table.assign(&mapping("alice", ch));
    }
    table.release_all_for_client("alice");
    assert_eq!(table.active_mappings().len(), 1);
    assert!(table.is_occupied(0) && !table.is_occupied(1) && !table.is_occupied(3));
    assert_eq!(table.assign(&mapping("alice", 2)), Some(3));
    assert_eq!(table.assign(&mapping("alice", 0)), Some(1));
    assert_eq!(table.assign(&mapping("alice", 1)), Some(2));
}

#[test]
fn reserved_channels_come_back_in_any_order() {
    let mut table = SlotTable::new();
    for id in ["a", "b", "c"] {
        table.assign(&mapping(id, 0));
    }
    table.clear_active_to_reserved();
    assert!(table.active_mappings().is_empty());
    assert_eq!(table.assign(&mapping("c", 0)), Some(2));
    assert_eq!(table.assign(&mapping("a", 0)), Some(0));
    assert_eq!(table.assign(&mapping("b", 0)), Some(1));
}

#[test]
fn reclaim_returns_the_slots_in_order_once() {
    let mut table = SlotTable::new();
    table.assign(&mapping("alice", 7));
    table.assign(&mapping("bob", 0));
    table.assign(&mapping("alice", 3));
    table.release_all_for_client("alice");
    assert_eq!(table.reclaim_reserved_for_client("alice"), vec![(7, 0), (3, 2)]);
    assert_eq!(table.reclaim_reserved_for_client("alice"), vec![]);
    assert_eq!(table.slot_for(&mapping("bob", 0)), Some(1));
}

#[test]
fn reclaim_drops_a_reservation_of_a_channel_that_holds_a_slot() {
    let mut table = SlotTable::new();
    table.assign(&mapping("bob", 0));
    table.assign(&mapping("alice", 0));
    table.release_all_for_client("bob");
    table.release_all_for_client("alice");
    assert_eq!(table.assign(&mapping("peer", 0)), Some(0));
    table.rekey_client("peer", "alice");
    assert_eq!(table.reclaim_reserved_for_client("alice"), vec![]);
    assert_eq!(table.slot_for(&mapping("alice", 0)), Some(0));
    assert_eq!(table.active_mappings().len(), 1);
    assert!(!table.is_occupied(1));
}

#[test]
fn rekey_frees_a_slot_held_twice() {
    let mut table = SlotTable::new();
    table.assign(&mapping("alice", 0));
    table.assign(&mapping("alice", 1));
    table.assign(&mapping("peer", 0));
    table.rekey_client("peer", "alice");
    assert_eq!(table.slot_for(&mapping("alice", 0)), Some(0));
    assert_eq!(table.slot_for(&mapping("alice", 1)), Some(1));
    assert_eq!(table.active_mappings().len(), 2);
    assert!(!table.is_occupied(2));
    table.rekey_client("alice", "alice");
    assert_eq!(table.active_mappings().len(), 2);
}

#[test]
fn rekey_keeps_the_mapping_that_stands_first() {
    let mut table = SlotTable::new();
    table.assign(&mapping("peer", 0));
    table.assign(&mapping("alice", 0));
    table.assign(&mapping("alice", 1));
    table.assign(&mapping("peer", 1));
    table.rekey_client("peer", "alice");
    assert_eq!(table.slot_for(&mapping("alice", 0)), Some(0));
    assert_eq!(table.slot_for(&mapping("alice", 1)), Some(2));
    assert_eq!(table.slot_for(&mapping("peer", 0)), None);
    assert!(!table.is_occupied(1));
    assert!(!table.is_occupied(3));
    assert_eq!(table.assign(&mapping("bob", 0)), Some(1));
}
