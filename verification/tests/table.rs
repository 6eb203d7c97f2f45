//! End-to-end behaviour of the table core: lookups, insertions, removals,
//! tombstones, growth and the capacity-0 fast path.

use swisstable::table::{RawTable, TableError};

/// Hash chosen so that, modulo a control array of `len` bytes, the entry
/// starts probing at group `group` with tag fragment `frag`.
fn hash_for(group: u64, frag: u64) -> u64 {
    // Low 7 bits give the fragment; whole value modulo the capacity gives
    // the start position.  Multiples of 128 leave the fragment alone.
    group * 8 + (frag & 0x7f) * 128 + (frag & 0x7f)
}

#[test]
fn capacity_zero_table() {
    let t = RawTable::new();
    assert_eq!(t.capacity(), 0);
    assert_eq!(t.len(), 0);
    assert_eq!(t.remaining_growth(), 0);
    assert!(t.find(0, 0).is_none());
    assert!(t.find(0xdead_beef, 42).is_none());
}

#[test]
fn insert_on_empty_grows_once() {
    let mut t = RawTable::new();
    let r = t.insert(7, 100);
    assert!(r.is_ok());
    // exactly one grow, to the smallest capacity
    assert_eq!(t.capacity(), 8);
    assert_eq!(t.len(), 1);
    assert!(t.find(7, 100).is_some());
    assert!(t.find(7, 101).is_none());
}

#[test]
fn with_capacity_reserves_threshold() {
    let t = RawTable::with_capacity(3).unwrap();
    assert_eq!(t.capacity(), 8);
    // 7/8 load factor: capacity 8 leaves 7 insertions
    assert_eq!(t.remaining_growth(), 7);
    let t2 = RawTable::with_capacity(8).unwrap();
    assert_eq!(t2.capacity(), 16);
    assert_eq!(t2.remaining_growth(), 14);
    let t0 = RawTable::with_capacity(0).unwrap();
    assert_eq!(t0.capacity(), 0);
}

#[test]
fn with_capacity_overflow_is_detected_untouched() {
    let r = RawTable::with_capacity(usize::MAX);
    assert_eq!(r.err(), Some(TableError::CapacityOverflow));
    let r2 = RawTable::with_capacity(500_000_000);
    assert_eq!(r2.err(), Some(TableError::CapacityOverflow));
}

#[test]
fn duplicate_insert_returns_same_slot() {
    let mut t = RawTable::new();
    let a = t.insert(0x11, 1).unwrap();
    let b = t.insert(0x11, 1).unwrap();
    assert_eq!(a, b);
    assert_eq!(t.len(), 1);
}

#[test]
fn same_group_same_fragment_scenario() {
    // A and B collide on hash entirely; C lives elsewhere.
    let ha = hash_for(0, 0x11);
    let hb = ha;
    let hc = hash_for(0, 0x22);
    let mut t = RawTable::with_capacity(3).unwrap();
    t.insert(ha, 1).unwrap();
    t.insert(hb, 2).unwrap();
    t.insert(hc, 3).unwrap();
    assert_eq!(t.len(), 3);
    let ib = t.find(hb, 2).unwrap();
    let removed = t.remove(ib);
    assert_eq!(removed.key, 2);
    assert_eq!(t.len(), 2);
    assert!(t.find(ha, 1).is_some());
    assert!(t.find(hb, 2).is_none());
    assert!(t.find(hc, 3).is_some());
    // a later key with the same fragment reuses or bypasses the hole
    t.insert(hb, 4).unwrap();
    assert!(t.find(ha, 1).is_some());
    assert!(t.find(hb, 4).is_some());
    assert!(t.find(hc, 3).is_some());
    assert_eq!(t.len(), 3);
}

#[test]
fn removal_in_full_group_leaves_tombstone_probing_works() {
    // Fill the first group of a 16-slot table completely.
    let mut t = RawTable::with_capacity(14).unwrap();
    assert_eq!(t.capacity(), 16);
    for k in 0..8u64 {
        t.insert(hash_for(0, k), k).unwrap();
    }
    assert_eq!(t.len(), 8);
    // The group of the removed slot has no EMPTY lane, so the tag becomes
    // a tombstone and every other key stays findable.
    let i3 = t.find(hash_for(0, 3), 3).unwrap();
    t.remove(i3);
    assert!(t.find(hash_for(0, 3), 3).is_none());
    for k in 0..8u64 {
        if k != 3 {
            assert!(t.find(hash_for(0, k), k).is_some());
        }
    }
    // An insertion with the same fragment reuses the tombstone.
    let before = t.capacity();
    t.insert(hash_for(0, 3), 100).unwrap();
    assert_eq!(t.capacity(), before);
    assert!(t.find(hash_for(0, 3), 100).is_some());
}

#[test]
fn grow_preserves_items_and_entries() {
    let mut t = RawTable::with_capacity(3).unwrap();
    for k in 0..5u64 {
        t.insert(hash_for(0, k), k).unwrap();
    }
    let items_before = t.len();
    t.grow(64);
    assert_eq!(t.capacity(), 64);
    assert_eq!(t.len(), items_before);
    // growth budget re-derived from the threshold of the new capacity
    assert_eq!(t.remaining_growth(), 64 - 64 / 8 - items_before);
    for k in 0..5u64 {
        assert!(t.find(hash_for(0, k), k).is_some());
    }
}

#[test]
fn exhausted_budget_doubles_capacity() {
    let mut t = RawTable::with_capacity(3).unwrap();
    assert_eq!(t.capacity(), 8);
    for k in 0..7u64 {
        t.insert(hash_for(0, k), k).unwrap();
    }
    assert_eq!(t.remaining_growth(), 0);
    t.insert(hash_for(0, 9), 9).unwrap();
    assert_eq!(t.capacity(), 16);
    assert_eq!(t.len(), 8);
    for k in 0..7u64 {
        assert!(t.find(hash_for(0, k), k).is_some());
    }
    assert!(t.find(hash_for(0, 9), 9).is_some());
}

#[test]
fn tombstones_reclaimed_without_growing() {
    let mut t = RawTable::with_capacity(14).unwrap();
    assert_eq!(t.capacity(), 16);
    // Fill group 0 completely, then vacate most of it: the removals leave
    // tombstones because the group never has an EMPTY lane.
    for k in 0..8u64 {
        t.insert(hash_for(0, k), k).unwrap();
    }
    for k in 0..6u64 {
        let i = t.find(hash_for(0, k), k).unwrap();
        t.remove(i);
    }
    assert_eq!(t.len(), 2);
    // Spend the remaining budget on the other group.
    for k in 0..6u64 {
        t.insert(hash_for(1, k), 100 + k).unwrap();
    }
    assert_eq!(t.remaining_growth(), 0);
    assert_eq!(t.len(), 8);
    // Half-empty table: the next insertion reclaims tombstones in place of
    // doubling.
    t.insert(hash_for(1, 40), 200).unwrap();
    assert_eq!(t.capacity(), 16);
    assert_eq!(t.len(), 9);
    assert_eq!(t.remaining_growth(), 14 - 9);
    for k in 6..8u64 {
        assert!(t.find(hash_for(0, k), k).is_some());
    }
    for k in 0..6u64 {
        assert!(t.find(hash_for(1, k), 100 + k).is_some());
    }
    assert!(t.find(hash_for(1, 40), 200).is_some());
}

#[test]
fn many_inserts_removes_never_lose_keys() {
    let mut t = RawTable::new();
    for k in 0..200u64 {
        t.insert(hash_for(k % 5, k), k).unwrap();
    }
    assert_eq!(t.len(), 200);
    for k in (0..200u64).step_by(2) {
        let i = t.find(hash_for(k % 5, k), k).unwrap();
        t.remove(i);
    }
    assert_eq!(t.len(), 100);
    for k in 0..200u64 {
        let found = t.find(hash_for(k % 5, k), k).is_some();
        assert_eq!(found, k % 2 == 1);
    }
    for k in 200..300u64 {
        t.insert(hash_for(k % 5, k), k).unwrap();
    }
    for k in 200..300u64 {
        assert!(t.find(hash_for(k % 5, k), k).is_some());
    }
    assert_eq!(t.len(), 200);
}
