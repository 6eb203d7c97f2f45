//! Behaviour of the control-tag encoding, the group scans, the bitmask
//! iteration and the probe sequence on concrete values.

use swisstable::bitmask::{lane_test, with_lane, BitMask};
use swisstable::group::Group;
use swisstable::probe::ProbeSeq;
use swisstable::tag::Tag;

#[test]
fn tag_full_round_trip() {
    assert!(Tag::full(0x1234).is_full());
    assert!(!Tag::full(0x1234).is_special());
    assert!(Tag::empty().is_special());
    assert!(!Tag::empty().is_full());
    assert!(Tag::deleted().is_special());
    assert!(!Tag::deleted().is_full());
}

#[test]
fn tag_full_keeps_low_seven_bits() {
    assert_eq!(Tag::full(0xab).0, 0x2b);
    assert_eq!(Tag::full(0x7f).0, 0x7f);
    assert_eq!(Tag::full(0x80).0, 0x00);
    assert_eq!(Tag::full(0).0, 0);
}

#[test]
fn tag_byte_values() {
    assert_eq!(Tag::empty().0, 0xff);
    assert_eq!(Tag::deleted().0, 0x80);
}

#[test]
fn tag_special_is_empty() {
    assert!(Tag::empty().special_is_empty());
    assert!(!Tag::deleted().special_is_empty());
}

#[test]
fn tag_converted_cases() {
    assert_eq!(Tag::empty().converted(), Tag::empty());
    assert_eq!(Tag::deleted().converted(), Tag::empty());
    assert_eq!(Tag::full(5).converted(), Tag::deleted());
}

#[test]
fn bitmask_lane_encoding() {
    let w = with_lane(with_lane(0, 2), 5);
    assert_eq!(w, 0x0010_0100);
    for i in 0..8 {
        assert_eq!(lane_test(w, i), i == 2 || i == 5);
    }
}

#[test]
fn bitmask_iteration_ascending() {
    let v = BitMask(0x0010_0100).lane_indices();
    assert_eq!(v, vec![2, 5]);
    let all = BitMask(0x1111_1111).lane_indices();
    assert_eq!(all, vec![0, 1, 2, 3, 4, 5, 6, 7]);
}

#[test]
fn bitmask_iteration_ignores_off_stride_bits() {
    // Only bits at multiples of the stride name lanes.
    let v = BitMask(0x0000_0002).lane_indices();
    assert_eq!(v, Vec::<usize>::new());
    let v2 = BitMask(0x0000_0012).lane_indices();
    assert_eq!(v2, vec![1]);
}

#[test]
fn bitmask_next_lane_clears_lowest() {
    let mut m = BitMask(0x0000_0011);
    assert_eq!(m.next_lane(), Some(0));
    assert_eq!(m.next_lane(), Some(1));
    assert_eq!(m.next_lane(), None);
}

#[test]
fn bitmask_queries() {
    assert!(BitMask(0).is_empty());
    assert!(!BitMask(0).any_bit_set());
    assert_eq!(BitMask(0).lowest_set_bit(), None);
    assert_eq!(BitMask(0).trailing_zero_lanes(), 8);
    assert_eq!(BitMask(0).leading_zero_lanes(), 8);
    let m = BitMask(0x0000_0010);
    assert!(m.any_bit_set());
    assert!(!m.is_empty());
    assert_eq!(m.lowest_set_bit(), Some(1));
    assert_eq!(m.trailing_zero_lanes(), 1);
    assert_eq!(m.leading_zero_lanes(), 6);
}

fn sample_group() -> Group {
    Group([
        Tag::empty(),
        Tag::deleted(),
        Tag::full(5),
        Tag::full(0x7f),
        Tag::empty(),
        Tag::full(0),
        Tag::deleted(),
        Tag::full(5),
    ])
}

#[test]
fn group_static_empty_is_all_empty() {
    let g = Group::static_empty();
    for l in 0..8 {
        assert_eq!(g.0[l], Tag::empty());
    }
}

#[test]
fn group_match_predicates_exact() {
    let g = sample_group();
    assert_eq!(g.match_empty().lane_indices(), vec![0, 4]);
    assert_eq!(g.match_empty_or_deleted().lane_indices(), vec![0, 1, 4, 6]);
    assert_eq!(g.match_full().lane_indices(), vec![2, 3, 5, 7]);
    assert_eq!(g.match_tag(Tag::full(5)).lane_indices(), vec![2, 7]);
    assert_eq!(g.match_tag(Tag::full(0x7f)).lane_indices(), vec![3]);
}

#[test]
fn group_full_complements_empty_or_deleted() {
    let g = sample_group();
    let full = g.match_full();
    let special = g.match_empty_or_deleted();
    for l in 0..8 {
        assert_eq!(lane_test(full.0, l), !lane_test(special.0, l));
    }
}

#[test]
fn group_load_and_store() {
    let mut ctrl: Vec<Tag> = Vec::new();
    for i in 0..16 {
        ctrl.push(Tag::full(i));
    }
    let g = Group::load_aligned(&ctrl, 8);
    for l in 0..8 {
        assert_eq!(g.0[l], Tag::full((8 + l) as u64));
    }
    let unaligned = Group::load(&ctrl, 3);
    for l in 0..8 {
        assert_eq!(unaligned.0[l], Tag::full((3 + l) as u64));
    }
    let all_empty = Group::static_empty();
    all_empty.store_aligned(&mut ctrl, 0);
    for i in 0..8 {
        assert_eq!(ctrl[i], Tag::empty());
    }
    for i in 8..16 {
        assert_eq!(ctrl[i], Tag::full(i as u64));
    }
}

#[test]
fn group_convert_all_empty_fixed() {
    let g = Group::static_empty().convert_special_to_empty_and_full_to_deleted();
    for l in 0..8 {
        assert_eq!(g.0[l], Tag::empty());
    }
}

#[test]
fn group_convert_all_full_to_deleted() {
    let t = Tag::full(9);
    let g = Group([t, t, t, t, t, t, t, t]).convert_special_to_empty_and_full_to_deleted();
    for l in 0..8 {
        assert_eq!(g.0[l], Tag::deleted());
    }
}

#[test]
fn group_convert_second_application_fixed_on_special() {
    let once = sample_group().convert_special_to_empty_and_full_to_deleted();
    // The first pass leaves only EMPTY and DELETED lanes.
    for l in 0..8 {
        assert!(once.0[l].is_special());
    }
    let twice = once.convert_special_to_empty_and_full_to_deleted();
    let thrice = twice.convert_special_to_empty_and_full_to_deleted();
    // On a group free of FULL lanes the transform is idempotent.
    for l in 0..8 {
        assert_eq!(twice.0[l], thrice.0[l]);
        assert_eq!(twice.0[l], Tag::empty());
    }
}

#[test]
fn probe_sequence_triangular_walk() {
    let mut p = ProbeSeq::new(5, 32);
    assert_eq!(p.pos, 0);
    assert_eq!(p.stride, 8);
    let mut seen = vec![p.pos];
    for _ in 0..3 {
        p.move_next(32);
        seen.push(p.pos);
    }
    // Every group-aligned position appears exactly once in one cycle.
    assert_eq!(seen, vec![0, 8, 24, 16]);
}

#[test]
fn probe_sequence_start_is_group_aligned() {
    let p = ProbeSeq::new(0x1f, 32);
    assert_eq!(p.pos, (0x1f % 32) / 8 * 8);
    assert_eq!(p.pos % 8, 0);
}
