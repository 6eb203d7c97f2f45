//! A fixed-width window of control tags scanned as one unit.  Every
//! predicate answers with a `BitMask` holding one bit per lane; the scalar
//! backend computes the lanes with ordinary byte loops.

use vstd::prelude::*;

use crate::bitmask::{lane_bit, with_lane, BitMask};
use crate::tag::{
    spec_converted, spec_empty, spec_is_full, spec_is_special, Tag,
};

verus! {

/// The per-lane reclamation transform applied to a whole tag sequence.
pub open spec fn spec_converted_tags(s: Seq<Tag>) -> Seq<Tag> {
    s.map_values(|t: Tag| spec_converted(t))
}

/// A block of `GROUP_WIDTH` control tags, loaded and stored as one unit.
#[derive(Clone, Copy, Debug)]
pub struct Group(pub [Tag; 8]);

impl Group {
    /// An all-EMPTY group: the control array of a zero-capacity table.
    pub fn static_empty() -> (g: Group)
        ensures
            forall|l: int| 0 <= l < 8 ==> g.0@[l] == spec_empty(),
    {
        let e = Tag::empty();
        Group([e, e, e, e, e, e, e, e])
    }

    /// Reads the eight tags starting at `pos`; the start need not be
    /// aligned to the group width.
    pub fn load(ctrl: &Vec<Tag>, pos: usize) -> (g: Group)
        requires
            pos + 8 <= ctrl@.len(),
        ensures
            forall|l: int| 0 <= l < 8 ==> g.0@[l] == ctrl@[pos + l],
    {
        let e = Tag::empty();
        let n = ctrl.len();
        let mut tags: [Tag; 8] = [e, e, e, e, e, e, e, e];
        let mut l: usize = 0;
        while l < 8
            invariant
                l <= 8,
                pos + 8 <= n,
                n == ctrl@.len(),
                tags@.len() == 8,
                forall|k: int| 0 <= k < l ==> tags@[k] == ctrl@[pos + k],
            decreases 8 - l,
        {
            tags[l] = ctrl[pos + l];
            l = l + 1;
        }
        Group(tags)
    }

    /// Reads the eight tags starting at `pos`, which must be a multiple of
    /// the group width.
    pub fn load_aligned(ctrl: &Vec<Tag>, pos: usize) -> (g: Group)
        requires
            pos % 8 == 0,
            pos + 8 <= ctrl@.len(),
        ensures
            forall|l: int| 0 <= l < 8 ==> g.0@[l] == ctrl@[pos + l],
    {
        Group::load(ctrl, pos)
    }

    /// Writes the eight tags of the group back at `pos`, which must be a
    /// multiple of the group width.
    pub fn store_aligned(&self, ctrl: &mut Vec<Tag>, pos: usize)
        requires
            pos % 8 == 0,
            pos + 8 <= old(ctrl)@.len(),
        ensures
            final(ctrl)@.len() == old(ctrl)@.len(),
            forall|k: int|
                0 <= k < old(ctrl)@.len() ==> final(ctrl)@[k] == if pos <= k < pos + 8 {
                    self.0@[k - pos]
                } else {
                    old(ctrl)@[k]
                },
    {
        let n = ctrl.len();
        let mut l: usize = 0;
        while l < 8
            invariant
                l <= 8,
                pos + 8 <= n,
                n == ctrl@.len(),
                ctrl@.len() == old(ctrl)@.len(),
                forall|k: int|
                    0 <= k < ctrl@.len() ==> ctrl@[k] == if pos <= k < pos + l {
                        self.0@[k - pos]
                    } else {
                        old(ctrl)@[k]
                    },
            decreases 8 - l,
        {
            ctrl[pos + l] = self.0[l];
            l = l + 1;
        }
    }

    /// A mask with a lane set wherever the group's tag byte equals `t`.
    /// For FULL queries this is an exact byte compare including the hash
    /// fragment: a pre-filter whose hits still need a real key comparison.
    pub fn match_tag(&self, t: Tag) -> (m: BitMask)
        ensures
            forall|l: u32| l < 8 ==> lane_bit(m.0, l) == (self.0@[l as int] == t),
    {
        let mut w: u32 = BitMask::none().0;
        let mut l: usize = 0;
        while l < 8
            invariant
                l <= 8,
                forall|j: u32| j < 8 ==> lane_bit(w, j) == (j < l && self.0@[j as int] == t),
            decreases 8 - l,
        {
            if self.0[l] == t {
                w = with_lane(w, l);
            }
            l = l + 1;
        }
        BitMask(w)
    }

    /// A mask with a lane set exactly where the tag is EMPTY.
    pub fn match_empty(&self) -> (m: BitMask)
        ensures
            forall|l: u32| l < 8 ==> lane_bit(m.0, l) == (self.0@[l as int] == spec_empty()),
    {
        self.match_tag(Tag::empty())
    }

    /// A mask with a lane set exactly where the tag is EMPTY or DELETED.
    pub fn match_empty_or_deleted(&self) -> (m: BitMask)
        ensures
            forall|l: u32| l < 8 ==> lane_bit(m.0, l) == spec_is_special(self.0@[l as int]),
    {
        let mut w: u32 = BitMask::none().0;
        let mut l: usize = 0;
        while l < 8
            invariant
                l <= 8,
                forall|j: u32| j < 8 ==> lane_bit(w, j) == (j < l && spec_is_special(self.0@[j as int])),
            decreases 8 - l,
        {
            if self.0[l].is_special() {
                w = with_lane(w, l);
            }
            l = l + 1;
        }
        BitMask(w)
    }

    /// A mask with a lane set exactly where the tag marks an occupied slot.
    pub fn match_full(&self) -> (m: BitMask)
        ensures
            forall|l: u32| l < 8 ==> lane_bit(m.0, l) == spec_is_full(self.0@[l as int]),
    {
        let mut w: u32 = BitMask::none().0;
        let mut l: usize = 0;
        while l < 8
            invariant
                l <= 8,
                forall|j: u32| j < 8 ==> lane_bit(w, j) == (j < l && spec_is_full(self.0@[j as int])),
            decreases 8 - l,
        {
            if self.0[l].is_full() {
                w = with_lane(w, l);
            }
            l = l + 1;
        }
        BitMask(w)
    }

    /// Returns the group with every EMPTY or DELETED lane turned EMPTY and
    /// every FULL lane turned DELETED, the pass of the in-place rehash.
    pub fn convert_special_to_empty_and_full_to_deleted(&self) -> (g: Group)
        ensures
            forall|l: int| 0 <= l < 8 ==> g.0@[l] == spec_converted(self.0@[l]),
    {
        let e = Tag::empty();
        let mut tags: [Tag; 8] = [e, e, e, e, e, e, e, e];
        let mut l: usize = 0;
        while l < 8
            invariant
                l <= 8,
                tags@.len() == 8,
                forall|k: int| 0 <= k < l ==> tags@[k] == spec_converted(self.0@[k]),
            decreases 8 - l,
        {
            tags[l] = self.0[l].converted();
            l = l + 1;
        }
        Group(tags)
    }
}

/// Exactness of the occupancy scans: whatever masks satisfy the contracts
/// of `match_full` and `match_empty_or_deleted` for one group are lane-wise
/// complements of each other.
pub proof fn lemma_match_full_complements_special(g: Group, mf: u32, ms: u32)
    requires
        forall|l: u32| l < 8 ==> lane_bit(mf, l) == spec_is_full(g.0@[l as int]),
        forall|l: u32| l < 8 ==> lane_bit(ms, l) == spec_is_special(g.0@[l as int]),
    ensures
        forall|l: u32| l < 8 ==> lane_bit(mf, l) == !lane_bit(ms, l),
{
}

/// Fixed points of the reclamation transform on whole tag sequences: an
/// all-EMPTY block stays all EMPTY, an all-FULL block becomes all DELETED,
/// and on a block already free of FULL lanes a second application changes
/// nothing.
pub proof fn lemma_convert_fixed_points(s: Seq<Tag>)
    ensures
        spec_converted_tags(s).len() == s.len(),
        (forall|l: int| 0 <= l < s.len() ==> s[l] == spec_empty()) ==> spec_converted_tags(s) =~= s,
        (forall|l: int| 0 <= l < s.len() ==> spec_is_full(s[l])) ==> (forall|l: int|
            0 <= l < s.len() ==> spec_converted_tags(s)[l] == crate::tag::spec_deleted()),
        (forall|l: int| 0 <= l < s.len() ==> spec_is_special(s[l])) ==> spec_converted_tags(
            spec_converted_tags(s),
        ) =~= spec_converted_tags(s),
{
}

} // verus!
