//! One-byte control tags: EMPTY, DELETED (tombstone), or FULL with a 7-bit
//! hash fragment.  The top bit of a tag is set exactly when the slot is
//! unoccupied, so "is special" and "is full" are one-comparison tests.

use vstd::prelude::*;

verus! {

/// Byte value of the EMPTY tag: top bit set, all remaining bits set.
pub const EMPTY_BYTE: u8 = 0xff;

/// Byte value of the DELETED (tombstone) tag: top bit set, all remaining
/// bits clear.
pub const DELETED_BYTE: u8 = 0x80;

/// One control byte of the table's metadata array.
#[derive(Clone, Copy, PartialEq, Eq, Structural, Debug)]
pub struct Tag(pub u8);

/// A tag marks an occupied slot exactly when its top bit is clear.
pub open spec fn spec_is_full(t: Tag) -> bool {
    t.0 < 0x80
}

/// A tag is special (EMPTY or DELETED) exactly when its top bit is set.
pub open spec fn spec_is_special(t: Tag) -> bool {
    t.0 >= 0x80
}

/// The EMPTY tag.
pub open spec fn spec_empty() -> Tag {
    Tag(EMPTY_BYTE)
}

/// The DELETED tag.
pub open spec fn spec_deleted() -> Tag {
    Tag(DELETED_BYTE)
}

/// The FULL tag for a hash: its low 7 bits, top bit clear.
pub open spec fn spec_full(hash: u64) -> Tag {
    Tag((hash % 0x80) as u8)
}

/// The three states a tag of a well-formed table can be in.
pub open spec fn spec_valid(t: Tag) -> bool {
    spec_is_full(t) || t == spec_empty() || t == spec_deleted()
}

/// The per-tag transform of the tombstone-reclamation pass:
/// EMPTY and DELETED become EMPTY, FULL becomes DELETED.
pub open spec fn spec_converted(t: Tag) -> Tag {
    if spec_is_special(t) {
        spec_empty()
    } else {
        spec_deleted()
    }
}

impl Tag {
    /// The EMPTY tag.
    pub fn empty() -> (t: Tag)
        ensures
            t == spec_empty(),
    {
        Tag(EMPTY_BYTE)
    }

    /// The DELETED (tombstone) tag.
    pub fn deleted() -> (t: Tag)
        ensures
            t == spec_deleted(),
    {
        Tag(DELETED_BYTE)
    }

    /// The FULL tag holding the low 7 bits of `hash`.
    pub fn full(hash: u64) -> (t: Tag)
        ensures
            t == spec_full(hash),
            spec_is_full(t),
    {
        Tag((hash % 0x80) as u8)
    }

    /// True exactly when the tag marks an occupied slot.
    pub fn is_full(&self) -> (b: bool)
        ensures
            b == spec_is_full(*self),
    {
        self.0 < 0x80
    }

    /// True exactly when the tag is EMPTY or DELETED.
    pub fn is_special(&self) -> (b: bool)
        ensures
            b == spec_is_special(*self),
    {
        self.0 >= 0x80
    }

    /// Distinguishes EMPTY from every other tag byte.
    pub fn special_is_empty(&self) -> (b: bool)
        ensures
            b == (*self == spec_empty()),
    {
        self.0 == EMPTY_BYTE
    }

    /// Applies the tombstone-reclamation transform to one tag.
    pub fn converted(&self) -> (t: Tag)
        ensures
            t == spec_converted(*self),
    {
        if self.0 >= 0x80 {
            Tag(EMPTY_BYTE)
        } else {
            Tag(DELETED_BYTE)
        }
    }
}

/// Round trip of the tag encoding: a FULL tag built from any hash is full
/// and not special, while EMPTY and DELETED are special and not full.
pub proof fn lemma_tag_encoding(hash: u64)
    ensures
        spec_is_full(spec_full(hash)),
        !spec_is_special(spec_full(hash)),
        spec_is_special(spec_empty()),
        spec_is_special(spec_deleted()),
        !spec_is_full(spec_empty()),
        !spec_is_full(spec_deleted()),
{
}

/// A tag is full exactly when it is not special.
pub proof fn lemma_full_is_not_special(t: Tag)
    ensures
        spec_is_full(t) <==> !spec_is_special(t),
{
}

/// The reclamation transform fixes EMPTY, clears tombstones, and turns
/// every occupied tag into a tombstone; a second application therefore
/// erases whatever the first one left.
pub proof fn lemma_converted_cases(t: Tag)
    ensures
        spec_converted(spec_empty()) == spec_empty(),
        spec_converted(spec_deleted()) == spec_empty(),
        spec_is_full(t) ==> spec_converted(t) == spec_deleted(),
        spec_is_special(t) ==> spec_converted(t) == spec_empty(),
        spec_converted(spec_converted(t)) == spec_empty(),
{
}

} // verus!
