//! Result of a parallel group scan: one bit per lane, at a fixed stride
//! inside an unsigned word.  Iteration reports set lanes in ascending
//! order by repeatedly clearing the lowest set lane.

use vstd::prelude::*;

verus! {

/// Number of tag lanes in a group.
pub const GROUP_WIDTH: usize = 8;

/// Distance in bits between two consecutive lanes of the mask word.
pub const BITMASK_STRIDE: usize = 4;

/// Word with the bit of every real lane set; everything a query may report.
pub const BITMASK_MASK: u32 = 0x1111_1111;

/// Word iteration masks with, so that only multiples of the stride are ever
/// reported even when other bits of the raw word are set.
pub const BITMASK_ITER_MASK: u32 = 0x1111_1111;

/// Lane `i` is reported by the raw word `w` when the bit at `4 * i`
/// (a multiple of the stride) is set.
pub open spec fn lane_bit(w: u32, i: u32) -> bool
    recommends
        i < 8,
{
    (w >> ((4 * i) as u32)) & 1u32 == 1u32
}

/// Which lanes in a group matched a predicate, one bit per lane at
/// multiples of the stride.
#[derive(Clone, Copy, PartialEq, Eq, Structural, Debug)]
pub struct BitMask(pub u32);

proof fn lemma_or_lane(w: u32, i: u32, j: u32)
    by (bit_vector)
    requires
        i < 8,
        j < 8,
    ensures
        lane_bit(w | (1u32 << ((4 * i) as u32)), j) == (lane_bit(w, j) || j == i),
{
}

proof fn lemma_clear_lane(w: u32, i: u32, j: u32)
    by (bit_vector)
    requires
        i < 8,
        j < 8,
    ensures
        lane_bit(w & !(1u32 << ((4 * i) as u32)), j) == (lane_bit(w, j) && j != i),
        lane_bit(w, i) ==> (w & !(1u32 << ((4 * i) as u32))) < w,
{
}

proof fn lemma_zero_lane(i: u32)
    by (bit_vector)
    requires
        i < 8,
    ensures
        !lane_bit(0u32, i),
{
}

/// Reads one lane of a raw mask word.
pub fn lane_test(w: u32, i: usize) -> (b: bool)
    requires
        i < 8,
    ensures
        b == lane_bit(w, i as u32),
{
    let sh: u32 = 4 * (i as u32);
    ((w >> sh) & 1) == 1
}

/// Returns `w` with lane `i` set and every other lane unchanged.
pub fn with_lane(w: u32, i: usize) -> (r: u32)
    requires
        i < 8,
    ensures
        forall|j: u32| j < 8 ==> lane_bit(r, j) == (lane_bit(w, j) || j == i as u32),
{
    let sh: u32 = 4 * (i as u32);
    let r = w | (1u32 << sh);
    proof {
        assert forall|j: u32| j < 8 implies lane_bit(r, j) == (lane_bit(w, j) || j == i as u32) by {
            lemma_or_lane(w, i as u32, j);
        }
    }
    r
}

impl BitMask {
    /// The mask that reports no lane.
    pub fn none() -> (m: BitMask)
        ensures
            forall|i: u32| i < 8 ==> !lane_bit(m.0, i),
    {
        proof {
            assert forall|i: u32| i < 8 implies !lane_bit(0u32, i) by {
                lemma_zero_lane(i);
            }
        }
        BitMask(0)
    }

    /// True when at least one lane is reported.
    pub fn any_bit_set(&self) -> (b: bool)
        ensures
            b == exists|i: u32| i < 8 && lane_bit(self.0, i),
    {
        match self.lowest_set_bit() {
            Some(i) => {
                proof {
                    assert(i < 8 && lane_bit(self.0, i as u32));
                }
                true
            },
            None => false,
        }
    }

    /// True when no lane is reported.
    pub fn is_empty(&self) -> (b: bool)
        ensures
            b == forall|i: u32| i < 8 ==> !lane_bit(self.0, i),
    {
        match self.lowest_set_bit() {
            Some(i) => {
                proof {
                    assert(i < 8 && lane_bit(self.0, i as u32));
                }
                false
            },
            None => true,
        }
    }

    /// Index of the lowest reported lane, if any lane is reported.
    pub fn lowest_set_bit(&self) -> (r: Option<usize>)
        ensures
            match r {
                Some(i) => i < 8 && lane_bit(self.0, i as u32) && forall|j: u32|
                    j < i ==> !lane_bit(self.0, j),
                None => forall|j: u32| j < 8 ==> !lane_bit(self.0, j),
            },
    {
        let mut k: usize = 0;
        while k < 8
            invariant
                k <= 8,
                forall|j: u32| j < k ==> !lane_bit(self.0, j),
            decreases 8 - k,
        {
            if lane_test(self.0, k) {
                return Some(k);
            }
            k = k + 1;
        }
        None
    }

    /// Number of lanes below the lowest reported lane (8 when none is).
    pub fn trailing_zero_lanes(&self) -> (n: usize)
        ensures
            n <= 8,
            forall|j: u32| j < n ==> !lane_bit(self.0, j),
            n < 8 ==> lane_bit(self.0, n as u32),
    {
        match self.lowest_set_bit() {
            Some(i) => i,
            None => 8,
        }
    }

    /// Number of lanes above the highest reported lane (8 when none is).
    pub fn leading_zero_lanes(&self) -> (n: usize)
        ensures
            n <= 8,
            forall|j: u32| 8 - n <= j < 8 ==> !lane_bit(self.0, j),
            n < 8 ==> lane_bit(self.0, (7 - n) as u32),
    {
        let mut k: usize = 8;
        while k > 0
            invariant
                k <= 8,
                forall|j: u32| k <= j < 8 ==> !lane_bit(self.0, j),
            decreases k,
        {
            if lane_test(self.0, k - 1) {
                return 8 - k;
            }
            k = k - 1;
        }
        8
    }

    /// Yields the lowest reported lane and clears it, or reports that no
    /// lane is left.
    pub fn next_lane(&mut self) -> (r: Option<usize>)
        ensures
            match r {
                Some(i) => {
                    &&& i < 8
                    &&& lane_bit(old(self).0, i as u32)
                    &&& forall|j: u32| j < i ==> !lane_bit(old(self).0, j)
                    &&& forall|j: u32|
                        j < 8 ==> lane_bit(final(self).0, j) == (lane_bit(old(self).0, j) && j
                            != i as u32)
                    &&& final(self).0 < old(self).0
                },
                None => {
                    &&& *final(self) == *old(self)
                    &&& forall|j: u32| j < 8 ==> !lane_bit(final(self).0, j)
                },
            },
    {
        match self.lowest_set_bit() {
            Some(i) => {
                let sh: u32 = 4 * (i as u32);
                let w = self.0;
                self.0 = w & !(1u32 << sh);
                proof {
                    assert forall|j: u32|
                        j < 8 implies lane_bit(self.0, j) == (lane_bit(w, j) && j != i as u32) by {
                        lemma_clear_lane(w, i as u32, j);
                    }
                    lemma_clear_lane(w, i as u32, 0);
                }
                Some(i)
            },
            None => None,
        }
    }

    /// The reported lanes, in strictly ascending order, one entry per set
    /// multiple-of-stride bit of the raw word and nothing else.
    pub fn lane_indices(&self) -> (v: Vec<usize>)
        ensures
            forall|a: int, b: int| 0 <= a < b < v@.len() ==> v@[a] < v@[b],
            forall|a: int| 0 <= a < v@.len() ==> v@[a] < 8,
            forall|i: u32| i < 8 ==> lane_bit(self.0, i) == v@.contains(i as usize),
    {
        let mut m = BitMask(self.0);
        let mut v: Vec<usize> = Vec::new();
        loop
            invariant
                forall|j: u32| j < 8 ==> lane_bit(m.0, j) ==> lane_bit(self.0, j),
                forall|j: u32|
                    j < 8 ==> lane_bit(self.0, j) == (v@.contains(j as usize) || lane_bit(m.0, j)),
                forall|a: int| 0 <= a < v@.len() ==> v@[a] < 8,
                forall|a: int, j: u32|
                    0 <= a < v@.len() && j < 8 && lane_bit(m.0, j) ==> v@[a] < j as usize,
                forall|a: int, b: int| 0 <= a < b < v@.len() ==> v@[a] < v@[b],
            decreases m.0,
        {
            let ghost prev = v@;
            match m.next_lane() {
                Some(i) => {
                    v.push(i);
                    proof {
                        assert(v@ == prev.push(i));
                        assert forall|j: usize|
                            j < 8 implies #[trigger] v@.contains(j) == (prev.contains(j) || j
                            == i) by {
                            if prev.contains(j) {
                                let a = choose|a: int| 0 <= a < prev.len() && prev[a] == j;
                                assert(v@[a] == j);
                            }
                            if j == i {
                                assert(v@[v@.len() - 1] == j);
                            }
                            if v@.contains(j) {
                                let a = choose|a: int| 0 <= a < v@.len() && v@[a] == j;
                                if a < prev.len() {
                                    assert(prev[a] == j);
                                } else {
                                    assert(v@[a] == i);
                                }
                            }
                        }
                    }
                },
                None => {
                    return v;
                },
            }
        }
    }
}

} // verus!
