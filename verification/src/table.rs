//! Orchestration of the control array, the bucket array and the probe
//! sequence: find, insert, remove and grow, with the occupancy counters
//! and the load-factor policy that bound every probe.
//!
//! The load factor threshold is 7/8 of the capacity; tombstones count
//! against the same growth budget as live entries.  Both are policy
//! constants, tunable without affecting correctness.

use vstd::prelude::*;

use crate::bitmask::lane_bit;
use crate::group::Group;
use crate::probe::{
    lemma_mul_mod_factor, lemma_probe_covers, lemma_probe_group_in_range, probe_group, ProbeSeq,
};
use crate::tag::{
    spec_deleted, spec_empty, spec_full, spec_is_full, spec_is_special, spec_valid, Tag,
};
use vstd::arithmetic::div_mod::{lemma_fundamental_div_mod, lemma_div_is_ordered};
use vstd::arithmetic::power2::{lemma2_to64, lemma_pow2_adds, lemma_pow2_pos, pow2};

verus! {

/// Largest bucket capacity the table will allocate; a grow beyond it is
/// refused before anything is touched.
pub const MAX_CAPACITY: usize = 0x2000_0000;

/// What a grow can fail with.
#[derive(Clone, Copy, PartialEq, Eq, Structural, Debug)]
pub enum TableError {
    /// The requested capacity exceeds the addressable range of the table.
    CapacityOverflow,
}

/// One bucket: the caller's key handle and the full hash it was inserted
/// under.  The caller's hash function must be stable: equal keys must keep
/// equal hashes for the lifetime of the table.
#[derive(Clone, Copy, PartialEq, Eq, Structural, Debug)]
pub struct Bucket {
    pub hash: u64,
    pub key: u64,
}

/// Number of occupied tags in a control sequence.
pub open spec fn count_full(s: Seq<Tag>) -> nat
    decreases s.len(),
{
    if s.len() == 0 {
        0
    } else {
        (if spec_is_full(s[0]) {
            1nat
        } else {
            0nat
        }) + count_full(s.drop_first())
    }
}

/// Number of DELETED tags in a control sequence.
pub open spec fn count_deleted(s: Seq<Tag>) -> nat
    decreases s.len(),
{
    if s.len() == 0 {
        0
    } else {
        (if s[0] == spec_deleted() {
            1nat
        } else {
            0nat
        }) + count_deleted(s.drop_first())
    }
}

/// Insertions a table of capacity `c` accepts before it must grow:
/// the 7/8 load-factor threshold.
pub open spec fn spec_threshold(c: nat) -> nat {
    (c - c / 8) as nat
}

/// No lane of group `g` holds the EMPTY tag.
pub open spec fn group_no_empty(ctrl: Seq<Tag>, g: nat) -> bool {
    forall|l: int| 8 * g <= l < 8 * g + 8 ==> ctrl[l] != spec_empty()
}

/// Every lane of group `g` holds a FULL tag.
pub open spec fn group_all_full(ctrl: Seq<Tag>, g: nat) -> bool {
    forall|l: int| 8 * g <= l < 8 * g + 8 ==> spec_is_full(ctrl[l])
}

/// The probing and control-metadata engine of the hash table.
pub struct RawTable {
    /// Control tags, one per bucket; length is the capacity, or one group
    /// for the zero-capacity table.
    pub ctrl: Vec<Tag>,
    /// Bucket array, parallel to the control tags.
    pub buckets: Vec<Bucket>,
    /// Number of live entries.
    pub items: usize,
    /// Insertions left before a grow is forced.
    pub growth_left: usize,
}

impl RawTable {
    /// Bucket capacity.
    pub open spec fn cap(self) -> nat {
        self.buckets@.len()
    }

    /// Number of groups in the control array.
    pub open spec fn groups(self) -> nat {
        self.ctrl@.len() / 8
    }

    /// Entry `(hash, key)` sits in some occupied bucket.
    pub open spec fn contains_entry(self, hash: u64, key: u64) -> bool {
        exists|j: int|
            0 <= j < self.cap() && spec_is_full(self.ctrl@[j]) && self.buckets@[j].hash == hash
                && self.buckets@[j].key == key
    }

    /// Some occupied bucket holds `key`.
    pub open spec fn has_key(self, key: u64) -> bool {
        exists|j: int|
            0 <= j < self.cap() && spec_is_full(self.ctrl@[j]) && self.buckets@[j].key == key
    }

    /// The caller's hash for `key` agrees with every stored occurrence:
    /// the stable-hasher contract of the caller.
    pub open spec fn hash_consistent_for(self, hash: u64, key: u64) -> bool {
        forall|j: int|
            0 <= j < self.cap() && spec_is_full(self.ctrl@[j]) && self.buckets@[j].key == key
                ==> self.buckets@[j].hash == hash
    }

    /// Entry `(hash, key)` sits in a bucket of index at least `from`.
    pub open spec fn entry_at_or_after(self, hash: u64, key: u64, from: int) -> bool {
        exists|j: int|
            from <= j < self.cap() && spec_is_full(self.ctrl@[j]) && self.buckets@[j].hash == hash
                && self.buckets@[j].key == key
    }

    /// Every group the probe sequence of `hash` visits strictly before it
    /// first reaches group `gj` holds no EMPTY tag, so no lookup of `hash`
    /// stops before reaching `gj`.
    pub open spec fn probe_path_clear(self, hash: u64, gj: nat) -> bool {
        forall|k: nat|
            (forall|m: nat| m <= k ==> #[trigger] probe_group(hash, m, self.groups()) != gj)
                ==> group_no_empty(self.ctrl@, #[trigger] probe_group(hash, k, self.groups()))
    }

    /// Well-formedness: geometry, tag validity, the tag/bucket link, the
    /// occupancy counters, key uniqueness and the probe-path invariant.
    pub open spec fn wf(self) -> bool {
        &&& self.ctrl@.len() == 8 * self.groups()
        &&& self.groups() >= 1
        &&& (exists|e: nat| self.groups() == pow2(e))
        &&& (self.cap() == self.ctrl@.len() || (self.cap() == 0 && self.ctrl@.len() == 8))
        &&& self.cap() <= MAX_CAPACITY
        &&& (forall|i: int| 0 <= i < self.ctrl@.len() ==> spec_valid(#[trigger] self.ctrl@[i]))
        &&& (forall|i: int|
            0 <= i < self.ctrl@.len() && spec_is_full(#[trigger] self.ctrl@[i]) ==> i < self.cap()
                && self.ctrl@[i] == spec_full(self.buckets@[i].hash))
        &&& self.items == count_full(self.ctrl@)
        &&& self.growth_left + count_full(self.ctrl@) + count_deleted(self.ctrl@)
            == spec_threshold(self.cap())
        &&& (forall|i: int, j: int|
            0 <= i < self.cap() && 0 <= j < self.cap() && i != j && spec_is_full(self.ctrl@[i])
                && spec_is_full(self.ctrl@[j]) ==> #[trigger] self.buckets@[i].key
                != #[trigger] self.buckets@[j].key)
        &&& (forall|j: int|
            0 <= j < self.cap() && spec_is_full(#[trigger] self.ctrl@[j])
                ==> self.probe_path_clear(self.buckets@[j].hash, (j / 8) as nat))
    }

    /// A fresh zero-capacity table: one all-EMPTY group and no buckets, no
    /// allocation proportional to any capacity.
    #[verifier::loop_isolation(false)]
    pub fn new() -> (t: RawTable)
        ensures
            t.wf(),
            t.cap() == 0,
            t.items == 0,
            t.growth_left == 0,
            forall|h: u64, k: u64| !t.contains_entry(h, k),
    {
        let g = Group::static_empty();
        let mut ctrl: Vec<Tag> = Vec::new();
        let mut l: usize = 0;
        while l < 8
            invariant
                l <= 8,
                ctrl@.len() == l,
                forall|i: int| 0 <= i < l ==> ctrl@[i] == spec_empty(),
            decreases 8 - l,
        {
            ctrl.push(g.0[l]);
            l = l + 1;
        }
        let t = RawTable { ctrl, buckets: Vec::new(), items: 0, growth_left: 0 };
        proof {
            lemma2_to64();
            assert(t.groups() == pow2(0));
            lemma_count_both_all_empty(t.ctrl@);
        }
        t
    }

    /// Entry `(hash, key)` sits in one of the lanes of group `g`.
    pub open spec fn group_has_entry(self, hash: u64, key: u64, g: nat) -> bool {
        exists|l: int|
            8 * g <= l < 8 * g + 8 && l < self.cap() && spec_is_full(self.ctrl@[l])
                && self.buckets@[l].hash == hash && self.buckets@[l].key == key
    }

    /// Looks `key` up under `hash`.  Succeeds exactly on the keys that are
    /// present under that hash: a `None` rules the entry out of the whole
    /// table, however many tombstones probing had to skip.
    #[verifier::loop_isolation(false)]
    #[verifier::rlimit(60)]
    pub fn find(&self, hash: u64, key: u64) -> (r: Option<usize>)
        requires
            self.wf(),
        ensures
            match r {
                Some(i) => i < self.cap() && spec_is_full(self.ctrl@[i as int])
                    && self.buckets@[i as int].key == key,
                None => !self.contains_entry(hash, key),
            },
    {
        let ctrl_len = self.ctrl.len();
        let g_count = ctrl_len / 8;
        let ghost gn = self.groups();
        let tag = Tag::full(hash);
        let mut probe = ProbeSeq::new(hash, ctrl_len);
        let mut n: usize = 0;
        while n < g_count
            invariant
                n <= g_count,
                probe.pos == 8 * probe_group(hash, n as nat, gn),
                probe.stride == 8 * (n + 1),
                forall|m: nat|
                    m < n ==> !self.group_has_entry(
                        hash,
                        key,
                        #[trigger] probe_group(hash, m, gn),
                    ),
            decreases g_count - n,
        {
            proof {
                lemma_probe_group_in_range(hash, n as nat, gn);
            }
            let group = Group::load_aligned(&self.ctrl, probe.pos);
            let mask = group.match_tag(tag);
            let mut l: usize = 0;
            while l < 8
                invariant
                    l <= 8,
                    n < g_count,
                    probe.pos == 8 * probe_group(hash, n as nat, gn),
                    probe.pos + 8 <= ctrl_len,
                    forall|u: u32|
                        u < 8 ==> lane_bit(mask.0, u) == (self.ctrl@[probe.pos + u] == spec_full(
                            hash,
                        )),
                    forall|u: int|
                        0 <= u < l ==> !(spec_is_full(#[trigger] self.ctrl@[probe.pos + u])
                            && self.buckets@[probe.pos + u].hash == hash && self.buckets@[probe.pos
                            + u].key == key),
                decreases 8 - l,
            {
                if crate::bitmask::lane_test(mask.0, l) {
                    let idx = probe.pos + l;
                    proof {
                        assert(self.ctrl@[idx as int] == spec_full(hash));
                        assert(spec_is_full(self.ctrl@[idx as int]));
                    }
                    if self.buckets[idx].key == key {
                        return Some(idx);
                    }
                }
                l = l + 1;
            }
            proof {
                assert(!self.group_has_entry(hash, key, probe_group(hash, n as nat, gn))) by {
                    let gcur = probe_group(hash, n as nat, gn);
                    if self.group_has_entry(hash, key, gcur) {
                        let j = choose|j: int|
                            8 * gcur <= j < 8 * gcur + 8 && j < self.cap() && spec_is_full(
                                self.ctrl@[j],
                            ) && self.buckets@[j].hash == hash && self.buckets@[j].key == key;
                        assert(!(spec_is_full(self.ctrl@[probe.pos + (j - probe.pos)])
                            && self.buckets@[probe.pos + (j - probe.pos)].hash == hash
                            && self.buckets@[probe.pos + (j - probe.pos)].key == key));
                        assert(false);
                    }
                }
            }
            let empties = group.match_empty();
            if empties.any_bit_set() {
                proof {
                    let gcur = probe_group(hash, n as nat, gn);
                    let le = choose|le: u32| le < 8 && lane_bit(empties.0, le);
                    assert(self.ctrl@[probe.pos + le as int] == spec_empty());
                    if self.contains_entry(hash, key) {
                        let j = choose|j: int|
                            0 <= j < self.cap() && spec_is_full(self.ctrl@[j])
                                && self.buckets@[j].hash == hash && self.buckets@[j].key == key;
                        let gj = (j / 8) as nat;
                        lemma_fundamental_div_mod(j, 8);
                        assert(8 * gj <= j < 8 * gj + 8);
                        assert(self.group_has_entry(hash, key, gj));
                        assert(self.probe_path_clear(hash, gj));
                        if exists|m: nat| m <= n as nat && #[trigger] probe_group(hash, m, gn)
                            == gj {
                            let m0 = choose|m: nat|
                                m <= n as nat && #[trigger] probe_group(hash, m, gn) == gj;
                            if m0 < n as nat {
                                assert(!self.group_has_entry(
                                    hash,
                                    key,
                                    probe_group(hash, m0, gn),
                                ));
                            }
                            assert(false);
                        } else {
                            assert(forall|m: nat|
                                m <= n as nat ==> #[trigger] probe_group(hash, m, gn) != gj);
                            assert(group_no_empty(self.ctrl@, probe_group(hash, n as nat, gn)));
                            assert(self.ctrl@[8 * gcur + le as int] != spec_empty());
                            assert(false);
                        }
                    }
                }
                return None;
            }
            proof {
                let x = (probe_group(hash, n as nat, gn) + (n + 1)) as nat;
                lemma_mul_mod_factor(x, gn);
                assert(probe_group(hash, (n + 1) as nat, gn) == x as int % gn as int);
            }
            probe.move_next(ctrl_len);
            n = n + 1;
        }
        proof {
            if self.contains_entry(hash, key) {
                let j = choose|j: int|
                    0 <= j < self.cap() && spec_is_full(self.ctrl@[j]) && self.buckets@[j].hash
                        == hash && self.buckets@[j].key == key;
                let gj = (j / 8) as nat;
                lemma_fundamental_div_mod(j, 8);
                assert(8 * gj <= j < 8 * gj + 8);
                assert(self.group_has_entry(hash, key, gj));
                let e = choose|e: nat| gn == pow2(e);
                vstd::arithmetic::div_mod::lemma_multiply_divide_lt(j, 8, gn as int);
                lemma_probe_covers(hash, e, gj);
                let k = choose|k: nat| k < pow2(e) && probe_group(hash, k, pow2(e)) == gj;
                assert(!self.group_has_entry(hash, key, probe_group(hash, k, gn)));
                assert(false);
            }
        }
        None
    }

    /// First-fit slot search for an insertion: walks the probe sequence of
    /// `hash` and returns the lowest EMPTY-or-DELETED lane of the first
    /// group that has one.  The growth budget guarantees such a lane.
    #[verifier::loop_isolation(false)]
    #[verifier::rlimit(60)]
    fn find_insert_slot(&self, hash: u64) -> (idx: usize)
        requires
            self.wf(),
            self.growth_left >= 1,
        ensures
            idx < self.cap(),
            spec_is_special(self.ctrl@[idx as int]),
            forall|k: nat|
                (forall|m: nat|
                    m <= k ==> #[trigger] probe_group(hash, m, self.groups()) != (idx / 8) as nat)
                    ==> group_all_full(self.ctrl@, #[trigger] probe_group(hash, k, self.groups())),
    {
        proof {
            assert(self.cap() > 0);
            assert(count_full(self.ctrl@) + count_deleted(self.ctrl@) < self.ctrl@.len());
            lemma_counts_give_empty(self.ctrl@);
        }
        let ghost ie = choose|i: int|
            0 <= i < self.ctrl@.len() && self.ctrl@[i] == spec_empty();
        let ghost ge = (ie / 8) as nat;
        let ctrl_len = self.ctrl.len();
        let g_count = ctrl_len / 8;
        let ghost gn = self.groups();
        let mut probe = ProbeSeq::new(hash, ctrl_len);
        let mut n: usize = 0;
        while n < g_count
            invariant
                n <= g_count,
                probe.pos == 8 * probe_group(hash, n as nat, gn),
                probe.stride == 8 * (n + 1),
                forall|m: nat|
                    m < n ==> group_all_full(self.ctrl@, #[trigger] probe_group(hash, m, gn)),
            decreases g_count - n,
        {
            proof {
                lemma_probe_group_in_range(hash, n as nat, gn);
            }
            let group = Group::load_aligned(&self.ctrl, probe.pos);
            let mask = group.match_empty_or_deleted();
            match mask.lowest_set_bit() {
                Some(l) => {
                    let idx = probe.pos + l;
                    proof {
                        let gcur = probe_group(hash, n as nat, gn);
                        assert(spec_is_special(self.ctrl@[idx as int]));
                        assert(idx < self.cap());
                        vstd::arithmetic::div_mod::lemma_fundamental_div_mod_converse(
                            idx as int,
                            8,
                            gcur as int,
                            l as int,
                        );
                        assert((idx / 8) as nat == gcur);
                        assert forall|k: nat|
                            (forall|m: nat|
                                m <= k ==> #[trigger] probe_group(hash, m, gn) != (
                                idx / 8) as nat) implies group_all_full(
                            self.ctrl@,
                            #[trigger] probe_group(hash, k, gn),
                        ) by {
                            if k < n as nat {
                            } else {
                                assert(probe_group(hash, n as nat, gn) != gcur);
                                assert(false);
                            }
                        }
                    }
                    return idx;
                },
                None => {
                    proof {
                        assert forall|l2: int|
                            8 * probe_group(hash, n as nat, gn) <= l2 < 8 * probe_group(
                                hash,
                                n as nat,
                                gn,
                            ) + 8 implies spec_is_full(self.ctrl@[l2]) by {
                            let u = l2 - probe.pos;
                            assert(!lane_bit(mask.0, u as u32));
                            assert(!spec_is_special(self.ctrl@[probe.pos + u]));
                        }
                    }
                },
            }
            proof {
                let x = (probe_group(hash, n as nat, gn) + (n + 1)) as nat;
                lemma_mul_mod_factor(x, gn);
            }
            probe.move_next(ctrl_len);
            n = n + 1;
        }
        proof {
            let e = choose|e: nat| gn == pow2(e);
            vstd::arithmetic::div_mod::lemma_multiply_divide_lt(ie, 8, gn as int);
            lemma_fundamental_div_mod(ie, 8);
            lemma_probe_covers(hash, e, ge);
            let k = choose|k: nat| k < pow2(e) && probe_group(hash, k, pow2(e)) == ge;
            assert(group_all_full(self.ctrl@, probe_group(hash, k, gn)));
            assert(spec_is_full(self.ctrl@[ie]));
            assert(false);
        }
        vstd::pervasive::unreached()
    }

    /// Writes a fresh entry into the slot the probe sequence assigns it,
    /// without touching the growth policy.  The key must not be present.
    fn insert_no_grow(&mut self, hash: u64, key: u64) -> (idx: usize)
        requires
            old(self).wf(),
            old(self).growth_left >= 1,
            !old(self).has_key(key),
        ensures
            final(self).wf(),
            idx < final(self).cap(),
            final(self).cap() == old(self).cap(),
            final(self).ctrl@.len() == old(self).ctrl@.len(),
            final(self).items == old(self).items + 1,
            final(self).growth_left >= old(self).growth_left - 1,
            final(self).growth_left <= old(self).growth_left,
            count_deleted(final(self).ctrl@) <= count_deleted(old(self).ctrl@),
            spec_is_full(final(self).ctrl@[idx as int]),
            final(self).buckets@[idx as int] == (Bucket { hash, key }),
            forall|h: u64, k: u64|
                final(self).contains_entry(h, k) == (old(self).contains_entry(h, k) || (h == hash
                    && k == key)),
    {
        let idx = self.find_insert_slot(hash);
        let ghost oldt = *self;
        let ghost oldtag = self.ctrl@[idx as int];
        let t = Tag::full(hash);
        let was_empty = self.ctrl[idx].special_is_empty();
        self.ctrl[idx] = t;
        self.buckets[idx] = Bucket { hash, key };
        self.items = self.items + 1;
        if was_empty {
            self.growth_left = self.growth_left - 1;
        }
        proof {
            lemma_count_update(oldt.ctrl@, idx as int, t);
            assert(self.groups() == oldt.groups());
            // Turning one special lane FULL removes no tag a probe relies on.
            assert forall|g: nat|
                g < oldt.groups() && group_no_empty(oldt.ctrl@, g) implies group_no_empty(
                self.ctrl@,
                g,
            ) by {
                assert forall|l: int| 8 * g <= l < 8 * g + 8 implies self.ctrl@[l]
                    != spec_empty() by {
                    if l == idx as int {
                    } else {
                        assert(self.ctrl@[l] == oldt.ctrl@[l]);
                    }
                }
            }
            assert forall|j: int|
                0 <= j < self.cap() && spec_is_full(#[trigger] self.ctrl@[j]) implies self
                .probe_path_clear(self.buckets@[j].hash, (j / 8) as nat) by {
                let h = self.buckets@[j].hash;
                let gj = (j / 8) as nat;
                assert forall|k: nat|
                    (forall|m: nat|
                        m <= k ==> #[trigger] probe_group(h, m, self.groups()) != gj)
                        implies group_no_empty(
                    self.ctrl@,
                    #[trigger] probe_group(h, k, self.groups()),
                ) by {
                    lemma_probe_group_in_range(h, k, oldt.groups());
                    if j == idx as int {
                        assert(h == hash);
                        assert(forall|m: nat|
                            m <= k ==> #[trigger] probe_group(hash, m, oldt.groups()) != (
                            idx / 8) as nat) by {
                            assert forall|m: nat|
                                m <= k implies #[trigger] probe_group(hash, m, oldt.groups()) != (
                            idx / 8) as nat by {
                                assert(probe_group(h, m, self.groups()) != gj);
                            }
                        }
                        assert(group_all_full(oldt.ctrl@, probe_group(hash, k, oldt.groups())));
                        assert forall|l: int|
                            8 * probe_group(h, k, oldt.groups()) <= l < 8 * probe_group(
                                h,
                                k,
                                oldt.groups(),
                            ) + 8 implies oldt.ctrl@[l] != spec_empty() by {
                            assert(spec_is_full(oldt.ctrl@[l]));
                        }
                        assert(group_no_empty(oldt.ctrl@, probe_group(h, k, oldt.groups())));
                    } else {
                        assert(oldt.probe_path_clear(h, gj));
                        assert(group_no_empty(oldt.ctrl@, probe_group(h, k, oldt.groups())));
                    }
                }
            }
            assert forall|h: u64, k: u64|
                final(self).contains_entry(h, k) == (oldt.contains_entry(h, k) || (h == hash && k
                    == key)) by {
                if oldt.contains_entry(h, k) {
                    let j = choose|j: int|
                        0 <= j < oldt.cap() && spec_is_full(oldt.ctrl@[j]) && oldt.buckets@[j].hash
                            == h && oldt.buckets@[j].key == k;
                    assert(j != idx as int);
                    assert(spec_is_full(self.ctrl@[j]));
                    assert(self.buckets@[j] == oldt.buckets@[j]);
                    assert(self.contains_entry(h, k));
                }
                if h == hash && k == key {
                    assert(self.ctrl@[idx as int] == spec_full(hash));
                    assert(self.contains_entry(h, k));
                }
                if self.contains_entry(h, k) {
                    let j = choose|j: int|
                        0 <= j < self.cap() && spec_is_full(self.ctrl@[j]) && self.buckets@[j].hash
                            == h && self.buckets@[j].key == k;
                    if j == idx as int {
                    } else {
                        assert(oldt.contains_entry(h, k));
                    }
                }
            }
        }
        idx
    }

    /// Rehashes every live entry into a fresh pair of arrays of capacity
    /// `new_capacity`.  Items are unchanged, every findable key stays
    /// findable, tombstones are discarded, and the growth budget is
    /// re-derived from the load-factor threshold of the new capacity.
    #[verifier::loop_isolation(false)]
    #[verifier::rlimit(60)]
    pub fn grow(&mut self, new_capacity: usize)
        requires
            old(self).wf(),
            exists|e: nat| new_capacity == pow2(e),
            8 <= new_capacity <= MAX_CAPACITY,
            old(self).items <= spec_threshold(new_capacity as nat),
        ensures
            final(self).wf(),
            final(self).cap() == new_capacity,
            final(self).items == old(self).items,
            final(self).growth_left == spec_threshold(new_capacity as nat) - old(self).items,
            forall|h: u64, k: u64|
                final(self).contains_entry(h, k) == old(self).contains_entry(h, k),
    {
        let mut ctrl: Vec<Tag> = Vec::new();
        let mut i: usize = 0;
        while i < new_capacity
            invariant
                i <= new_capacity,
                ctrl@.len() == i,
                forall|j: int| 0 <= j < i ==> ctrl@[j] == spec_empty(),
            decreases new_capacity - i,
        {
            ctrl.push(Tag::empty());
            i = i + 1;
        }
        let mut buckets: Vec<Bucket> = Vec::new();
        let mut i2: usize = 0;
        while i2 < new_capacity
            invariant
                i2 <= new_capacity,
                buckets@.len() == i2,
            decreases new_capacity - i2,
        {
            buckets.push(Bucket { hash: 0, key: 0 });
            i2 = i2 + 1;
        }
        let mut nt = RawTable {
            ctrl,
            buckets,
            items: 0,
            growth_left: new_capacity - new_capacity / 8,
        };
        proof {
            let e = choose|e: nat| new_capacity == pow2(e);
            lemma2_to64();
            if e < 3 {
                assert(pow2(e) < 8) by {
                    vstd::arithmetic::power2::lemma_pow2_strictly_increases(e, 3);
                }
            }
            lemma_pow2_adds(3, (e - 3) as nat);
            assert(new_capacity == 8 * pow2((e - 3) as nat));
            vstd::arithmetic::div_mod::lemma_div_by_multiple(pow2((e - 3) as nat) as int, 8);
            assert(nt.groups() == pow2((e - 3) as nat));
            lemma_count_both_all_empty(nt.ctrl@);
            assert(nt.wf());
            if self.cap() == 0 {
                assert forall|ii: int|
                    0 <= ii < self.ctrl@.len() implies !spec_is_full(self.ctrl@[ii]) by {}
                lemma_count_full_zero(self.ctrl@);
            }
        }
        let cap_old = self.buckets.len();
        proof {
            if self.cap() > 0 {
                assert(self.ctrl@.subrange(0, cap_old as int) =~= self.ctrl@);
            } else {
                assert(self.ctrl@.subrange(0, 0) =~= Seq::<Tag>::empty());
            }
        }
        let mut i3: usize = 0;
        while i3 < cap_old
            invariant
                i3 <= cap_old,
                nt.wf(),
                nt.cap() == new_capacity,
                nt.ctrl@.len() == new_capacity,
                count_deleted(nt.ctrl@) == 0,
                nt.items + count_full(self.ctrl@.subrange(i3 as int, cap_old as int))
                    == self.items,
                forall|h: u64, k: u64| nt.contains_entry(h, k) ==> self.contains_entry(h, k),
                forall|h: u64, k: u64|
                    self.contains_entry(h, k) ==> (nt.contains_entry(h, k)
                        || self.entry_at_or_after(h, k, i3 as int)),
                forall|key: u64|
                    nt.has_key(key) ==> exists|j: int|
                        0 <= j < i3 && spec_is_full(#[trigger] self.ctrl@[j])
                            && self.buckets@[j].key == key,
            decreases cap_old - i3,
        {
            let tg = self.ctrl[i3];
            let ghost ntpre = nt;
            proof {
                lemma_count_suffix_step(self.ctrl@, i3 as int);
            }
            if tg.is_full() {
                let b = self.buckets[i3];
                proof {
                    assert(!nt.has_key(b.key)) by {
                        if nt.has_key(b.key) {
                            let j = choose|j: int|
                                0 <= j < i3 && spec_is_full(#[trigger] self.ctrl@[j])
                                    && self.buckets@[j].key == b.key;
                            assert(false);
                        }
                    }
                    assert(nt.growth_left >= 1);
                }
                nt.insert_no_grow(b.hash, b.key);
                proof {
                    assert forall|h: u64, k: u64|
                        self.contains_entry(h, k) implies (nt.contains_entry(h, k)
                        || self.entry_at_or_after(h, k, i3 + 1)) by {
                        if self.entry_at_or_after(h, k, i3 as int) {
                            let j = choose|j: int|
                                i3 <= j < self.cap() && spec_is_full(self.ctrl@[j])
                                    && self.buckets@[j].hash == h && self.buckets@[j].key == k;
                            if j == i3 as int {
                                assert(nt.contains_entry(h, k));
                            } else {
                                assert(self.entry_at_or_after(h, k, i3 + 1));
                            }
                        }
                    }
                    assert forall|key: u64|
                        nt.has_key(key) implies exists|j: int|
                        0 <= j < i3 + 1 && spec_is_full(#[trigger] self.ctrl@[j])
                            && self.buckets@[j].key == key by {
                        let jn = choose|jn: int|
                            0 <= jn < nt.cap() && spec_is_full(nt.ctrl@[jn])
                                && nt.buckets@[jn].key == key;
                        if ntpre.has_key(key) {
                            let j0 = choose|j0: int|
                                0 <= j0 < i3 && spec_is_full(#[trigger] self.ctrl@[j0])
                                    && self.buckets@[j0].key == key;
                            assert(spec_is_full(self.ctrl@[j0]) && self.buckets@[j0].key == key);
                        } else {
                            assert(nt.contains_entry(b.hash, b.key));
                            assert(key == b.key) by {
                                if key != b.key {
                                    assert(ntpre.contains_entry(nt.buckets@[jn].hash, key));
                                    assert(false);
                                }
                            }
                            assert(spec_is_full(self.ctrl@[i3 as int])
                                && self.buckets@[i3 as int].key == key);
                        }
                    }
                }
            } else {
                proof {
                    assert forall|h: u64, k: u64|
                        self.contains_entry(h, k) implies (nt.contains_entry(h, k)
                        || self.entry_at_or_after(h, k, i3 + 1)) by {
                        if self.entry_at_or_after(h, k, i3 as int) {
                            let j = choose|j: int|
                                i3 <= j < self.cap() && spec_is_full(self.ctrl@[j])
                                    && self.buckets@[j].hash == h && self.buckets@[j].key == k;
                            assert(j != i3 as int);
                            assert(self.entry_at_or_after(h, k, i3 + 1));
                        }
                    }
                }
            }
            i3 = i3 + 1;
        }
        proof {
            assert(count_full(self.ctrl@.subrange(cap_old as int, cap_old as int)) == 0);
            assert forall|h: u64, k: u64|
                nt.contains_entry(h, k) == self.contains_entry(h, k) by {
                if self.contains_entry(h, k) {
                    assert(!self.entry_at_or_after(h, k, cap_old as int)) by {
                        if self.entry_at_or_after(h, k, cap_old as int) {
                            let j = choose|j: int|
                                cap_old <= j < self.cap() && spec_is_full(self.ctrl@[j])
                                    && self.buckets@[j].hash == h && self.buckets@[j].key == k;
                            assert(false);
                        }
                    }
                }
            }
            assert(nt.growth_left == spec_threshold(new_capacity as nat) - nt.items);
        }
        *self = nt;
    }

    /// Inserts `key` under `hash`.  A key already present is never
    /// duplicated: its existing slot is returned and nothing changes.
    /// Otherwise the entry goes to the first-fit slot of its probe
    /// sequence, growing or compacting the table first when the growth
    /// budget is spent; the one failure is a grow past the largest
    /// capacity, reported before anything is touched.
    #[verifier::rlimit(100)]
    pub fn insert(&mut self, hash: u64, key: u64) -> (r: Result<usize, TableError>)
        requires
            old(self).wf(),
            old(self).hash_consistent_for(hash, key),
        ensures
            final(self).wf(),
            match r {
                Ok(i) => {
                    &&& i < final(self).cap()
                    &&& spec_is_full(final(self).ctrl@[i as int])
                    &&& final(self).buckets@[i as int] == (Bucket { hash, key })
                    &&& forall|h: u64, k: u64|
                        final(self).contains_entry(h, k) == (old(self).contains_entry(h, k) || (h
                            == hash && k == key))
                    &&& final(self).items == old(self).items + (if old(self).contains_entry(
                        hash,
                        key,
                    ) {
                        0int
                    } else {
                        1int
                    })
                    &&& (old(self).contains_entry(hash, key) ==> final(self).ctrl@ == old(
                        self,
                    ).ctrl@ && final(self).buckets@ == old(self).buckets@ && final(self).items
                        == old(self).items && final(self).growth_left == old(self).growth_left)
                    &&& !(!old(self).contains_entry(hash, key) && old(self).growth_left == 0
                        && old(self).items > old(self).cap() / 2 && 2 * old(self).cap()
                        > MAX_CAPACITY)
                },
                Err(err) => {
                    &&& err == TableError::CapacityOverflow
                    &&& final(self).ctrl@ == old(self).ctrl@
                    &&& final(self).buckets@ == old(self).buckets@
                    &&& final(self).items == old(self).items
                    &&& final(self).growth_left == old(self).growth_left
                    &&& !old(self).contains_entry(hash, key)
                    &&& old(self).growth_left == 0
                    &&& old(self).items > old(self).cap() / 2
                    &&& 2 * old(self).cap() > MAX_CAPACITY
                },
            },
    {
        match self.find(hash, key) {
            Some(i) => {
                proof {
                    assert(self.buckets@[i as int].hash == hash);
                    assert(self.contains_entry(hash, key));
                }
                Ok(i)
            },
            None => {
                let ghost oldt = *self;
                if self.growth_left == 0 {
                    let cap = self.buckets.len();
                    proof {
                        lemma2_to64();
                        lemma_fundamental_div_mod(cap as int, 8);
                    }
                    if cap == 0 {
                        proof {
                            assert(8 == pow2(3));
                        }
                        self.grow(8);
                    } else if self.items > cap / 2 {
                        if cap > MAX_CAPACITY / 2 {
                            proof {
                                assert(2 * self.cap() > MAX_CAPACITY);
                            }
                            return Err(TableError::CapacityOverflow);
                        }
                        proof {
                            let e = choose|e: nat| oldt.groups() == pow2(e);
                            lemma_pow2_adds(3, e);
                            assert(cap == 8 * oldt.groups());
                            assert(cap == pow2(e + 3));
                            assert(2 * cap == pow2(e + 4)) by {
                                lemma_pow2_adds(1, e + 3);
                                assert(pow2(1) == 2);
                            }
                            lemma_threshold_monotone(cap as nat, (2 * cap) as nat);
                        }
                        self.grow(cap * 2);
                        proof {
                            // the doubled threshold leaves room for this insertion
                            let q = cap as int / 8;
                            assert(cap == 8 * q);
                            assert((16 * q) / 8 == 2 * q) by {
                                vstd::arithmetic::div_mod::lemma_div_by_multiple(2 * q, 8);
                            }
                            assert(spec_threshold((2 * cap) as nat) == 14 * q);
                            assert(spec_threshold(cap as nat) == 7 * q);
                            assert(self.growth_left >= 1);
                        }
                    } else {
                        proof {
                            let e = choose|e: nat| oldt.groups() == pow2(e);
                            lemma_pow2_adds(3, e);
                            assert(cap == 8 * oldt.groups());
                            assert(cap == pow2(e + 3));
                            let q = cap as int / 8;
                            assert(cap == 8 * q);
                            assert(cap / 2 == 4 * q) by {
                                vstd::arithmetic::div_mod::lemma_div_by_multiple(4 * q, 2);
                            }
                            assert(spec_threshold(cap as nat) == 7 * q);
                            assert(oldt.items <= spec_threshold(cap as nat));
                        }
                        self.grow(cap);
                        proof {
                            let q = oldt.cap() as int / 8;
                            assert(self.growth_left >= 1);
                        }
                    }
                }
                proof {
                    assert(!self.has_key(key)) by {
                        if self.has_key(key) {
                            let j = choose|j: int|
                                0 <= j < self.cap() && spec_is_full(self.ctrl@[j])
                                    && self.buckets@[j].key == key;
                            assert(self.contains_entry(self.buckets@[j].hash, key));
                            assert(oldt.contains_entry(self.buckets@[j].hash, key));
                            let j0 = choose|j0: int|
                                0 <= j0 < oldt.cap() && spec_is_full(oldt.ctrl@[j0])
                                    && oldt.buckets@[j0].hash == self.buckets@[j].hash
                                    && oldt.buckets@[j0].key == key;
                            assert(oldt.buckets@[j0].hash == hash);
                            assert(oldt.contains_entry(hash, key));
                            assert(false);
                        }
                    }
                }
                let idx = self.insert_no_grow(hash, key);
                Ok(idx)
            },
        }
    }

    /// Removes the occupied bucket at `index` and returns it.  The tag
    /// turns EMPTY when the slot's group still has an EMPTY lane (no probe
    /// ever passed it), and DELETED (a tombstone) otherwise, so no other
    /// key's probe sequence is cut short.  Memory is never returned.
    #[verifier::rlimit(100)]
    pub fn remove(&mut self, index: usize) -> (b: Bucket)
        requires
            old(self).wf(),
            index < old(self).cap(),
            spec_is_full(old(self).ctrl@[index as int]),
        ensures
            final(self).wf(),
            b == old(self).buckets@[index as int],
            final(self).cap() == old(self).cap(),
            final(self).items == old(self).items - 1,
            !spec_is_full(final(self).ctrl@[index as int]),
            forall|h: u64, k: u64|
                final(self).contains_entry(h, k) == (old(self).contains_entry(h, k) && !(h
                    == b.hash && k == b.key)),
    {
        let gpos = index / 8 * 8;
        proof {
            vstd::arithmetic::div_mod::lemma_multiply_divide_lt(
                index as int,
                8,
                self.groups() as int,
            );
            lemma_fundamental_div_mod(index as int, 8);
            vstd::arithmetic::div_mod::lemma_mod_multiples_basic(index as int / 8, 8);
        }
        let group = Group::load_aligned(&self.ctrl, gpos);
        let empties = group.match_empty();
        let had_empty = empties.any_bit_set();
        let b = self.buckets[index];
        let ghost oldt = *self;
        if had_empty {
            self.ctrl[index] = Tag::empty();
            self.growth_left = self.growth_left + 1;
        } else {
            self.ctrl[index] = Tag::deleted();
        }
        proof {
            lemma_count_update(oldt.ctrl@, index as int, self.ctrl@[index as int]);
        }
        self.items = self.items - 1;
        proof {
            let gidx = (index as int / 8) as nat;
            assert(self.groups() == oldt.groups());
            assert forall|g: nat|
                g < oldt.groups() && group_no_empty(oldt.ctrl@, g) implies group_no_empty(
                self.ctrl@,
                g,
            ) by {
                assert forall|l: int| 8 * g <= l < 8 * g + 8 implies self.ctrl@[l]
                    != spec_empty() by {
                    if l == index as int {
                        if had_empty {
                            let le = choose|le: u32| le < 8 && lane_bit(empties.0, le);
                            assert(oldt.ctrl@[gpos + le as int] == spec_empty());
                            assert(!group_no_empty(oldt.ctrl@, gidx));
                            assert(false);
                        }
                    } else {
                        assert(self.ctrl@[l] == oldt.ctrl@[l]);
                    }
                }
            }
            assert forall|j: int|
                0 <= j < self.cap() && spec_is_full(#[trigger] self.ctrl@[j]) implies self
                .probe_path_clear(self.buckets@[j].hash, (j / 8) as nat) by {
                let h = self.buckets@[j].hash;
                let gj = (j / 8) as nat;
                assert(j != index as int);
                assert(oldt.probe_path_clear(h, gj));
                assert forall|k: nat|
                    (forall|m: nat|
                        m <= k ==> #[trigger] probe_group(h, m, self.groups()) != gj)
                        implies group_no_empty(
                    self.ctrl@,
                    #[trigger] probe_group(h, k, self.groups()),
                ) by {
                    lemma_probe_group_in_range(h, k, oldt.groups());
                    assert(group_no_empty(oldt.ctrl@, probe_group(h, k, oldt.groups())));
                }
            }
            assert forall|h: u64, k: u64|
                final(self).contains_entry(h, k) == (oldt.contains_entry(h, k) && !(h == b.hash
                    && k == b.key)) by {
                if self.contains_entry(h, k) {
                    let j = choose|j: int|
                        0 <= j < self.cap() && spec_is_full(self.ctrl@[j]) && self.buckets@[j].hash
                            == h && self.buckets@[j].key == k;
                    assert(j != index as int);
                    assert(oldt.contains_entry(h, k));
                    if h == b.hash && k == b.key {
                        assert(oldt.buckets@[j].key == oldt.buckets@[index as int].key);
                        assert(false);
                    }
                }
                if oldt.contains_entry(h, k) && !(h == b.hash && k == b.key) {
                    let j = choose|j: int|
                        0 <= j < oldt.cap() && spec_is_full(oldt.ctrl@[j]) && oldt.buckets@[j].hash
                            == h && oldt.buckets@[j].key == k;
                    assert(j != index as int);
                    assert(spec_is_full(self.ctrl@[j]));
                    assert(self.contains_entry(h, k));
                }
            }
        }
        b
    }

    /// A table ready for `n` insertions without growing, behind the same
    /// load-factor policy; refused when no allowed capacity is big enough.
    pub fn with_capacity(n: usize) -> (r: Result<RawTable, TableError>)
        ensures
            match r {
                Ok(t) => {
                    &&& t.wf()
                    &&& t.items == 0
                    &&& (forall|h: u64, k: u64| !t.contains_entry(h, k))
                    &&& t.growth_left == spec_threshold(t.cap())
                    &&& t.growth_left >= n
                    &&& n <= spec_threshold(MAX_CAPACITY as nat)
                    &&& (n == 0 ==> t.cap() == 0)
                },
                Err(err) => {
                    &&& err == TableError::CapacityOverflow
                    &&& n > spec_threshold(MAX_CAPACITY as nat)
                },
            },
    {
        if n == 0 {
            return Ok(Self::new());
        }
        proof {
            lemma2_to64();
        }
        let mut cap: usize = 8;
        while cap - cap / 8 < n
            invariant
                8 <= cap <= MAX_CAPACITY,
                exists|e: nat| cap == pow2(e),
            decreases MAX_CAPACITY - cap,
        {
            if cap > MAX_CAPACITY / 2 {
                proof {
                    let e = choose|e: nat| cap == pow2(e);
                    lemma2_to64();
                    assert(MAX_CAPACITY == pow2(29));
                    if e < 28 {
                        vstd::arithmetic::power2::lemma_pow2_strictly_increases(e, 28);
                    }
                    if e > 29 {
                        vstd::arithmetic::power2::lemma_pow2_strictly_increases(29, e);
                    }
                    assert(e != 28 && e != 29 ==> cap <= pow2(28));
                    assert(cap == MAX_CAPACITY);
                }
                return Err(TableError::CapacityOverflow);
            }
            proof {
                let e = choose|e: nat| cap == pow2(e);
                lemma_pow2_adds(1, e);
                lemma2_to64();
                assert(2 * cap == pow2(e + 1));
            }
            cap = cap * 2;
        }
        let mut t = Self::new();
        t.grow(cap);
        proof {
            lemma_threshold_monotone(cap as nat, MAX_CAPACITY as nat);
        }
        Ok(t)
    }

    /// Number of live entries.
    pub fn len(&self) -> (n: usize)
        ensures
            n == self.items,
    {
        self.items
    }

    /// Bucket capacity.
    pub fn capacity(&self) -> (n: usize)
        ensures
            n == self.cap(),
    {
        self.buckets.len()
    }

    /// Insertions left before the next grow.
    pub fn remaining_growth(&self) -> (n: usize)
        ensures
            n == self.growth_left,
    {
        self.growth_left
    }
}

/// In an all-EMPTY control sequence nothing is occupied or deleted.
proof fn lemma_count_both_all_empty(s: Seq<Tag>)
    requires
        forall|i: int| 0 <= i < s.len() ==> s[i] == spec_empty(),
    ensures
        count_full(s) == 0,
        count_deleted(s) == 0,
    decreases s.len(),
{
    if s.len() > 0 {
        lemma_count_both_all_empty(s.drop_first());
    }
}

/// A control sequence without occupied tags counts no occupied tags.
proof fn lemma_count_full_zero(s: Seq<Tag>)
    requires
        forall|i: int| 0 <= i < s.len() ==> !spec_is_full(s[i]),
    ensures
        count_full(s) == 0,
    decreases s.len(),
{
    if s.len() > 0 {
        lemma_count_full_zero(s.drop_first());
    }
}

/// How one tag update moves the occupancy counts.
proof fn lemma_count_update(s: Seq<Tag>, i: int, t: Tag)
    requires
        0 <= i < s.len(),
    ensures
        count_full(s.update(i, t)) == count_full(s) - (if spec_is_full(s[i]) {
            1int
        } else {
            0int
        }) + (if spec_is_full(t) {
            1int
        } else {
            0int
        }),
        count_deleted(s.update(i, t)) == count_deleted(s) - (if s[i] == spec_deleted() {
            1int
        } else {
            0int
        }) + (if t == spec_deleted() {
            1int
        } else {
            0int
        }),
    decreases s.len(),
{
    if i == 0 {
        assert(s.update(0, t).drop_first() =~= s.drop_first());
    } else {
        assert(s.update(i, t).drop_first() =~= s.drop_first().update(i - 1, t));
        lemma_count_update(s.drop_first(), i - 1, t);
    }
}

/// Splitting off the first element of a suffix moves the counts by that
/// element's contribution.
proof fn lemma_count_suffix_step(s: Seq<Tag>, i: int)
    requires
        0 <= i < s.len(),
    ensures
        count_full(s.subrange(i, s.len() as int)) == (if spec_is_full(s[i]) {
            1int
        } else {
            0int
        }) + count_full(s.subrange(i + 1, s.len() as int)),
{
    assert(s.subrange(i, s.len() as int).drop_first() =~= s.subrange(i + 1, s.len() as int));
}

/// No two occupied buckets of a well-formed table hold the same key, so
/// an insertion of a key already present never creates a second slot for
/// it: every operation keeps this invariant.
pub proof fn lemma_no_duplicate_keys(t: RawTable)
    requires
        t.wf(),
    ensures
        forall|i: int, j: int|
            0 <= i < t.cap() && 0 <= j < t.cap() && i != j && spec_is_full(t.ctrl@[i])
                && spec_is_full(t.ctrl@[j]) ==> #[trigger] t.buckets@[i].key
                != #[trigger] t.buckets@[j].key,
{
}

/// The load-factor threshold grows with the capacity.
proof fn lemma_threshold_monotone(c: nat, m: nat)
    requires
        c <= m,
    ensures
        spec_threshold(c) <= spec_threshold(m),
{
    lemma_fundamental_div_mod(c as int, 8);
    lemma_fundamental_div_mod(m as int, 8);
    lemma_div_is_ordered(c as int, m as int, 8);
    let qc = c as int / 8;
    let qm = m as int / 8;
    if qc == qm {
    } else {
        assert(qc + 1 <= qm);
        assert(7 * qc + (c as int % 8) <= 7 * qm + (m as int % 8));
    }
}

/// A control sequence with fewer occupied-plus-deleted tags than length,
/// all of them valid, holds an EMPTY tag somewhere.
proof fn lemma_counts_give_empty(s: Seq<Tag>)
    requires
        forall|i: int| 0 <= i < s.len() ==> spec_valid(#[trigger] s[i]),
        count_full(s) + count_deleted(s) < s.len(),
    ensures
        exists|i: int| 0 <= i < s.len() && s[i] == spec_empty(),
    decreases s.len(),
{
    if s[0] == spec_empty() {
        assert(0 <= 0 < s.len() && s[0] == spec_empty());
    } else {
        assert(spec_is_full(s[0]) || s[0] == spec_deleted());
        lemma_counts_give_empty(s.drop_first());
        let i = choose|i: int| 0 <= i < s.drop_first().len() && s.drop_first()[i] == spec_empty();
        assert(s[i + 1] == spec_empty());
    }
}

} // verus!
