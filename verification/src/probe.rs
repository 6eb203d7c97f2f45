//! Triangular-number probe sequence over the group-aligned positions of
//! the control array.  For a power-of-two group count, the sequence visits
//! every group exactly once before it repeats, which bounds every lookup
//! and guarantees an insertion slot whenever the table holds an EMPTY tag.

use vstd::prelude::*;

use vstd::arithmetic::div_mod::{
    lemma_add_mod_noop_right, lemma_fundamental_div_mod, lemma_fundamental_div_mod_converse_mod,
    lemma_mod_multiples_vanish, lemma_multiply_divide_lt, lemma_small_mod,
};
use vstd::arithmetic::power2::{lemma_pow2_pos, lemma_pow2_unfold, pow2};
use vstd::set_lib::{lemma_int_range, lemma_len_subset, lemma_subset_equality, set_int_range};

verus! {

/// The `k`-th triangular number: the total offset, in groups, that the
/// probe sequence has added after `k` advances.
pub open spec fn tri(k: nat) -> nat
    decreases k,
{
    if k == 0 {
        0
    } else {
        tri((k - 1) as nat) + k
    }
}

/// Group index where the probe sequence for `hash` starts, over `g` groups.
pub open spec fn start_group(hash: u64, g: nat) -> nat
    recommends
        g >= 1,
{
    (hash as nat % (8 * g)) / 8
}

/// Group index visited at step `k` of the probe sequence for `hash`.
pub open spec fn probe_group(hash: u64, k: nat, g: nat) -> nat
    recommends
        g >= 1,
    decreases k,
{
    if k == 0 {
        start_group(hash, g)
    } else {
        (probe_group(hash, (k - 1) as nat, g) + k) % g
    }
}

pub proof fn lemma_start_group_in_range(hash: u64, g: nat)
    requires
        g >= 1,
    ensures
        start_group(hash, g) < g,
{
    let m = hash as nat % (8 * g);
    assert(m < 8 * g);
    lemma_multiply_divide_lt(m as int, 8, g as int);
}

pub proof fn lemma_probe_group_in_range(hash: u64, k: nat, g: nat)
    requires
        g >= 1,
    ensures
        probe_group(hash, k, g) < g,
    decreases k,
{
    if k == 0 {
        lemma_start_group_in_range(hash, g);
    } else {
        lemma_probe_group_in_range(hash, (k - 1) as nat, g);
    }
}

/// Each probe step lands on the start group displaced by a triangular
/// number of groups.
pub proof fn lemma_probe_group_tri(hash: u64, k: nat, g: nat)
    requires
        g >= 1,
    ensures
        probe_group(hash, k, g) == (start_group(hash, g) + tri(k)) as int % (g as int),
    decreases k,
{
    let s = start_group(hash, g);
    if k == 0 {
        lemma_start_group_in_range(hash, g);
        lemma_small_mod(s, g);
    } else {
        lemma_probe_group_tri(hash, (k - 1) as nat, g);
        let x = (s + tri((k - 1) as nat)) as int;
        assert(probe_group(hash, k, g) == (x % (g as int) + k) as int % (g as int));
        lemma_add_mod_noop_right(k as int, x, g as int);
        assert((k as int + x % (g as int)) % (g as int) == (k as int + x) % (g as int));
        assert((k as int + x % (g as int)) % (g as int) == (x % (g as int) + k) as int % (
        g as int));
        assert(x + k == (s + tri(k)) as int);
    }
}

/// Scaling by the group width commutes with reduction modulo the control
/// array length.
pub proof fn lemma_mul_mod_factor(x: nat, g: nat)
    requires
        g >= 1,
    ensures
        (8 * x as int) % (8 * g as int) == 8 * (x as int % g as int),
{
    let q = x as int / g as int;
    let r = x as int % g as int;
    lemma_fundamental_div_mod(x as int, g as int);
    assert(x as int == g as int * q + r);
    assert(8 * x as int == q * (8 * g as int) + 8 * r) by (nonlinear_arith)
        requires
            x as int == g as int * q + r,
    ;
    lemma_fundamental_div_mod_converse_mod(8 * x as int, 8 * g as int, q, 8 * r);
}

/// Twice a triangular number in closed form.
pub proof fn lemma_tri_double(k: nat)
    ensures
        2 * tri(k) == k * (k + 1),
    decreases k,
{
    if k == 0 {
        assert(2 * tri(k) == k * (k + 1)) by (nonlinear_arith)
            requires
                k == 0,
            tri(k) == 0,
        ;
    } else {
        let km = (k - 1) as nat;
        lemma_tri_double(km);
        assert(tri(k) == tri(km) + k);
        assert(2 * tri(k) == k * (k + 1)) by (nonlinear_arith)
            requires
                2 * tri(km) == km * (km + 1),
            tri(k) == tri(km) + k,
            km == k - 1,
            k >= 1,
        ;
    }
}

/// A power of two that divides a product with an odd factor divides the
/// other factor.
proof fn lemma_pow2_divides_odd_product(n: nat, a: int, b: int, q: int)
    requires
        b % 2 == 1,
        a * b == q * pow2(n),
    ensures
        exists|t: int| a == #[trigger] (t * pow2(n)),
    decreases n,
{
    if n == 0 {
        assert(pow2(0) == 1) by {
            vstd::arithmetic::power2::lemma2_to64();
        }
        assert(a == a * pow2(0));
    } else {
        lemma_pow2_unfold(n);
        let p = pow2((n - 1) as nat);
        assert(a * b == q * (2 * p));
        // a * b is even while b is odd, hence a is even.
        lemma_fundamental_div_mod(a, 2);
        lemma_fundamental_div_mod(b, 2);
        let a2 = a / 2;
        if a % 2 == 1 {
            assert((2 * a2 + 1) * (2 * (b / 2) + 1) == 2 * (2 * a2 * (b / 2) + a2 + (b / 2)) + 1)
                by (nonlinear_arith);
            assert(a * b == 2 * (2 * a2 * (b / 2) + a2 + (b / 2)) + 1);
            assert(a * b == 2 * (q * p)) by (nonlinear_arith)
                requires
                    a * b == q * (2 * p),
            ;
            lemma_fundamental_div_mod_converse_mod(a * b, 2, q * p, 0);
            lemma_fundamental_div_mod_converse_mod(a * b, 2, 2 * a2 * (b / 2) + a2 + (b / 2), 1);
            assert(false);
        }
        assert(a == 2 * a2);
        assert(a2 * b == q * p) by (nonlinear_arith)
            requires
                a * b == q * (2 * p),
            a == 2 * a2,
        ;
        lemma_pow2_divides_odd_product((n - 1) as nat, a2, b, q);
        let t = choose|t: int| a2 == #[trigger] (t * p);
        assert(a == t * (2 * p)) by (nonlinear_arith)
            requires
                a == 2 * a2,
            a2 == t * p,
        ;
        assert(a == t * pow2(n));
    }
}

/// Distinct probe steps below the group count land on distinct residues:
/// triangular numbers are injective modulo a power of two.
proof fn lemma_tri_mod_injective(e: nat, i: nat, j: nat)
    requires
        i < j,
        j < pow2(e),
    ensures
        tri(i) as int % pow2(e) as int != tri(j) as int % pow2(e) as int,
{
    let g = pow2(e);
    lemma_pow2_pos(e);
    if tri(i) as int % g as int == tri(j) as int % g as int {
        lemma_fundamental_div_mod(tri(i) as int, g as int);
        lemma_fundamental_div_mod(tri(j) as int, g as int);
        let qi = tri(i) as int / g as int;
        let qj = tri(j) as int / g as int;
        let q = qj - qi;
        assert(tri(j) - tri(i) == q * g as int) by (nonlinear_arith)
            requires
                tri(i) as int == g as int * qi + tri(i) as int % g as int,
            tri(j) as int == g as int * qj + tri(j) as int % g as int,
            tri(i) as int % g as int == tri(j) as int % g as int,
            q == qj - qi,
        ;
        let d = j - i;
        let s = i + j + 1;
        lemma_tri_double(i);
        lemma_tri_double(j);
        assert(d as int * s as int == 2 * (tri(j) - tri(i))) by (nonlinear_arith)
            requires
                2 * tri(i) == i * (i + 1),
            2 * tri(j) == j * (j + 1),
            d == j - i,
            s == i + j + 1,
            i < j,
        ;
        lemma_pow2_unfold((e + 1) as nat);
        assert(pow2(e + 1) == 2 * g);
        assert(d as int * s as int == q * pow2(e + 1)) by (nonlinear_arith)
            requires
                d as int * s as int == 2 * (tri(j) - tri(i)),
            tri(j) - tri(i) == q * g as int,
            pow2(e + 1) == 2 * g,
        ;
        // d + s == 2 * j + 1 is odd, so exactly one of d, s is odd.
        lemma_fundamental_div_mod(d as int, 2);
        lemma_fundamental_div_mod(s as int, 2);
        if s % 2 == 1 {
            lemma_pow2_divides_odd_product(e + 1, d as int, s as int, q);
            let t = choose|t: int| d as int == #[trigger] (t * pow2(e + 1));
            assert(t >= 1) by (nonlinear_arith)
                requires
                    d as int == t * pow2(e + 1),
                d >= 1,
                pow2(e + 1) > 0,
            ;
            assert(d as int >= pow2(e + 1)) by (nonlinear_arith)
                requires
                    d as int == t * pow2(e + 1),
                t >= 1,
                pow2(e + 1) > 0,
            ;
            assert(false);
        } else {
            assert(d as int % 2 == 1) by (nonlinear_arith)
                requires
                    d as int == 2 * (d as int / 2) + d as int % 2,
                s as int == 2 * (s as int / 2) + s as int % 2,
                0 <= d as int % 2 < 2,
                0 <= s as int % 2 < 2,
                d + s == 2 * j + 1,
                s as int % 2 != 1,
            ;
            assert(s as int * d as int == q * pow2(e + 1)) by (nonlinear_arith)
                requires
                    d as int * s as int == q * pow2(e + 1),
            ;
            lemma_pow2_divides_odd_product(e + 1, s as int, d as int, q);
            let t = choose|t: int| s as int == #[trigger] (t * pow2(e + 1));
            assert(t >= 1) by (nonlinear_arith)
                requires
                    s as int == t * pow2(e + 1),
                s >= 1,
                pow2(e + 1) > 0,
            ;
            assert(s as int >= pow2(e + 1)) by (nonlinear_arith)
                requires
                    s as int == t * pow2(e + 1),
                t >= 1,
                pow2(e + 1) > 0,
            ;
            assert(s < 2 * pow2(e));
            assert(false);
        }
    }
}

/// Every group index below a power-of-two group count is visited by the
/// probe sequence within that many steps.
pub proof fn lemma_probe_covers(hash: u64, e: nat, target: nat)
    requires
        target < pow2(e),
    ensures
        exists|k: nat| k < pow2(e) && probe_group(hash, k, pow2(e)) == target,
{
    let g = pow2(e);
    lemma_pow2_pos(e);
    let s = Seq::<int>::new(g, |k: int| probe_group(hash, k as nat, g) as int);
    assert forall|x: int, y: int| 0 <= x < y < g implies s[x] != s[y] by {
        lemma_probe_group_tri(hash, x as nat, g);
        lemma_probe_group_tri(hash, y as nat, g);
        lemma_tri_mod_injective(e, x as nat, y as nat);
        let st = start_group(hash, g);
        if (st + tri(x as nat)) as int % g as int == (st + tri(y as nat)) as int % g as int {
            lemma_add_mod_noop_right(st as int, tri(x as nat) as int, g as int);
            lemma_add_mod_noop_right(st as int, tri(y as nat) as int, g as int);
            // cancel the common start offset
            lemma_fundamental_div_mod((st + tri(x as nat)) as int, g as int);
            lemma_fundamental_div_mod((st + tri(y as nat)) as int, g as int);
            let qx = (st + tri(x as nat)) as int / g as int;
            let qy = (st + tri(y as nat)) as int / g as int;
            assert(tri(y as nat) - tri(x as nat) == (qy - qx) * g as int) by (nonlinear_arith)
                requires
                    (st + tri(x as nat)) as int == g as int * qx + (st + tri(x as nat)) as int
                        % g as int,
                (st + tri(y as nat)) as int == g as int * qy + (st + tri(y as nat)) as int
                    % g as int,
                (st + tri(x as nat)) as int % g as int == (st + tri(y as nat)) as int % g as int,
            ;
            lemma_mod_multiples_vanish(qy - qx, tri(x as nat) as int, g as int);
            assert(tri(y as nat) as int == g as int * (qy - qx) + tri(x as nat) as int)
                by (nonlinear_arith)
                requires
                    tri(y as nat) - tri(x as nat) == (qy - qx) * g as int,
            ;
            assert(tri(x as nat) as int % g as int == tri(y as nat) as int % g as int);
            assert(false);
        }
    }
    assert(s.no_duplicates()) by {
        reveal(Seq::no_duplicates);
        assert forall|x: int, y: int|
            0 <= x < s.len() && 0 <= y < s.len() && x != y implies s[x] != s[y] by {
            if x < y {
            } else {
            }
        }
    }
    s.unique_seq_to_set();
    let range = set_int_range(0, g as int);
    lemma_int_range(0, g as int);
    assert forall|v: int| s.to_set().contains(v) implies range.contains(v) by {
        let idx = choose|idx: int| 0 <= idx < s.len() && s[idx] == v;
        lemma_probe_group_in_range(hash, idx as nat, g);
    }
    lemma_len_subset(s.to_set(), range);
    lemma_subset_equality(s.to_set(), range);
    assert(range.contains(target as int));
    assert(s.to_set().contains(target as int));
    let k = choose|k: int| 0 <= k < s.len() && s[k] == target as int;
    assert(probe_group(hash, k as nat, g) == target);
}

/// Walks the group-aligned byte positions of the control array: each
/// advance adds the current stride and grows the stride by one group.
pub struct ProbeSeq {
    /// Byte offset of the group visited next, a multiple of the group width.
    pub pos: usize,
    /// Byte offset added by the next advance.
    pub stride: usize,
}

impl ProbeSeq {
    /// Starts the probe sequence of `hash` over a control array of
    /// `ctrl_len` bytes.
    pub fn new(hash: u64, ctrl_len: usize) -> (p: ProbeSeq)
        requires
            ctrl_len >= 8,
            ctrl_len % 8 == 0,
        ensures
            p.pos == 8 * start_group(hash, (ctrl_len / 8) as nat),
            p.pos + 8 <= ctrl_len,
            p.pos % 8 == 0,
            p.stride == 8,
    {
        let g: usize = ctrl_len / 8;
        proof {
            lemma_fundamental_div_mod(ctrl_len as int, 8);
            assert(8 * g == ctrl_len);
            lemma_start_group_in_range(hash, g as nat);
        }
        let m: usize = (hash % (ctrl_len as u64)) as usize;
        let pos: usize = m / 8 * 8;
        proof {
            assert(m == hash as nat % (8 * g as nat));
            assert(pos == 8 * start_group(hash, g as nat));
        }
        ProbeSeq { pos, stride: 8 }
    }

    /// Advances to the next group-aligned position: adds the stride modulo
    /// the control array length, then lengthens the stride by one group.
    pub fn move_next(&mut self, ctrl_len: usize)
        requires
            ctrl_len >= 8,
            old(self).pos < ctrl_len,
            old(self).pos + old(self).stride <= usize::MAX,
            old(self).stride + 8 <= usize::MAX,
        ensures
            final(self).pos == (old(self).pos + old(self).stride) % (ctrl_len as int),
            final(self).stride == old(self).stride + 8,
            final(self).pos < ctrl_len,
    {
        self.pos = (self.pos + self.stride) % ctrl_len;
        self.stride = self.stride + 8;
    }
}

} // verus!
