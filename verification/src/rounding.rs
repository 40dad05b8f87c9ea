//! Round-to-nearest, ties-to-even, onto the single-precision grid.
//!
//! A non-negative single-precision number is named by its bit pattern, an
//! integer from 0 up to the pattern of infinity. Its magnitude is counted in
//! units of 2^-149, the smallest positive single-precision number, so every
//! finite magnitude is a natural number and the patterns are ordered as their
//! magnitudes are.

use vstd::prelude::*;
use vstd::arithmetic::power2::{pow2, lemma2_to64, lemma2_to64_rest, lemma_pow2_adds, lemma_pow2_pos, lemma_pow2_unfold};
use crate::wide::{Wide, wide_limit, lemma_limb_weights};

verus! {

/// The bit pattern of positive infinity.
pub const INFINITY_BITS: u32 = 0x7f80_0000;

/// The weight of the implicit leading bit of a normal number's significand.
pub const HIDDEN_BIT: u32 = 0x80_0000;

/// The magnitude, in units of 2^-149, of the non-negative number with bit
/// pattern `b`. The pattern of infinity stands for 2^128.
pub open spec fn magnitude_of(b: int) -> int {
    let e = b / 0x80_0000;
    let m = b % 0x80_0000;
    if e <= 0 {
        m
    } else {
        (0x80_0000 + m) * pow2((e - 1) as nat)
    }
}

/// 2^277, the magnitude that the pattern of infinity stands for.
pub open spec fn magnitude_limit() -> int {
    0x20_0000_0000_0000_0000_0000_0000_0000_0000_0000_0000_0000_0000_0000_0000_0000_0000_0000int
}

/// The sum of the magnitudes of two neighbouring patterns: twice the point
/// half-way between them.
pub open spec fn midpoint_sum(b: int) -> int {
    magnitude_of(b) + magnitude_of(b + 1)
}

/// Whether `b` is the pattern nearest to the magnitude `p / q`, in units of
/// 2^-149: a tie goes to the even pattern, and everything from half-way
/// between the largest finite magnitude and 2^128 upwards goes to infinity.
pub open spec fn rounds_to(p: nat, q: nat, b: int) -> bool {
    &&& 0 <= b <= INFINITY_BITS
    &&& (b == 0 || 2 * p > midpoint_sum(b - 1) * q || (2 * p == midpoint_sum(b - 1) * q && b % 2
        == 0))
    &&& (b == INFINITY_BITS || 2 * p < midpoint_sum(b) * q || (2 * p == midpoint_sum(b) * q && b
        % 2 == 0))
}

/// The pattern nearest to the magnitude `p / q`, in units of 2^-149.
pub open spec fn nearest(p: nat, q: nat) -> int {
    choose|b: int| rounds_to(p, q, b)
}

/// Scaling by a positive factor keeps a strict order.
pub proof fn lemma_scale_strict(a: int, b: int, q: int)
    requires
        a < b,
        q > 0,
    ensures
        a * q < b * q,
{
    assert(a * q < b * q) by (nonlinear_arith)
        requires
            a < b,
            q > 0,
    ;
}

/// Each pattern's magnitude is below its successor's.
pub proof fn lemma_magnitude_step(b: int)
    requires
        0 <= b < INFINITY_BITS,
    ensures
        magnitude_of(b) < magnitude_of(b + 1),
{
    let e = b / 0x80_0000;
    let m = b % 0x80_0000;
    lemma2_to64();
    if m < 0x7f_ffff {
        assert((b + 1) / 0x80_0000 == e);
        assert((b + 1) % 0x80_0000 == m + 1);
        if e > 0 {
            lemma_pow2_pos((e - 1) as nat);
            lemma_scale_strict(0x80_0000 + m, 0x80_0000 + m + 1, pow2((e - 1) as nat) as int);
        }
    } else {
        assert((b + 1) / 0x80_0000 == e + 1);
        assert((b + 1) % 0x80_0000 == 0);
        if e > 0 {
            lemma_pow2_pos((e - 1) as nat);
            lemma_pow2_unfold(e as nat);
            let w = pow2((e - 1) as nat) as int;
            assert((0x80_0000 + m) * w < 0x80_0000 * (2 * w)) by (nonlinear_arith)
                requires
                    m == 0x7f_ffff,
                    w > 0,
            ;
        }
    }
}

/// Patterns are ordered as their magnitudes are.
pub proof fn lemma_magnitude_monotone(a: int, b: int)
    requires
        0 <= a < b <= INFINITY_BITS,
    ensures
        magnitude_of(a) < magnitude_of(b),
    decreases b - a,
{
    lemma_magnitude_step(b - 1);
    if a < b - 1 {
        lemma_magnitude_monotone(a, b - 1);
    }
}

/// No pattern's magnitude exceeds 2^277, which is that of infinity.
pub proof fn lemma_magnitude_bound(b: int)
    requires
        0 <= b <= INFINITY_BITS,
    ensures
        magnitude_of(b) <= magnitude_limit(),
        magnitude_of(INFINITY_BITS as int) == magnitude_limit(),
        magnitude_of(0) == 0,
{
    lemma_limb_weights();
    lemma2_to64_rest();
    lemma_pow2_adds(192, 62);
    assert(pow2(254) == 0x4000_0000_0000_0000_0000_0000_0000_0000_0000_0000_0000_0000_0000_0000_0000_0000int);
    assert(magnitude_of(INFINITY_BITS as int) == 0x80_0000 * pow2(254));
    if b < INFINITY_BITS {
        lemma_magnitude_monotone(b, INFINITY_BITS as int);
    }
}

/// A ratio has at most one nearest pattern.
pub proof fn lemma_rounding_unique(p: nat, q: nat, b1: int, b2: int)
    requires
        q > 0,
        rounds_to(p, q, b1),
        rounds_to(p, q, b2),
    ensures
        b1 == b2,
{
    if b1 < b2 {
        lemma_rounding_ordered(p, q, b1, b2);
    } else if b2 < b1 {
        lemma_rounding_ordered(p, q, b2, b1);
    }
}

proof fn lemma_rounding_ordered(p: nat, q: nat, lo: int, hi: int)
    requires
        q > 0,
        rounds_to(p, q, lo),
        rounds_to(p, q, hi),
        lo <= hi,
    ensures
        lo == hi,
{
    // From above `lo`: 2p <= midpoint_sum(lo) * q.  From below `hi`:
    // 2p >= midpoint_sum(hi - 1) * q.  The midpoints are ordered the other way.
    if lo == hi {
        return ;
    }
    lemma_magnitude_step(lo);
    lemma_magnitude_step(hi - 1);
    if lo + 1 < hi {
        if lo < hi - 1 {
            lemma_magnitude_monotone(lo, hi - 1);
        }
        lemma_magnitude_monotone(lo + 1, hi);
        lemma_scale_strict(midpoint_sum(lo), midpoint_sum(hi - 1), q as int);
    } else {
        assert(hi == lo + 1);
        assert(lo % 2 == 0 ==> hi % 2 != 0);
    }
}

/// The last pattern up to `b` whose magnitude is at most `p / q`.
pub open spec fn floor_pattern(p: nat, q: nat, b: int) -> int
    decreases b,
{
    if b <= 0 {
        0
    } else if magnitude_of(b) * q <= p {
        b
    } else {
        floor_pattern(p, q, b - 1)
    }
}

proof fn lemma_floor_pattern(p: nat, q: nat, b: int)
    requires
        0 <= b <= INFINITY_BITS,
    ensures
        0 <= floor_pattern(p, q, b) <= b,
        magnitude_of(floor_pattern(p, q, b)) * q <= p,
        floor_pattern(p, q, b) < b ==> p < magnitude_of(floor_pattern(p, q, b) + 1) * q,
    decreases b,
{
    lemma_magnitude_bound(0);
    assert(magnitude_of(0) * q == 0) by (nonlinear_arith)
        requires
            magnitude_of(0) == 0,
    ;
    if b > 0 && !(magnitude_of(b) * q <= p) {
        lemma_floor_pattern(p, q, b - 1);
    }
}

/// Every ratio has a nearest pattern, which `nearest` names.
pub proof fn law_every_ratio_rounds(p: nat, q: nat)
    requires
        q > 0,
    ensures
        rounds_to(p, q, nearest(p, q)),
{
    let top = INFINITY_BITS as int;
    lemma_floor_pattern(p, q, top);
    let lo = floor_pattern(p, q, top);
    let low = magnitude_of(lo);
    let high = magnitude_of(lo + 1);
    if lo == top {
        lemma_magnitude_step(top - 1);
        lemma_scale_strict(midpoint_sum(top - 1), 2 * low, q as int);
        assert((2 * low) * q == 2 * (low * q)) by (nonlinear_arith);
        assert(rounds_to(p, q, top));
    } else {
        assert((low + high) * q == low * q + high * q) by (nonlinear_arith);
        if lo > 0 {
            lemma_magnitude_step(lo - 1);
            lemma_scale_strict(midpoint_sum(lo - 1), 2 * low, q as int);
            assert((2 * low) * q == 2 * (low * q)) by (nonlinear_arith);
        }
        if lo + 1 < top {
            lemma_magnitude_step(lo + 1);
            lemma_scale_strict(2 * high, midpoint_sum(lo + 1), q as int);
            assert((2 * high) * q == 2 * (high * q)) by (nonlinear_arith);
        }
        let up = if 2 * p < midpoint_sum(lo) * q {
            false
        } else if 2 * p > midpoint_sum(lo) * q {
            true
        } else {
            lo % 2 != 0
        };
        if up {
            assert(rounds_to(p, q, lo + 1));
        } else {
            assert(rounds_to(p, q, lo));
        }
    }
}

/// What rounds to `b` is what `nearest` names.
pub proof fn lemma_nearest_is(p: nat, q: nat, b: int)
    requires
        q > 0,
        rounds_to(p, q, b),
    ensures
        nearest(p, q) == b,
{
    lemma_rounding_unique(p, q, b, nearest(p, q));
}

/// A magnitude on the grid rounds to its own pattern.
pub proof fn lemma_exact(b: int)
    requires
        0 <= b <= INFINITY_BITS,
    ensures
        magnitude_of(b) >= 0,
        rounds_to(magnitude_of(b) as nat, 1, b),
        nearest(magnitude_of(b) as nat, 1) == b,
{
    lemma_magnitude_bound(b);
    if b > 0 {
        lemma_magnitude_step(b - 1);
        lemma_magnitude_monotone(0, b);
    }
    if b < INFINITY_BITS {
        lemma_magnitude_step(b);
    }
    lemma_nearest_is(magnitude_of(b) as nat, 1, b);
}

/// The magnitude of a pattern, as a wide integer.
pub fn magnitude_wide(b: u32) -> (r: Wide)
    requires
        b <= INFINITY_BITS,
    ensures
        r.value() == magnitude_of(b as int),
        r.value() <= magnitude_limit(),
{
    let e: u32 = b / HIDDEN_BIT;
    let m: u32 = b % HIDDEN_BIT;
    proof {
        lemma_magnitude_bound(b as int);
        lemma2_to64();
    }
    if e == 0 {
        Wide::shifted(m as u64, 0)
    } else {
        Wide::shifted((HIDDEN_BIT + m) as u64, e - 1)
    }
}

/// The magnitude of a pattern times a small factor.
fn scaled_magnitude(b: u32, q: u64) -> (r: Wide)
    requires
        b <= INFINITY_BITS,
        q < 0x1_0000_0000,
    ensures
        r.value() == magnitude_of(b as int) * q,
{
    let m = magnitude_wide(b);
    assert(m.value() * q < wide_limit()) by (nonlinear_arith)
        requires
            m.value() <= magnitude_limit(),
            q < 0x1_0000_0000,
    ;
    m.times(q)
}

/// Twice the point half-way between a pattern and its successor, times a small
/// factor.
fn scaled_midpoint(b: u32, q: u64) -> (r: Wide)
    requires
        b < INFINITY_BITS,
        q < 0x1_0000_0000,
    ensures
        r.value() == midpoint_sum(b as int) * q,
{
    let lower = magnitude_wide(b);
    let upper = magnitude_wide(b + 1);
    let both = lower.plus(upper);
    assert(both.value() * q < wide_limit()) by (nonlinear_arith)
        requires
            both.value() <= 2 * magnitude_limit(),
            q < 0x1_0000_0000,
    ;
    both.times(q)
}

/// Rounds the magnitude `p / q`, in units of 2^-149, to the nearest pattern.
pub fn round_nearest(p: Wide, q: u64) -> (b: u32)
    requires
        0 < q < 0x1_0000_0000,
        p.value() * 2 < wide_limit(),
    ensures
        rounds_to(p.value(), q as nat, b as int),
        b as int == nearest(p.value(), q as nat),
        b <= INFINITY_BITS,
{
    let top = scaled_magnitude(INFINITY_BITS, q);
    if top.at_most(p) {
        proof {
            lemma_magnitude_step(INFINITY_BITS - 1);
            lemma_scale_strict(
                midpoint_sum(INFINITY_BITS - 1),
                2 * magnitude_of(INFINITY_BITS as int),
                q as int,
            );
            let ghost g = magnitude_of(INFINITY_BITS as int);
            assert((2 * g) * q == 2 * (g * q)) by (nonlinear_arith);
            lemma_nearest_is(p.value(), q as nat, INFINITY_BITS as int);
        }
        return INFINITY_BITS;
    }
    let mut lo: u32 = 0;
    let mut hi: u32 = INFINITY_BITS;
    proof {
        lemma_magnitude_bound(0);
    }
    while hi - lo > 1
        invariant
            0 <= lo < hi <= INFINITY_BITS,
            0 < q < 0x1_0000_0000,
            magnitude_of(lo as int) * q <= p.value(),
            p.value() < magnitude_of(hi as int) * q,
        decreases hi - lo,
    {
        let mid: u32 = lo + (hi - lo) / 2;
        let m = scaled_magnitude(mid, q);
        if m.at_most(p) {
            lo = mid;
        } else {
            hi = mid;
        }
    }
    let doubled = p.plus(p);
    let threshold = scaled_midpoint(lo, q);
    let ghost low = magnitude_of(lo as int);
    let ghost high = magnitude_of(lo + 1);
    proof {
        assert((low + high) * q == low * q + high * q) by (nonlinear_arith);
        if lo > 0 {
            lemma_magnitude_step(lo - 1);
            lemma_scale_strict(midpoint_sum(lo - 1), 2 * low, q as int);
            assert((2 * low) * q == 2 * (low * q)) by (nonlinear_arith);
        }
        if lo + 1 < INFINITY_BITS {
            lemma_magnitude_step(lo + 1);
            lemma_scale_strict(2 * high, midpoint_sum(lo + 1), q as int);
            assert((2 * high) * q == 2 * (high * q)) by (nonlinear_arith);
        }
    }
    let up: bool = if !threshold.at_most(doubled) {
        false
    } else if !doubled.at_most(threshold) {
        true
    } else {
        lo % 2 != 0
    };
    let b: u32 = if up {
        lo + 1
    } else {
        lo
    };
    proof {
        lemma_nearest_is(p.value(), q as nat, b as int);
    }
    b
}

} // verus!
