//! Finite single-precision numbers, held by their bit patterns.
//!
//! Comparisons go by the patterns alone. Sums, quotients and roundings are
//! computed exactly on wide integers and then rounded once to the nearest
//! pattern, which is what the hardware operation on the same operands
//! returns.

use vstd::prelude::*;
use vstd::arithmetic::power2::{pow2, lemma2_to64, lemma_pow2_adds, lemma_pow2_unfold};
use vstd::arithmetic::div_mod::lemma_fundamental_div_mod_converse;
use crate::wide::{Wide, lemma_limb_weights};
use crate::rounding::{
    INFINITY_BITS, HIDDEN_BIT, magnitude_of, magnitude_limit, nearest, round_nearest, magnitude_wide,
    lemma_magnitude_monotone, lemma_magnitude_bound, lemma_exact,
};

verus! {

/// The bit that holds the sign.
pub const SIGN_BIT: u32 = 0x8000_0000;

/// The bit pattern of the tolerance of an approximate comparison, the
/// single-precision number nearest to one ten-thousandth.
pub const TOLERANCE_BITS: u32 = 0x38d1_b717;

/// A finite single-precision number. Two numbers are equal when their values
/// are, so the two zeros are equal.
#[derive(Clone, Copy, Debug, Eq)]
pub struct Num {
    pub(crate) raw: u32,
}

impl PartialEq for Num {
    fn eq(&self, other: &Num) -> (r: bool) {
        self.same(*other)
    }
}

impl vstd::std_specs::cmp::PartialEqSpecImpl for Num {
    open spec fn obeys_eq_spec() -> bool {
        true
    }

    open spec fn eq_spec(&self, other: &Num) -> bool {
        self.key() == other.key()
    }
}

/// The number with the given sign and magnitude pattern, if the pattern is
/// that of a finite number.
pub open spec fn composed(negative: bool, pattern: int) -> Option<Num> {
    if 0 <= pattern < INFINITY_BITS {
        Some(
            Num::of_bits(
                (if negative {
                    pattern + SIGN_BIT
                } else {
                    pattern
                }) as u32,
            ),
        )
    } else {
        None
    }
}

/// The count of whole units nearest to a magnitude, half-way cases going up.
pub open spec fn whole_units(magnitude: int) -> int {
    (2 * magnitude + pow2(149)) / (2 * pow2(149) as int)
}

fn compose(negative: bool, pattern: u32) -> (r: Option<Num>)
    requires
        pattern <= INFINITY_BITS,
    ensures
        r == composed(negative, pattern as int),
{
    if pattern < INFINITY_BITS {
        if negative {
            Some(Num { raw: pattern + SIGN_BIT })
        } else {
            Some(Num { raw: pattern })
        }
    } else {
        None
    }
}

impl Num {
    #[verifier::type_invariant]
    pub open(crate) spec fn finite(self) -> bool {
        self.raw % 0x8000_0000 < 0x7f80_0000
    }

    /// The bit pattern.
    pub open(crate) spec fn bits(self) -> u32 {
        self.raw
    }

    /// The number with the given bit pattern.
    pub open(crate) spec fn of_bits(bits: u32) -> Num {
        Num { raw: bits }
    }

    /// The number with the given bit pattern, if that is a finite number's.
    pub open spec fn checked(bits: u32) -> Option<Num> {
        if bits % SIGN_BIT < INFINITY_BITS {
            Some(Num::of_bits(bits))
        } else {
            None
        }
    }

    /// Whether the sign bit is set.
    pub open spec fn negative(self) -> bool {
        self.bits() >= SIGN_BIT
    }

    /// The bit pattern without the sign.
    pub open spec fn pattern(self) -> int {
        (self.bits() % SIGN_BIT) as int
    }

    /// The magnitude in units of 2^-149.
    pub open spec fn magnitude(self) -> int {
        magnitude_of(self.pattern())
    }

    /// The value in units of 2^-149.
    pub open spec fn scaled(self) -> int {
        if self.negative() {
            -self.magnitude()
        } else {
            self.magnitude()
        }
    }

    /// An integer that orders as the value does; both zeros have key 0.
    pub open spec fn key(self) -> int {
        if self.negative() {
            -self.pattern()
        } else {
            self.pattern()
        }
    }

    /// The sum, rounded once; `None` where it leaves the finite range.
    pub open spec fn sum(self, other: Num) -> Option<Num> {
        let t = self.scaled() + other.scaled();
        if t == 0 {
            Some(
                Num::of_bits(
                    if self.negative() && other.negative() {
                        SIGN_BIT
                    } else {
                        0
                    },
                ),
            )
        } else if t > 0 {
            composed(false, nearest(t as nat, 1))
        } else {
            composed(true, nearest((-t) as nat, 1))
        }
    }

    /// The distance between the two values, in units of 2^-149.
    pub open spec fn distance(self, other: Num) -> int {
        if self.scaled() >= other.scaled() {
            self.scaled() - other.scaled()
        } else {
            other.scaled() - self.scaled()
        }
    }

    /// Whether the rounded difference of the two is, in absolute value, below
    /// the tolerance.
    pub open spec fn close_to(self, other: Num) -> bool {
        nearest(self.distance(other) as nat, 1) < TOLERANCE_BITS
    }

    /// The quotient by a positive count, rounded once.
    pub open spec fn quotient(self, n: nat) -> Option<Num> {
        composed(self.negative(), nearest(self.magnitude() as nat, n))
    }

    /// A hundred times the number, rounded once.
    pub open spec fn hundredfold(self) -> Option<Num> {
        composed(self.negative(), nearest((100 * self.magnitude()) as nat, 1))
    }

    /// The nearest whole number, half-way cases going away from zero.
    pub open spec fn whole(self) -> Option<Num> {
        composed(
            self.negative(),
            nearest((whole_units(self.magnitude()) * pow2(149)) as nat, 1),
        )
    }

    /// A hundredth of the number, rounded once.
    pub open spec fn hundredth(self) -> Option<Num> {
        composed(self.negative(), nearest(self.magnitude() as nat, 100))
    }

    /// The number rounded to two decimal places: a hundred times it, then the
    /// nearest whole number, then a hundredth of that.
    pub open spec fn cents(self) -> Option<Num> {
        match self.hundredfold() {
            None => None,
            Some(y) => match y.whole() {
                None => None,
                Some(z) => z.hundredth(),
            },
        }
    }

    /// The number nearest to a count.
    pub open spec fn counted(n: nat) -> Option<Num> {
        composed(false, nearest((n * pow2(149)) as nat, 1))
    }

    /// The number with the given bit pattern; `None` for an infinity or a
    /// pattern that is not a number.
    pub fn from_bits(bits: u32) -> (r: Option<Num>)
        ensures
            r == Num::checked(bits),
    {
        if bits % SIGN_BIT < INFINITY_BITS {
            Some(Num { raw: bits })
        } else {
            None
        }
    }

    /// The bit pattern.
    pub fn to_bits(self) -> (r: u32)
        ensures
            r == self.bits(),
            Num::checked(r) == Some(self),
    {
        proof {
            use_type_invariant(&self);
        }
        self.raw
    }

    /// Positive zero.
    pub fn zero() -> (r: Num)
        ensures
            r.bits() == 0,
    {
        Num { raw: 0 }
    }

    fn rank(self) -> (r: i64)
        ensures
            r == self.key(),
    {
        if self.raw >= SIGN_BIT {
            -((self.raw - SIGN_BIT) as i64)
        } else {
            self.raw as i64
        }
    }

    /// Whether this number is below the other.
    pub fn less(self, other: Num) -> (r: bool)
        ensures
            r == (self.key() < other.key()),
    {
        self.rank() < other.rank()
    }

    /// Whether the two numbers are equal in value.
    pub fn same(self, other: Num) -> (r: bool)
        ensures
            r == (self.key() == other.key()),
    {
        self.rank() == other.rank()
    }

    fn magnitude_parts(self) -> (r: (bool, u32, Wide))
        ensures
            r.0 == self.negative(),
            r.1 == self.pattern(),
            r.1 < INFINITY_BITS,
            r.2.value() == self.magnitude(),
            r.2.value() <= magnitude_limit(),
    {
        proof {
            use_type_invariant(&self);
        }
        let pattern: u32 = self.raw % SIGN_BIT;
        (self.raw >= SIGN_BIT, pattern, magnitude_wide(pattern))
    }

    /// The sum of two numbers.
    pub fn plus(self, other: Num) -> (r: Option<Num>)
        ensures
            r == self.sum(other),
    {
        let (na, pa, wa) = self.magnitude_parts();
        let (nb, pb, wb) = other.magnitude_parts();
        proof {
            lemma_limb_weights();
            lemma_magnitude_bound(0);
            if pa > 0 {
                lemma_magnitude_monotone(0, pa as int);
            }
            if pb > 0 {
                lemma_magnitude_monotone(0, pb as int);
            }
            if pa < pb {
                lemma_magnitude_monotone(pa as int, pb as int);
            }
            if pb < pa {
                lemma_magnitude_monotone(pb as int, pa as int);
            }
        }
        if na == nb {
            if pa == 0 && pb == 0 {
                Some(
                    Num {
                        raw: if na {
                            SIGN_BIT
                        } else {
                            0
                        },
                    },
                )
            } else {
                compose(na, round_nearest(wa.plus(wb), 1))
            }
        } else if pa == pb {
            Some(Num { raw: 0 })
        } else if pa > pb {
            compose(na, round_nearest(wa.minus(wb), 1))
        } else {
            compose(nb, round_nearest(wb.minus(wa), 1))
        }
    }

    /// Whether two numbers differ by less than the tolerance.
    pub fn near(self, other: Num) -> (r: bool)
        ensures
            r == self.close_to(other),
    {
        let (na, pa, wa) = self.magnitude_parts();
        let (nb, pb, wb) = other.magnitude_parts();
        proof {
            lemma_limb_weights();
            lemma_magnitude_bound(0);
            if pa > 0 {
                lemma_magnitude_monotone(0, pa as int);
            }
            if pb > 0 {
                lemma_magnitude_monotone(0, pb as int);
            }
            if pa < pb {
                lemma_magnitude_monotone(pa as int, pb as int);
            }
            if pb < pa {
                lemma_magnitude_monotone(pb as int, pa as int);
            }
        }
        let gap = if na != nb {
            wa.plus(wb)
        } else if pa >= pb {
            wa.minus(wb)
        } else {
            wb.minus(wa)
        };
        round_nearest(gap, 1) < TOLERANCE_BITS
    }

    /// The quotient by a count. The count is at most 2^24, so that it is
    /// itself a single-precision number and the quotient is that of the two
    /// numbers.
    pub fn per(self, n: u32) -> (r: Option<Num>)
        requires
            1 <= n <= 0x100_0000,
        ensures
            r == self.quotient(n as nat),
    {
        let (neg, _pattern, w) = self.magnitude_parts();
        proof {
            lemma_limb_weights();
        }
        compose(neg, round_nearest(w, n as u64))
    }

    /// A hundred times the number.
    pub fn times_hundred(self) -> (r: Option<Num>)
        ensures
            r == self.hundredfold(),
    {
        let (neg, _pattern, w) = self.magnitude_parts();
        proof {
            lemma_limb_weights();
        }
        compose(neg, round_nearest(w.times(100), 1))
    }

    /// A hundredth of the number.
    pub fn per_hundred(self) -> (r: Option<Num>)
        ensures
            r == self.hundredth(),
    {
        let (neg, _pattern, w) = self.magnitude_parts();
        proof {
            lemma_limb_weights();
        }
        compose(neg, round_nearest(w, 100))
    }

    /// The number nearest to a count.
    pub fn from_count(n: u32) -> (r: Option<Num>)
        ensures
            r == Num::counted(n as nat),
    {
        let w = Wide::shifted(n as u64, 149);
        proof {
            lemma_limb_weights();
            lemma_unit_literal();
            assert(n * pow2(149) < 0x1_0000_0000 * pow2(149)) by (nonlinear_arith)
                requires
                    n < 0x1_0000_0000,
                    pow2(149) > 0,
            ;
        }
        compose(false, round_nearest(w, 1))
    }

    /// The nearest whole number.
    pub fn to_whole(self) -> (r: Option<Num>)
        ensures
            r == self.whole(),
    {
        let (neg, pattern, w) = self.magnitude_parts();
        let exponent: u32 = pattern / HIDDEN_BIT;
        let ghost unit = pow2(149) as int;
        proof {
            lemma_limb_weights();
            lemma_unit_literal();
        }
        if exponent >= 150 {
            proof {
                let c = 0x80_0000 + pattern % 0x80_0000;
                let k = c * pow2((exponent - 150) as nat);
                lemma_pow2_adds((exponent - 150) as nat, 149);
                assert(self.magnitude() == k * unit) by (nonlinear_arith)
                    requires
                        self.magnitude() == c * pow2((exponent - 1) as nat),
                        pow2((exponent - 1) as nat) == pow2((exponent - 150) as nat) * unit,
                        k == c * pow2((exponent - 150) as nat),
                ;
                assert(2 * (k * unit) + unit == k * (2 * unit) + unit) by (nonlinear_arith);
                lemma_fundamental_div_mod_converse(2 * (k * unit) + unit, 2 * unit, k, unit);
                assert(whole_units(self.magnitude()) == k);
                lemma_exact(pattern as int);
            }
            return Some(self);
        }
        let doubled = w.plus(w).plus(Wide::shifted(1, 149));
        let ghost x = 2 * self.magnitude() + unit;
        let ghost step = pow2(150) as int;
        proof {
            lemma_pow2_unfold(150);
            lemma2_to64();
            lemma_magnitude_monotone(pattern as int, 0x4b00_0000);
            assert(magnitude_of(0x4b00_0000) == 0x80_0000 * pow2(149));
            assert(x < 0x100_0000 * step) by (nonlinear_arith)
                requires
                    x == 2 * self.magnitude() + unit,
                    self.magnitude() < 0x80_0000 * unit,
                    step == 2 * unit,
                    unit > 0,
            ;
            assert(0 * step == 0);
        }
        let mut lo: u32 = 0;
        let mut hi: u32 = 0x100_0000;
        while hi - lo > 1
            invariant
                0 <= lo < hi <= 0x100_0000,
                step == pow2(150),
                doubled.value() == x,
                lo * step <= x,
                x < hi * step,
            decreases hi - lo,
        {
            let mid: u32 = lo + (hi - lo) / 2;
            if Wide::shifted(mid as u64, 150).at_most(doubled) {
                lo = mid;
            } else {
                hi = mid;
            }
        }
        proof {
            assert((lo + 1) * step == lo * step + step) by (nonlinear_arith);
            lemma_fundamental_div_mod_converse(x, step, lo as int, x - lo * step);
            assert(whole_units(self.magnitude()) == lo);
            assert(lo * unit <= 0x100_0000 * unit) by (nonlinear_arith)
                requires
                    lo <= 0x100_0000,
                    unit > 0,
            ;
        }
        compose(neg, round_nearest(Wide::shifted(lo as u64, 149), 1))
    }

    /// The number rounded to two decimal places.
    pub fn round_cents(self) -> (r: Option<Num>)
        ensures
            r == self.cents(),
    {
        match self.times_hundred() {
            None => None,
            Some(y) => match y.to_whole() {
                None => None,
                Some(z) => z.per_hundred(),
            },
        }
    }
}

/// The order of the keys is the order of the values, and numbers have the
/// same key exactly when they have the same value.
pub proof fn law_keys_order_values(a: Num, b: Num)
    requires
        a.finite(),
        b.finite(),
    ensures
        (a.key() < b.key()) == (a.scaled() < b.scaled()),
        (a.key() == b.key()) == (a.scaled() == b.scaled()),
{
    let x = a.pattern();
    let y = b.pattern();
    lemma_magnitude_bound(0);
    if x > 0 {
        lemma_magnitude_monotone(0, x);
    }
    if y > 0 {
        lemma_magnitude_monotone(0, y);
    }
    if x < y {
        lemma_magnitude_monotone(x, y);
    }
    if y < x {
        lemma_magnitude_monotone(y, x);
    }
}

/// 2^149 as a literal.
proof fn lemma_unit_literal()
    ensures
        pow2(149) == 0x20_0000_0000_0000_0000_0000_0000_0000_0000_0000int,
{
    lemma_limb_weights();
    lemma2_to64();
    lemma_pow2_adds(128, 21);
}

} // verus!
