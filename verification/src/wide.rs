//! Fixed-width unsigned integers of 320 bits, wide enough to hold every
//! single-precision magnitude, and small multiples of it, exactly.

use vstd::prelude::*;
use vstd::arithmetic::power2::{pow2, lemma2_to64, lemma2_to64_rest, lemma_pow2_adds, lemma_pow2_pos, lemma_pow2_unfold};

verus! {

/// 2^64, the weight of the second limb.
pub open spec fn limb1() -> int {
    0x1_0000_0000_0000_0000int
}

/// 2^128, the weight of the third limb.
pub open spec fn limb2() -> int {
    0x1_0000_0000_0000_0000_0000_0000_0000_0000int
}

/// 2^192, the weight of the fourth limb.
pub open spec fn limb3() -> int {
    0x1_0000_0000_0000_0000_0000_0000_0000_0000_0000_0000_0000_0000int
}

/// 2^256, the weight of the fifth limb.
pub open spec fn limb4() -> int {
    0x1_0000_0000_0000_0000_0000_0000_0000_0000_0000_0000_0000_0000_0000_0000_0000_0000int
}

/// 2^320, one more than the largest value a `Wide` can hold.
pub open spec fn wide_limit() -> int {
    0x1_0000_0000_0000_0000_0000_0000_0000_0000_0000_0000_0000_0000_0000_0000_0000_0000_0000_0000_0000_0000int
}

/// An unsigned integer below 2^320, stored as five 64-bit limbs, least
/// significant first.
#[derive(Clone, Copy, Debug)]
pub struct Wide {
    pub l0: u64,
    pub l1: u64,
    pub l2: u64,
    pub l3: u64,
    pub l4: u64,
}

/// The powers of two at the limb boundaries, as literals.
pub proof fn lemma_limb_weights()
    ensures
        pow2(64) == limb1(),
        pow2(128) == limb2(),
        pow2(192) == limb3(),
        pow2(256) == limb4(),
        pow2(320) == wide_limit(),
{
    lemma2_to64();
    lemma_pow2_adds(64, 64);
    lemma_pow2_adds(128, 64);
    lemma_pow2_adds(192, 64);
    lemma_pow2_adds(256, 64);
}

impl Wide {
    /// The number that the limbs stand for.
    pub open spec fn value(self) -> nat {
        (self.l0 + self.l1 * limb1() + self.l2 * limb2() + self.l3 * limb3() + self.l4
            * limb4()) as nat
    }

    /// The number `c * 2^s`.
    pub fn shifted(c: u64, s: u32) -> (r: Wide)
        requires
            c < 0x1_0000_0000,
            s <= 255,
        ensures
            r.value() == c * pow2(s as nat),
    {
        let idx: u32 = s / 64;
        let rem: u32 = s % 64;
        let mut p: u128 = 1;
        let mut i: u32 = 0;
        proof {
            lemma2_to64();
        }
        while i < rem
            invariant
                i <= rem,
                rem < 64,
                p == pow2(i as nat),
                p <= 0x8000_0000_0000_0000,
            decreases rem - i,
        {
            proof {
                lemma2_to64_rest();
                lemma_pow2_unfold((i + 1) as nat);
                if i + 1 < 64 {
                    lemma_pow2_adds((i + 1) as nat, (63 - (i + 1)) as nat);
                    lemma_pow2_pos((63 - (i + 1)) as nat);
                    assert(pow2((i + 1) as nat) <= pow2(63)) by (nonlinear_arith)
                        requires
                            pow2(63) == pow2((i + 1) as nat) * pow2((63 - (i + 1)) as nat),
                            pow2((63 - (i + 1)) as nat) > 0,
                            pow2((i + 1) as nat) >= 0,
                    ;
                }
            }
            p = p * 2;
            i = i + 1;
        }
        assert(c * p < 0x8000_0000_0000_0000_0000_0000int) by (nonlinear_arith)
            requires
                c < 0x1_0000_0000,
                p <= 0x8000_0000_0000_0000,
        ;
        let v: u128 = (c as u128) * p;
        let low: u64 = (v % 0x1_0000_0000_0000_0000) as u64;
        let high: u64 = (v / 0x1_0000_0000_0000_0000) as u64;
        proof {
            lemma_limb_weights();
            lemma_pow2_adds(rem as nat, (64 * idx) as nat);
            assert(s == rem + 64 * idx);
            assert(low + high * limb1() == v);
            let k = pow2((64 * idx) as nat);
            assert(c * pow2(s as nat) == v * k) by (nonlinear_arith)
                requires
                    v == c * p,
                    pow2(s as nat) == p * k,
            ;
        }
        if idx == 0 {
            proof {
                assert(pow2(0) == 1) by {
                    lemma2_to64();
                }
            }
            Wide { l0: low, l1: high, l2: 0, l3: 0, l4: 0 }
        } else if idx == 1 {
            proof {
                assert((low + high * limb1()) * limb1() == low * limb1() + high * limb2())
                    by (nonlinear_arith);
            }
            Wide { l0: 0, l1: low, l2: high, l3: 0, l4: 0 }
        } else if idx == 2 {
            proof {
                assert((low + high * limb1()) * limb2() == low * limb2() + high * limb3())
                    by (nonlinear_arith);
            }
            Wide { l0: 0, l1: 0, l2: low, l3: high, l4: 0 }
        } else {
            proof {
                assert(idx == 3);
                assert((low + high * limb1()) * limb3() == low * limb3() + high * limb4())
                    by (nonlinear_arith);
            }
            Wide { l0: 0, l1: 0, l2: 0, l3: low, l4: high }
        }
    }

    /// The sum of two numbers that stays below 2^320.
    pub fn plus(self, other: Wide) -> (r: Wide)
        requires
            self.value() + other.value() < wide_limit(),
        ensures
            r.value() == self.value() + other.value(),
    {
        let t0: u128 = self.l0 as u128 + other.l0 as u128;
        let t1: u128 = self.l1 as u128 + other.l1 as u128 + t0 / 0x1_0000_0000_0000_0000;
        let t2: u128 = self.l2 as u128 + other.l2 as u128 + t1 / 0x1_0000_0000_0000_0000;
        let t3: u128 = self.l3 as u128 + other.l3 as u128 + t2 / 0x1_0000_0000_0000_0000;
        let t4: u128 = self.l4 as u128 + other.l4 as u128 + t3 / 0x1_0000_0000_0000_0000;
        assert(t4 < 0x1_0000_0000_0000_0000);
        Wide {
            l0: (t0 % 0x1_0000_0000_0000_0000) as u64,
            l1: (t1 % 0x1_0000_0000_0000_0000) as u64,
            l2: (t2 % 0x1_0000_0000_0000_0000) as u64,
            l3: (t3 % 0x1_0000_0000_0000_0000) as u64,
            l4: t4 as u64,
        }
    }

    /// The difference of two numbers, the larger first.
    pub fn minus(self, other: Wide) -> (r: Wide)
        requires
            other.value() <= self.value(),
        ensures
            r.value() == self.value() - other.value(),
    {
        let base: u128 = 0x1_0000_0000_0000_0000;
        let t0: u128 = base + self.l0 as u128 - other.l0 as u128;
        let b0: u128 = 1 - t0 / base;
        let t1: u128 = base + self.l1 as u128 - other.l1 as u128 - b0;
        let b1: u128 = 1 - t1 / base;
        let t2: u128 = base + self.l2 as u128 - other.l2 as u128 - b1;
        let b2: u128 = 1 - t2 / base;
        let t3: u128 = base + self.l3 as u128 - other.l3 as u128 - b2;
        let b3: u128 = 1 - t3 / base;
        let t4: u128 = base + self.l4 as u128 - other.l4 as u128 - b3;
        assert(t4 >= base);
        Wide {
            l0: (t0 % base) as u64,
            l1: (t1 % base) as u64,
            l2: (t2 % base) as u64,
            l3: (t3 % base) as u64,
            l4: (t4 % base) as u64,
        }
    }

    /// The product with a small factor that stays below 2^320.
    pub fn times(self, k: u64) -> (r: Wide)
        requires
            self.value() * k < wide_limit(),
        ensures
            r.value() == self.value() * k,
    {
        let base: u128 = 0x1_0000_0000_0000_0000;
        assert(self.l0 * k <= 0xffff_ffff_ffff_ffffint * 0xffff_ffff_ffff_ffffint) by (nonlinear_arith)
            requires
                self.l0 <= 0xffff_ffff_ffff_ffff,
                k <= 0xffff_ffff_ffff_ffff,
        ;
        assert(self.l1 * k <= 0xffff_ffff_ffff_ffffint * 0xffff_ffff_ffff_ffffint) by (nonlinear_arith)
            requires
                self.l1 <= 0xffff_ffff_ffff_ffff,
                k <= 0xffff_ffff_ffff_ffff,
        ;
        assert(self.l2 * k <= 0xffff_ffff_ffff_ffffint * 0xffff_ffff_ffff_ffffint) by (nonlinear_arith)
            requires
                self.l2 <= 0xffff_ffff_ffff_ffff,
                k <= 0xffff_ffff_ffff_ffff,
        ;
        assert(self.l3 * k <= 0xffff_ffff_ffff_ffffint * 0xffff_ffff_ffff_ffffint) by (nonlinear_arith)
            requires
                self.l3 <= 0xffff_ffff_ffff_ffff,
                k <= 0xffff_ffff_ffff_ffff,
        ;
        assert(self.l4 * k <= 0xffff_ffff_ffff_ffffint * 0xffff_ffff_ffff_ffffint) by (nonlinear_arith)
            requires
                self.l4 <= 0xffff_ffff_ffff_ffff,
                k <= 0xffff_ffff_ffff_ffff,
        ;
        let t0: u128 = self.l0 as u128 * k as u128;
        let t1: u128 = self.l1 as u128 * k as u128 + t0 / base;
        let t2: u128 = self.l2 as u128 * k as u128 + t1 / base;
        let t3: u128 = self.l3 as u128 * k as u128 + t2 / base;
        let t4: u128 = self.l4 as u128 * k as u128 + t3 / base;
        proof {
            assert(self.value() * k == self.l0 * k + (self.l1 * k) * limb1() + (self.l2 * k)
                * limb2() + (self.l3 * k) * limb3() + (self.l4 * k) * limb4())
                by (nonlinear_arith)
                requires
                    self.value() == self.l0 + self.l1 * limb1() + self.l2 * limb2() + self.l3
                        * limb3() + self.l4 * limb4(),
            ;
            assert(t4 < base);
        }
        Wide {
            l0: (t0 % base) as u64,
            l1: (t1 % base) as u64,
            l2: (t2 % base) as u64,
            l3: (t3 % base) as u64,
            l4: t4 as u64,
        }
    }

    /// Whether the first number is at most the second.
    pub fn at_most(self, other: Wide) -> (r: bool)
        ensures
            r == (self.value() <= other.value()),
    {
        if self.l4 != other.l4 {
            self.l4 < other.l4
        } else if self.l3 != other.l3 {
            self.l3 < other.l3
        } else if self.l2 != other.l2 {
            self.l2 < other.l2
        } else if self.l1 != other.l1 {
            self.l1 < other.l1
        } else {
            self.l0 <= other.l0
        }
    }
}

} // verus!
