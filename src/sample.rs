//! Numeric sample values with a zero and a saturating addition.

use vstd::arithmetic::div_mod::{lemma_div_by_multiple, lemma_div_is_ordered, lemma_div_pos_is_pos};
use vstd::arithmetic::mul::lemma_mul_inequality;
use vstd::prelude::*;

verus! {

/// A sample value: it has a zero, and adding two samples clamps to the type's range
/// instead of wrapping.
pub trait Sample: Copy + Sized {
    /// The zero value of the type.
    spec fn spec_zero() -> Self;

    /// The clamped sum of two samples.
    spec fn spec_saturating_add(self, other: Self) -> Self;

    /// The value `num / den` of the way from `a` to `b`.
    spec fn spec_lerp(a: Self, b: Self, num: nat, den: nat) -> Self;

    fn zero_value() -> (r: Self)
        ensures
            r == Self::spec_zero(),
    ;

    fn lerp(a: Self, b: Self, num: u32, den: u32) -> (r: Self)
        requires
            num < den,
        ensures
            r == Self::spec_lerp(a, b, num as nat, den as nat),
    ;

    fn saturating_add(self, other: Self) -> (r: Self)
        ensures
            r == self.spec_saturating_add(other),
    ;
}

/// `v` clamped to the range `lo ..= hi`.
pub open spec fn clamp(v: int, lo: int, hi: int) -> int {
    if v > hi {
        hi
    } else if v < lo {
        lo
    } else {
        v
    }
}

/// The point `num / den` of the way from `a` to `b`, rounded toward `a`.
pub open spec fn lerp_int(a: int, b: int, num: nat, den: nat) -> int {
    if b >= a {
        a + (b - a) * num / den as int
    } else {
        a - (a - b) * num / den as int
    }
}

/// A fraction below one of a distance is no longer than the distance.
pub proof fn lemma_fraction_within(x: int, num: nat, den: nat)
    requires
        x >= 0,
        num < den,
    ensures
        0 <= x * num / den as int <= x,
{
    lemma_mul_inequality(num as int, den as int, x);
    lemma_div_is_ordered(x * num, x * den, den as int);
    lemma_div_by_multiple(x, den as int);
    assert(num as int * x == x * num && den as int * x == x * den) by (nonlinear_arith);
    assert(x * num >= 0) by (nonlinear_arith)
        requires
            x >= 0,
    ;
    lemma_div_pos_is_pos(x * num, den as int);
}

/// A point between `a` and `b` lies between them.
pub proof fn lemma_lerp_between(a: int, b: int, num: nat, den: nat)
    requires
        num < den,
    ensures
        a <= b ==> a <= lerp_int(a, b, num, den) <= b,
        b < a ==> b <= lerp_int(a, b, num, den) <= a,
{
    if b >= a {
        lemma_fraction_within(b - a, num, den);
    } else {
        lemma_fraction_within(a - b, num, den);
    }
}

impl Sample for i16 {
    open spec fn spec_zero() -> i16 {
        0
    }

    open spec fn spec_saturating_add(self, other: i16) -> i16 {
        clamp(self as int + other as int, i16::MIN as int, i16::MAX as int) as i16
    }

    open spec fn spec_lerp(a: i16, b: i16, num: nat, den: nat) -> i16 {
        lerp_int(a as int, b as int, num, den) as i16
    }

    fn zero_value() -> (r: i16) {
        0
    }

    fn lerp(a: i16, b: i16, num: u32, den: u32) -> (r: i16) {
        proof {
            lemma_lerp_between(a as int, b as int, num as nat, den as nat);
        }
        if b >= a {
            let d: i64 = b as i64 - a as i64;
            proof {
                lemma_fraction_within(d as int, num as nat, den as nat);
                assert(d * num as i64 <= 65535 * 4294967295) by (nonlinear_arith)
                    requires
                        0 <= d <= 65535,
                        0 <= num <= 4294967295,
                ;
            }
            (a as i64 + d * (num as i64) / (den as i64)) as i16
        } else {
            let d: i64 = a as i64 - b as i64;
            proof {
                lemma_fraction_within(d as int, num as nat, den as nat);
                assert(d * num as i64 <= 65535 * 4294967295) by (nonlinear_arith)
                    requires
                        0 <= d <= 65535,
                        0 <= num <= 4294967295,
                ;
            }
            (a as i64 - d * (num as i64) / (den as i64)) as i16
        }
    }

    fn saturating_add(self, other: i16) -> (r: i16) {
        let s: i32 = self as i32 + other as i32;
        if s > i16::MAX as i32 {
            i16::MAX
        } else if s < i16::MIN as i32 {
            i16::MIN
        } else {
            s as i16
        }
    }
}

impl Sample for u16 {
    open spec fn spec_zero() -> u16 {
        0
    }

    open spec fn spec_saturating_add(self, other: u16) -> u16 {
        clamp(self as int + other as int, 0, u16::MAX as int) as u16
    }

    open spec fn spec_lerp(a: u16, b: u16, num: nat, den: nat) -> u16 {
        lerp_int(a as int, b as int, num, den) as u16
    }

    fn zero_value() -> (r: u16) {
        0
    }

    fn lerp(a: u16, b: u16, num: u32, den: u32) -> (r: u16) {
        proof {
            lemma_lerp_between(a as int, b as int, num as nat, den as nat);
        }
        if b >= a {
            let d: u64 = b as u64 - a as u64;
            proof {
                lemma_fraction_within(d as int, num as nat, den as nat);
                assert(d * num as u64 <= 65535 * 4294967295) by (nonlinear_arith)
                    requires
                        0 <= d <= 65535,
                        0 <= num <= 4294967295,
                ;
            }
            (a as u64 + d * (num as u64) / (den as u64)) as u16
        } else {
            let d: u64 = a as u64 - b as u64;
            proof {
                lemma_fraction_within(d as int, num as nat, den as nat);
                assert(d * num as u64 <= 65535 * 4294967295) by (nonlinear_arith)
                    requires
                        0 <= d <= 65535,
                        0 <= num <= 4294967295,
                ;
            }
            (a as u64 - d * (num as u64) / (den as u64)) as u16
        }
    }

    fn saturating_add(self, other: u16) -> (r: u16) {
        u16::saturating_add(self, other)
    }
}

/// Adding two 16-bit samples never wraps: a sum above the range gives the largest
/// value, a sum below it the smallest, and any other sum is exact.
pub proof fn lemma_i16_saturates(a: i16, b: i16)
    ensures
        (a as int + b as int) > (i16::MAX as int) ==> a.spec_saturating_add(b) == i16::MAX,
        (a as int + b as int) < (i16::MIN as int) ==> a.spec_saturating_add(b) == i16::MIN,
        (i16::MIN as int) <= a as int + b as int <= (i16::MAX as int) ==> a.spec_saturating_add(b) as int
            == a as int + b as int,
{
}

} // verus!
