//! Distances as fixed-point numbers, the compression distance of two
//! contexts from three compressed lengths, and the exact reading of a
//! half-precision result.

use vstd::arithmetic::power2::{lemma2_to64, lemma_pow2_strictly_increases, pow2};
use vstd::bits::lemma_u64_shl_is_mul;
use vstd::prelude::*;

verus! {

/// The fixed-point unit: a finite distance `v` stands for `v / ONE`.
pub const ONE: i64 = 16_777_216;

/// One entry of a distance matrix: a number in units of `1 / ONE`, or the
/// mark that the computation gave no number.
#[derive(Clone, Copy, Debug, PartialEq, Eq, Structural)]
pub enum Distance {
    Finite(i64),
    NonFinite,
}

impl Distance {
    /// Whether the distance is a number.
    pub fn is_finite(&self) -> (r: bool)
        ensures
            r == (*self is Finite),
    {
        match self {
            Distance::Finite(_) => true,
            Distance::NonFinite => false,
        }
    }
}

/// The smaller of two lengths.
pub open spec fn shorter(a: nat, b: nat) -> nat {
    if a <= b {
        a
    } else {
        b
    }
}

/// The larger of two lengths.
pub open spec fn longer(a: nat, b: nat) -> nat {
    if a <= b {
        b
    } else {
        a
    }
}

/// `(cxy - min(cx, cy)) / max(cx, cy)` in units of `1 / ONE`, rounded down.
/// Meaningful where `max(cx, cy) > 0`.
pub open spec fn ncd_scaled(cx: nat, cy: nat, cxy: nat) -> int {
    ((cxy - shorter(cx, cy)) * ONE) / (longer(cx, cy) as int)
}

/// The distance of two contexts whose compressed lengths are `cx` and `cy`
/// and whose concatenation compresses to `cxy`. It is no number where both
/// lengths are zero, and where the quotient is too large to be held.
pub open spec fn ncd(cx: nat, cy: nat, cxy: nat) -> Distance {
    if longer(cx, cy) == 0 || ncd_scaled(cx, cy, cxy) > i64::MAX {
        Distance::NonFinite
    } else {
        Distance::Finite(ncd_scaled(cx, cy, cxy) as i64)
    }
}

/// The quotient is never below minus one.
pub proof fn lemma_ncd_scaled_lower(cx: nat, cy: nat, cxy: nat)
    requires
        longer(cx, cy) > 0,
    ensures
        ncd_scaled(cx, cy, cxy) >= -ONE,
        cxy >= shorter(cx, cy) ==> ncd_scaled(cx, cy, cxy) >= 0,
{
    let lo = shorter(cx, cy) as int;
    let hi = longer(cx, cy) as int;
    let num = (cxy - lo) * ONE;
    vstd::arithmetic::div_mod::lemma_fundamental_div_mod(num, hi);
    vstd::arithmetic::div_mod::lemma_mod_bound(num, hi);
    let q = num / hi;
    assert(q >= -ONE) by (nonlinear_arith)
        requires
            num == hi * q + num % hi,
            0 <= num % hi < hi,
            num >= -lo * ONE,
            0 <= lo <= hi,
            hi > 0,
    ;
    if cxy >= lo {
        assert(q >= 0) by (nonlinear_arith)
            requires
                num == hi * q + num % hi,
                0 <= num % hi < hi,
                num >= 0,
                hi > 0,
        ;
    }
}

/// Computes [`ncd`] from the three compressed lengths.
pub fn ncd_from_lengths(cx: usize, cy: usize, cxy: usize) -> (d: Distance)
    ensures
        d == ncd(cx as nat, cy as nat, cxy as nat),
{
    let lo: usize = if cx <= cy {
        cx
    } else {
        cy
    };
    let hi: usize = if cx <= cy {
        cy
    } else {
        cx
    };
    if hi == 0 {
        return Distance::NonFinite;
    }
    proof {
        lemma_ncd_scaled_lower(cx as nat, cy as nat, cxy as nat);
    }
    let ghost want = ncd_scaled(cx as nat, cy as nat, cxy as nat);
    if cxy >= lo {
        let num: u128 = (cxy - lo) as u128 * 16_777_216u128;
        let q: u128 = num / (hi as u128);
        assert(q == want);
        if q > 9_223_372_036_854_775_807u128 {
            Distance::NonFinite
        } else {
            Distance::Finite(q as i64)
        }
    } else {
        let m: u128 = (lo - cxy) as u128 * 16_777_216u128;
        let up: u128 = (m + (hi as u128 - 1)) / (hi as u128);
        proof {
            lemma_floor_of_negative(m as int, hi as int);
            assert(want == (-(m as int)) / (hi as int));
        }
        assert(up <= ONE);
        Distance::Finite(-(up as i64))
    }
}

/// Rounding `-m / d` down is rounding `m / d` up, negated.
proof fn lemma_floor_of_negative(m: int, d: int)
    requires
        m >= 0,
        d > 0,
    ensures
        (-m) / d == -((m + d - 1) / d),
{
    let up = (m + d - 1) / d;
    vstd::arithmetic::div_mod::lemma_fundamental_div_mod(m + d - 1, d);
    vstd::arithmetic::div_mod::lemma_mod_bound(m + d - 1, d);
    let r = (m + d - 1) % d;
    // m + d - 1 == d * up + r, so -m == d * (-up) + (d - 1 - r)
    assert(-m == d * (-up) + (d - 1 - r)) by (nonlinear_arith)
        requires
            m + d - 1 == d * up + r,
    ;
    vstd::arithmetic::div_mod::lemma_fundamental_div_mod_converse(-m, d, -up, d - 1 - r);
}

/// The magnitude of a finite half-precision number in units of `1 / ONE`,
/// from its exponent field (below 31) and its ten mantissa bits: subnormal
/// numbers count in steps of 2^-24, normal ones carry the hidden bit.
pub open spec fn half_magnitude(exponent: nat, mantissa: nat) -> nat {
    if exponent == 0 {
        mantissa
    } else {
        (1024 + mantissa) * pow2((exponent - 1) as nat)
    }
}

/// The exact value of the half-precision number with the bit pattern `bits`:
/// one sign bit, five exponent bits, ten mantissa bits. Infinities and NaNs,
/// whose exponent bits are all set, are no numbers.
pub open spec fn half_value(bits: u16) -> Distance {
    let exponent = ((bits / 1024) % 32) as nat;
    let mantissa = (bits % 1024) as nat;
    if exponent == 31 {
        Distance::NonFinite
    } else if bits >= 32768 {
        Distance::Finite((-(half_magnitude(exponent, mantissa) as int)) as i64)
    } else {
        Distance::Finite(half_magnitude(exponent, mantissa) as i64)
    }
}

/// Every finite half-precision magnitude is below 2^40.
pub proof fn lemma_half_magnitude_bound(exponent: nat, mantissa: nat)
    requires
        exponent < 31,
        mantissa < 1024,
    ensures
        half_magnitude(exponent, mantissa) <= 2047 * 0x2000_0000,
{
    if exponent > 0 {
        lemma2_to64();
        if exponent < 30 {
            lemma_pow2_strictly_increases((exponent - 1) as nat, 29);
        }
        let p = pow2((exponent - 1) as nat);
        assert((1024 + mantissa) * p <= 2047 * 0x2000_0000) by (nonlinear_arith)
            requires
                mantissa < 1024,
                p <= 0x2000_0000,
        ;
    }
}

/// Reads one half-precision result exactly.
pub fn decode_half(bits: u16) -> (d: Distance)
    ensures
        d == half_value(bits),
{
    let exponent: u64 = ((bits >> 10) & 0x1f) as u64;
    let mantissa: u64 = (bits & 0x3ff) as u64;
    let negative: bool = (bits >> 15) != 0;
    assert(((bits >> 10) & 0x1f) == (bits / 1024) % 32) by (bit_vector);
    assert((bits & 0x3ff) == bits % 1024) by (bit_vector);
    assert(((bits >> 15) != 0) == (bits >= 32768)) by (bit_vector);
    if exponent == 31 {
        return Distance::NonFinite;
    }
    proof {
        lemma_half_magnitude_bound(exponent as nat, mantissa as nat);
    }
    let magnitude: u64 = if exponent == 0 {
        mantissa
    } else {
        proof {
            lemma_u64_shl_is_mul((1024 + mantissa) as u64, (exponent - 1) as u64);
        }
        (1024 + mantissa) << (exponent - 1)
    };
    assert(magnitude == half_magnitude(exponent as nat, mantissa as nat));
    if negative {
        Distance::Finite(-(magnitude as i64))
    } else {
        Distance::Finite(magnitude as i64)
    }
}

} // verus!
