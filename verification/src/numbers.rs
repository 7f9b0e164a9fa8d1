//! Numbers of a PDF as integers.
//!
//! A real number is held by the 32 bits of its single-precision form: the sign, eight bits of
//! exponent, and 23 bits of fraction.

use vstd::prelude::*;

verus! {

/// An integer modulo 2 to the 16.
pub open spec fn low_16(i: int) -> u16 {
    (i % 0x1_0000) as u16
}

/// An integer modulo 2 to the 8.
pub open spec fn low_8(i: int) -> u8 {
    (i % 0x100) as u8
}

/// An integer modulo 2 to the 16.
pub fn to_u16(i: i64) -> (r: u16)
    ensures
        r == low_16(i as int),
{
    if i >= 0 {
        (i % 0x1_0000) as u16
    } else {
        (0xFFFF - (-(i + 1)) % 0x1_0000) as u16
    }
}

/// An integer modulo 2 to the 8.
pub fn to_u8(i: i64) -> (r: u8)
    ensures
        r == low_8(i as int),
{
    if i >= 0 {
        (i % 0x100) as u8
    } else {
        (0xFF - (-(i + 1)) % 0x100) as u8
    }
}

/// The exponent bits of a real number.
pub open spec fn exponent_bits(bits: u32) -> nat {
    (bits / 0x80_0000 % 0x100) as nat
}

/// The fraction bits of a real number.
pub open spec fn fraction_bits(bits: u32) -> nat {
    (bits % 0x80_0000) as nat
}

/// Whether the bits of a real number stand for no number.
pub open spec fn is_nan(bits: u32) -> bool {
    exponent_bits(bits) == 255 && fraction_bits(bits) > 0
}

/// A power of 2.
pub open spec fn pow2(n: nat) -> nat
    decreases n,
{
    if n == 0 {
        1
    } else {
        2 * pow2((n - 1) as nat)
    }
}

/// The whole part of a real number as a 16-bit number: 0 for what is below, the greatest number
/// for what is above, and 0 for what is no number.
///
/// A number with exponent bits `e`, from 127 on, is its fraction with a leading 1, divided by 2 to
/// the `150 - e`.
pub open spec fn whole_16(bits: u32) -> u16 {
    let e = exponent_bits(bits);
    if bits >= 0x8000_0000 || is_nan(bits) || e < 127 {
        0
    } else if e >= 143 {
        0xFFFF
    } else {
        ((0x80_0000 + fraction_bits(bits)) / pow2((150 - e) as nat)) as u16
    }
}

/// The whole part of a real number as a 16-bit number.
pub fn real_to_u16(bits: u32) -> (r: u16)
    ensures
        r == whole_16(bits),
{
    let e: u32 = bits / 0x80_0000 % 0x100;
    let f: u32 = bits % 0x80_0000;
    if bits >= 0x8000_0000 || e < 127 || (e == 255 && f > 0) {
        return 0;
    }
    if e >= 143 {
        return 0xFFFF;
    }
    let mut divisor: u32 = 0x100;
    let mut k: u32 = 142;
    proof {
        reveal_with_fuel(pow2, 24);
        assert(pow2(8) == 0x100);
        assert(pow2(23) == 0x80_0000);
    }
    while k > e
        invariant
            127 <= e <= k <= 142,
            divisor == pow2((150 - k) as nat),
            pow2(23) == 0x80_0000,
        decreases k - e,
    {
        proof {
            lemma_pow2_monotonic((151 - k) as nat, 23);
        }
        divisor = divisor * 2;
        k = k - 1;
    }
    proof {
        lemma_pow2_monotonic(8, (150 - e) as nat);
    }
    let w: u32 = (0x80_0000 + f) / divisor;
    assert(w <= 0xFFFF) by (nonlinear_arith)
        requires
            w == (0x80_0000 + f) / (divisor as int),
            divisor >= 0x100,
            f < 0x80_0000,
    ;
    w as u16
}

proof fn lemma_pow2_monotonic(a: nat, b: nat)
    requires
        a <= b,
    ensures
        1 <= pow2(a) <= pow2(b),
    decreases b,
{
    if a < b {
        lemma_pow2_monotonic(a, (b - 1) as nat);
    } else if a > 0 {
        lemma_pow2_monotonic((a - 1) as nat, (a - 1) as nat);
    }
}

/// A number of a PDF: an integer, or a real number given by its bits.
#[derive(Debug, Clone, Copy, PartialEq, Eq, Structural)]
pub enum Number {
    Integer(i64),
    Real(u32),
}

/// The whole part of a real number that is not negative.
pub open spec fn whole_part(bits: u32) -> nat {
    let e = exponent_bits(bits);
    if e < 127 {
        0
    } else if e <= 150 {
        (0x80_0000 + fraction_bits(bits)) / pow2((150 - e) as nat)
    } else {
        (0x80_0000 + fraction_bits(bits)) * pow2((e - 150) as nat)
    }
}

impl Number {
    /// Whether the number is greater than 0.95, whose bits are `3F733333`.
    pub open spec fn is_about_one(self) -> bool {
        match self {
            Number::Integer(i) => i >= 1,
            Number::Real(bits) => !is_nan(bits) && 0x3F733333 < bits < 0x8000_0000,
        }
    }

    /// Whether the number is less than 0.05, whose bits are `3D4CCCCD`.
    pub open spec fn is_about_zero(self) -> bool {
        match self {
            Number::Integer(i) => i <= 0,
            Number::Real(bits) => !is_nan(bits) && (bits >= 0x8000_0000 || bits < 0x3D4CCCCD),
        }
    }

    /// Whether the whole part of the number is 3. The bits of 3 and 4 are `40400000` and
    /// `40800000`.
    pub open spec fn is_three(self) -> bool {
        match self {
            Number::Integer(i) => i == 3,
            Number::Real(bits) => 0x40400000 <= bits < 0x40800000,
        }
    }

    /// Whether the number lies below zero by more than a limit, a real number that is not negative.
    pub open spec fn is_below_minus(self, limit: u32) -> bool {
        match self {
            Number::Integer(i) => i < 0 && -i > whole_part(limit),
            Number::Real(bits) => !is_nan(bits) && bits >= 0x8000_0000 && bits - 0x8000_0000
                > limit,
        }
    }

    /// Whether the number is greater than 0.95.
    pub fn about_one(&self) -> (r: bool)
        ensures
            r == self.is_about_one(),
    {
        match self {
            Number::Integer(i) => *i >= 1,
            Number::Real(bits) => !no_number(*bits) && *bits > 0x3F733333 && *bits <= 0x7FFF_FFFF,
        }
    }

    /// Whether the number is less than 0.05.
    pub fn about_zero(&self) -> (r: bool)
        ensures
            r == self.is_about_zero(),
    {
        match self {
            Number::Integer(i) => *i <= 0,
            Number::Real(bits) => !no_number(*bits) && (*bits >= 0x8000_0000 || *bits
                <= 0x3D4CCCCC),
        }
    }

    /// Whether the whole part of the number is 3.
    pub fn three(&self) -> (r: bool)
        ensures
            r == self.is_three(),
    {
        match self {
            Number::Integer(i) => *i == 3,
            Number::Real(bits) => *bits >= 0x40400000 && *bits <= 0x407FFFFF,
        }
    }

    /// Whether the number lies below zero by more than a limit.
    pub fn below_minus(&self, limit: u32) -> (r: bool)
        requires
            limit < 0x8000_0000,
            !is_nan(limit),
        ensures
            r == self.is_below_minus(limit),
    {
        match self {
            Number::Integer(i) => {
                let i: i64 = *i;
                if i >= 0 {
                    false
                } else {
                    exceeds_whole((-(i + 1)) as u64 + 1, limit)
                }
            },
            Number::Real(bits) => !no_number(*bits) && *bits >= 0x8000_0000 && *bits - 0x8000_0000
                > limit,
        }
    }
}

/// Whether the bits of a real number stand for no number.
fn no_number(bits: u32) -> (r: bool)
    ensures
        r == is_nan(bits),
{
    bits / 0x80_0000 % 0x100 == 255 && bits % 0x80_0000 > 0
}

/// Whether a number that is not zero is greater than the whole part of a real number.
fn exceeds_whole(n: u64, bits: u32) -> (r: bool)
    requires
        0 < n <= 0x8000_0000_0000_0000,
    ensures
        r == (n > whole_part(bits)),
{
    let e: u32 = bits / 0x80_0000 % 0x100;
    let f: u64 = (bits % 0x80_0000) as u64;
    if e < 127 {
        return true;
    }
    let digits: u64 = 0x80_0000 + f;
    if e <= 150 {
        let divisor: u64 = two_to(150 - e);
        proof {
            lemma_pow2_monotonic(0, (150 - e) as nat);
        }
        n > digits / divisor
    } else if e <= 190 {
        let factor: u64 = two_to(e - 150);
        assert(digits * factor <= 0xFF_FFFF * 0x100_0000_0000) by (nonlinear_arith)
            requires
                digits <= 0xFF_FFFF,
                factor <= 0x100_0000_0000,
        ;
        n > digits * factor
    } else {
        proof {
            reveal_with_fuel(pow2, 42);
            assert(pow2(41) == 0x200_0000_0000);
            lemma_pow2_monotonic(41, (e - 150) as nat);
            assert(digits * pow2((e - 150) as nat) >= 0x80_0000 * 0x200_0000_0000) by (
            nonlinear_arith)
                requires
                    digits >= 0x80_0000,
                    pow2((e - 150) as nat) >= 0x200_0000_0000,
            ;
        }
        false
    }
}

/// A power of 2.
fn two_to(n: u32) -> (r: u64)
    requires
        n <= 40,
    ensures
        r == pow2(n as nat),
        1 <= r <= 0x100_0000_0000,
{
    let mut r: u64 = 1;
    let mut k: u32 = 0;
    proof {
        reveal_with_fuel(pow2, 41);
        assert(pow2(40) == 0x100_0000_0000);
    }
    while k < n
        invariant
            k <= n <= 40,
            r == pow2(k as nat),
            pow2(40) == 0x100_0000_0000,
        decreases n - k,
    {
        proof {
            lemma_pow2_monotonic((k + 1) as nat, 40);
        }
        r = r * 2;
        k = k + 1;
    }
    proof {
        lemma_pow2_monotonic(0, n as nat);
        lemma_pow2_monotonic(n as nat, 40);
    }
    r
}

/// A whole number that orders real numbers, given by their bits, as their values do.
pub open spec fn order_of(bits: u32) -> int {
    if bits < 0x8000_0000 {
        bits as int
    } else {
        0x8000_0000 - bits
    }
}

/// A whole number that orders real numbers, given by their bits, as their values do.
pub fn order_key(bits: u32) -> (r: i64)
    ensures
        r == order_of(bits),
{
    if bits <= 0x7FFF_FFFF {
        bits as i64
    } else {
        0x8000_0000 - bits as i64
    }
}

} // verus!
