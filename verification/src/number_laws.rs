//! What numbers say: laws on real numbers that are given by their bits, and on white space.

use crate::numbers::{
    exponent_bits, fraction_bits, is_nan, low_16, low_8, order_of, pow2, whole_16, Number,
};
use crate::text::{is_space, space_end, text_end, trimmed, trimmed_end, trimmed_start};
use vstd::prelude::*;

verus! {

/// A number is about one above 0.95, about zero below 0.05, and three from 3 up to 4. The bounds have the
/// bits `3F733333`, `3D4CCCCD`, `40400000` and `40800000`.
pub proof fn lemma_what_numbers_are_about(bits: u32, i: i64)
    requires
        !is_nan(bits),
    ensures
        Number::Real(bits).is_about_one() <==> order_of(bits) > order_of(0x3F733333),
        Number::Real(bits).is_about_zero() <==> order_of(bits) < order_of(0x3D4CCCCD),
        Number::Real(bits).is_three() <==> order_of(0x40400000) <= order_of(bits) < order_of(0x40800000),
        Number::Integer(i).is_about_one() <==> i >= 1,
        Number::Integer(i).is_about_zero() <==> i <= 0,
        Number::Integer(i).is_three() <==> i == 3,
{
}

/// What is no number is about nothing.
pub proof fn lemma_what_is_no_number(bits: u32)
    requires
        is_nan(bits),
    ensures
        !Number::Real(bits).is_about_one(),
        !Number::Real(bits).is_about_zero(),
{
}

/// A number is below the negative of a limit where it is negative and its amount is greater.
pub proof fn lemma_what_is_below(bits: u32, limit: u32)
    requires
        !is_nan(bits),
        0 < limit < 0x7F80_0000,
    ensures
        Number::Real(bits).is_below_minus(limit) <==> order_of(bits) < -order_of(limit),
{
}

proof fn lemma_pow2_positive(n: nat)
    ensures
        pow2(n) > 0,
    decreases n,
{
    if n > 0 {
        lemma_pow2_positive((n - 1) as nat);
    }
}

proof fn lemma_pow2_grows(a: nat, b: nat)
    requires
        a <= b,
    ensures
        pow2(a) <= pow2(b),
    decreases b,
{
    if a < b {
        lemma_pow2_grows(a, (b - 1) as nat);
        lemma_pow2_positive((b - 1) as nat);
    }
}

/// The whole part of a number, as far as 16 bits go: no more than the number, and more than the number
/// less one. A number below one has 0, a negative one too, and what is too great the greatest.
pub proof fn lemma_whole_parts(bits: u32)
    requires
        !is_nan(bits),
    ensures
        bits >= 0x8000_0000 ==> whole_16(bits) == 0,
        bits < 0x3F80_0000 ==> whole_16(bits) == 0,
        0x4780_0000 <= bits < 0x8000_0000 ==> whole_16(bits) == 0xFFFF,
        0x3F80_0000 <= bits < 0x4780_0000 ==> ({
            let scale = pow2((150 - exponent_bits(bits)) as nat);
            let parts = 0x80_0000 + fraction_bits(bits);
            whole_16(bits) * scale <= parts < (whole_16(bits) + 1) * scale
        }),
{
    if 0x3F80_0000 <= bits < 0x4780_0000 {
        let e = exponent_bits(bits);
        assert(127 <= e <= 142);
        let scale = pow2((150 - e) as nat);
        let parts = 0x80_0000 + fraction_bits(bits);
        lemma_pow2_positive((150 - e) as nat);
        lemma_pow2_grows(8, (150 - e) as nat);
        reveal_with_fuel(pow2, 9);
        assert(pow2(8) == 256);
        assert(parts < 0x100_0000);
        let q = parts / scale;
        assert(q * scale <= parts < (q + 1) * scale) by (nonlinear_arith)
            requires
                q == parts / scale,
                scale > 0,
                parts >= 0,
        ;
        assert(q < 0x1_0000) by (nonlinear_arith)
            requires
                q * scale <= parts,
                parts < 0x100_0000,
                scale >= 256,
                q >= 0,
        ;
    }
}

/// Integers are taken modulo 2 to the 16 and modulo 2 to the 8: those that fit stay as they are.
pub proof fn lemma_integers_that_fit(i: int)
    ensures
        0 <= i <= 0xFFFF ==> low_16(i) == i,
        0 <= i <= 0xFF ==> low_8(i) == i,
        low_16(i + 0x1_0000) == low_16(i),
        low_8(i + 0x100) == low_8(i),
{
}

// ---------------------------------------------------------------------------------------------
// White space
// ---------------------------------------------------------------------------------------------

/// Whether a text is made of spaces, tabs, line breaks and the spaces of other scripts.
pub open spec fn is_all_blank(s: Seq<char>) -> bool {
    forall|k: int|
        0 <= k < s.len() ==> (#[trigger] s[k]) == ' ' || s[k] == '\t' || s[k] == '\n' || s[k] == '\r'
            || s[k] == '\u{A0}' || s[k] == '\u{2003}' || s[k] == '\u{3000}'
}

/// White space around a text is trimmed, whatever kind it is of, and nothing else is.
pub proof fn lemma_blanks_are_trimmed(a: Seq<char>, s: Seq<char>, b: Seq<char>)
    requires
        is_all_blank(a),
        is_all_blank(b),
        s.len() > 0,
        '!' <= s.first() <= '~',
        '!' <= s.last() <= '~',
    ensures
        trimmed(a + s + b) == s,
        trimmed(a) == Seq::<char>::empty(),
{
    let t = a + s + b;
    lemma_run(t, 0, a.len() as int);
    assert(trimmed_start(t) =~= s + b);
    lemma_back(s + b, (s + b).len() as int, s.len() as int);
    assert(trimmed_end(s + b) =~= s);
    lemma_run(a, 0, a.len() as int);
    assert(trimmed_start(a) =~= Seq::<char>::empty());
    assert(trimmed(a) =~= Seq::<char>::empty());
}

proof fn lemma_run(t: Seq<char>, i: int, e: int)
    requires
        0 <= i <= e <= t.len(),
        forall|k: int|
            0 <= k < e ==> (#[trigger] t[k]) == ' ' || t[k] == '\t' || t[k] == '\n' || t[k] == '\r'
                || t[k] == '\u{A0}' || t[k] == '\u{2003}' || t[k] == '\u{3000}',
        e < t.len() ==> '!' <= t[e] <= '~',
    ensures
        space_end(t, i) == e,
    decreases e - i,
{
    if i < e {
        assert(is_space(t[i]));
        lemma_run(t, i + 1, e);
    }
}

proof fn lemma_back(t: Seq<char>, n: int, e: int)
    requires
        0 < e <= n <= t.len(),
        forall|k: int|
            e <= k < t.len() ==> (#[trigger] t[k]) == ' ' || t[k] == '\t' || t[k] == '\n' || t[k] == '\r'
                || t[k] == '\u{A0}' || t[k] == '\u{2003}' || t[k] == '\u{3000}',
        '!' <= t[e - 1] <= '~',
    ensures
        text_end(t, n) == e,
    decreases n,
{
    if n > e {
        assert(is_space(t[n - 1]));
        lemma_back(t, n - 1, e);
    }
}

} // verus!
