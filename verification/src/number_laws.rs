//! How numbers are rounded.
use vstd::prelude::*;
use vstd::arithmetic::power2::{lemma_pow2_pos, pow2};
use crate::float_bits::{
    double_of_int, floor_log2, lemma_floor_log2, lemma_floor_log2_bounds, narrowed, round_half_even,
};

verus! {

/// A rounded quotient is nearest: it is off by at most a half, and where it is off by just a half it
/// is even.
pub proof fn law_rounded(m: nat, d: nat)
    requires
        d > 0,
    ensures
        -(d as int) <= 2 * (round_half_even(m, d) * d - m) <= d,
        2 * (round_half_even(m, d) * d - m) == d || 2 * (m - round_half_even(m, d) * d) == d
            ==> round_half_even(m, d) % 2 == 0,
{
    let q = m / d;
    let rest = m % d;
    assert(m == q * d + rest && rest < d) by (nonlinear_arith)
        requires
            d > 0,
            q == m / d,
            rest == m % d,
    ;
    assert((q + 1) * d == q * d + d) by (nonlinear_arith);
}

/// The exponent of a number is that of the greatest power of two that it reaches.
pub proof fn law_exponent(m: nat)
    requires
        m > 0,
    ensures
        pow2(floor_log2(m)) <= m < pow2(floor_log2(m) + 1),
{
    lemma_floor_log2_bounds(m);
}

/// The double of an integer: zero is zero; a negative one has the sign bit and the magnitude of its
/// negation; and one below two to the power of fifty-three is exact, its exponent biased and its
/// digits behind the first one kept.
pub proof fn law_double_of_int(v: int, e: nat)
    requires
        pow2(e) <= (if v < 0 { -v } else { v }) < pow2(e + 1),
        e <= 52,
    ensures
        double_of_int(0) == 0,
        v < 0 ==> double_of_int(v) == 0x8000_0000_0000_0000 + double_of_int(-v),
        v > 0 ==> double_of_int(v) == (e + 1023) * 0x10_0000_0000_0000 + (v * pow2((52 - e) as nat)
            - 0x10_0000_0000_0000),
{
    let m = if v < 0 {
        (-v) as nat
    } else {
        v as nat
    };
    lemma_pow2_pos(e);
    lemma_floor_log2(m, e);
}

/// The single of a positive double in the range of the normal singles, which are those whose
/// patterns end in twenty-nine zero bits: it is the nearest one, and an even one where two are
/// nearest. What lies beyond the greatest single is infinite.
pub proof fn law_narrowed(bits: u64)
    requires
        897 * 0x10_0000_0000_0000 <= bits < 0x7ff0_0000_0000_0000,
    ensures
        ({
            let x = bits - 896 * 0x10_0000_0000_0000;
            let r = narrowed(bits) as int;
            &&& r <= 0x7f80_0000
            &&& r < 0x7f80_0000 ==> -0x2000_0000 <= 2 * (r * 0x2000_0000 - x) <= 0x2000_0000
            &&& r < 0x7f80_0000 && (2 * (r * 0x2000_0000 - x) == 0x2000_0000 || 2 * (x - r
                * 0x2000_0000) == 0x2000_0000) ==> r % 2 == 0
            &&& r == 0x7f80_0000 ==> 2 * x + 0x2000_0000 >= 2 * 0x7f80_0000 * 0x2000_0000
        }),
        narrowed((bits + 0x8000_0000_0000_0000) as u64) == narrowed(bits) + 0x8000_0000,
{
    let x = (bits - 896 * 0x10_0000_0000_0000) as nat;
    law_rounded(x, 0x2000_0000);
    assert(bits / 0x10_0000_0000_0000 >= 897);
}

/// The singles of zeros, of infinities and of what is no number.
pub proof fn law_narrowed_ends(bits: u64)
    ensures
        narrowed(0) == 0,
        narrowed(0x8000_0000_0000_0000) == 0x8000_0000,
        narrowed(0x7ff0_0000_0000_0000) == 0x7f80_0000,
        narrowed(0xfff0_0000_0000_0000) == 0xff80_0000,
        0x7ff0_0000_0000_0000 < bits < 0x8000_0000_0000_0000 ==> narrowed(bits) > 0x7f80_0000
            && narrowed(bits) < 0x8000_0000,
{
}

} // verus!
