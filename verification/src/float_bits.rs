//! Floating-point numbers as IEEE 754 bit patterns: order, equality and the conversion from
//! integers, all in integer arithmetic.
use vstd::prelude::*;
use vstd::arithmetic::power2::*;

verus! {

/// The bit pattern of a single-precision number.
pub type Single = u32;

/// The bit pattern of a double-precision number.
pub type Double = u64;

/// The pattern of the positive infinity; a greater magnitude is not a number.
pub const DOUBLE_INFINITY: u64 = 0x7ff0_0000_0000_0000;

pub const DOUBLE_SIGN: u64 = 0x8000_0000_0000_0000;

pub const SINGLE_INFINITY: u32 = 0x7f80_0000;

pub const SINGLE_SIGN: u32 = 0x8000_0000;

/// The pattern without its sign bit.
pub open spec fn double_magnitude(bits: u64) -> int {
    if bits >= DOUBLE_SIGN {
        bits - DOUBLE_SIGN
    } else {
        bits as int
    }
}

pub open spec fn double_is_nan(bits: u64) -> bool {
    double_magnitude(bits) > DOUBLE_INFINITY
}

/// An integer that grows with the number: equal for both zeros, and in the order of the numbers
/// for everything that is a number.
pub open spec fn double_rank(bits: u64) -> int {
    if bits >= DOUBLE_SIGN {
        -double_magnitude(bits)
    } else {
        double_magnitude(bits)
    }
}

/// IEEE `<`.
pub open spec fn double_lt(a: u64, b: u64) -> bool {
    !double_is_nan(a) && !double_is_nan(b) && double_rank(a) < double_rank(b)
}

/// IEEE `<=`.
pub open spec fn double_le(a: u64, b: u64) -> bool {
    !double_is_nan(a) && !double_is_nan(b) && double_rank(a) <= double_rank(b)
}

/// IEEE `==`.
pub open spec fn double_eq(a: u64, b: u64) -> bool {
    !double_is_nan(a) && !double_is_nan(b) && double_rank(a) == double_rank(b)
}

/// The position of a pattern in the IEEE total order: negative patterns by falling magnitude,
/// then positive ones by rising magnitude.
pub open spec fn double_total_key(bits: u64) -> int {
    if bits >= DOUBLE_SIGN {
        0xffff_ffff_ffff_ffff - bits
    } else {
        bits + 0x8000_0000_0000_0000
    }
}

/// The position of a number among numbers: that in the total order, with both zeros at the place
/// of the positive one.
pub open spec fn number_position(bits: u64) -> int {
    if bits == DOUBLE_SIGN {
        double_total_key(0)
    } else {
        double_total_key(bits)
    }
}

fn magnitude_of_double(bits: u64) -> (r: u64)
    ensures
        r == double_magnitude(bits),
        r < DOUBLE_SIGN,
{
    if bits >= DOUBLE_SIGN {
        bits - DOUBLE_SIGN
    } else {
        bits
    }
}

fn rank_of_double(bits: u64) -> (r: i64)
    ensures
        r == double_rank(bits),
{
    let m: u64 = magnitude_of_double(bits);
    if bits >= DOUBLE_SIGN {
        -(m as i64)
    } else {
        m as i64
    }
}

/// Whether a pattern is not a number.
pub fn is_nan(bits: u64) -> (r: bool)
    ensures
        r == double_is_nan(bits),
{
    magnitude_of_double(bits) > DOUBLE_INFINITY
}

/// Whether `a < b` as numbers.
pub fn less(a: u64, b: u64) -> (r: bool)
    ensures
        r == double_lt(a, b),
{
    !is_nan(a) && !is_nan(b) && rank_of_double(a) < rank_of_double(b)
}

/// Whether `a <= b` as numbers.
pub fn less_or_equal(a: u64, b: u64) -> (r: bool)
    ensures
        r == double_le(a, b),
{
    !is_nan(a) && !is_nan(b) && rank_of_double(a) <= rank_of_double(b)
}

/// Whether `a == b` as numbers.
pub fn equal(a: u64, b: u64) -> (r: bool)
    ensures
        r == double_eq(a, b),
{
    !is_nan(a) && !is_nan(b) && rank_of_double(a) == rank_of_double(b)
}

/// The position of a pattern in the total order.
pub fn total_key(bits: u64) -> (r: u64)
    ensures
        r == double_total_key(bits),
{
    if bits >= DOUBLE_SIGN {
        0xffff_ffff_ffff_ffff - bits
    } else {
        bits + 0x8000_0000_0000_0000
    }
}

/// The position of a number among numbers.
pub fn position_of_number(bits: u64) -> (r: u64)
    ensures
        r == number_position(bits),
{
    if bits == DOUBLE_SIGN {
        total_key(0)
    } else {
        total_key(bits)
    }
}

/// The pattern at a position of the total order.
pub fn from_total_key(key: u64) -> (r: u64)
    ensures
        double_total_key(r) == key,
{
    if key >= 0x8000_0000_0000_0000 {
        key - 0x8000_0000_0000_0000
    } else {
        0xffff_ffff_ffff_ffff - key
    }
}

/// Distinct patterns have distinct positions in the total order.
pub proof fn law_total_key_injective(a: u64, b: u64)
    requires
        double_total_key(a) == double_total_key(b),
    ensures
        a == b,
{
}

/// The total order extends the order of numbers.
pub proof fn law_total_key_extends(a: u64, b: u64)
    requires
        double_lt(a, b),
    ensures
        double_total_key(a) < double_total_key(b),
{
}

/// The positions of two numbers compare as the numbers do.
pub proof fn law_positions_compare(a: u64, b: u64)
    requires
        !double_is_nan(a),
        !double_is_nan(b),
    ensures
        double_lt(a, b) == (number_position(a) < number_position(b)),
        double_le(a, b) == (number_position(a) <= number_position(b)),
        double_eq(a, b) == (number_position(a) == number_position(b)),
{
}

/// Equal numbers other than zeros have the same pattern.
pub proof fn law_equal_numbers(a: u64, b: u64)
    requires
        double_eq(a, b),
        double_rank(a) != 0,
    ensures
        a == b,
{
}

/// The pattern without its sign bit.
pub open spec fn single_magnitude(bits: u32) -> int {
    if bits >= SINGLE_SIGN {
        bits - SINGLE_SIGN
    } else {
        bits as int
    }
}

pub open spec fn single_is_nan(bits: u32) -> bool {
    single_magnitude(bits) > SINGLE_INFINITY
}

/// An integer that grows with the number.
pub open spec fn single_rank(bits: u32) -> int {
    if bits >= SINGLE_SIGN {
        -single_magnitude(bits)
    } else {
        single_magnitude(bits)
    }
}

/// IEEE `<`.
pub open spec fn single_lt(a: u32, b: u32) -> bool {
    !single_is_nan(a) && !single_is_nan(b) && single_rank(a) < single_rank(b)
}

/// IEEE `<=`.
pub open spec fn single_le(a: u32, b: u32) -> bool {
    !single_is_nan(a) && !single_is_nan(b) && single_rank(a) <= single_rank(b)
}

/// IEEE `==`.
pub open spec fn single_eq(a: u32, b: u32) -> bool {
    !single_is_nan(a) && !single_is_nan(b) && single_rank(a) == single_rank(b)
}

/// The position of a pattern in the IEEE total order.
pub open spec fn single_total_key(bits: u32) -> int {
    if bits >= SINGLE_SIGN {
        0xffff_ffff - bits
    } else {
        bits + 0x8000_0000
    }
}

fn rank_of_single(bits: u32) -> (r: i64)
    ensures
        r == single_rank(bits),
{
    if bits >= SINGLE_SIGN {
        -((bits - SINGLE_SIGN) as i64)
    } else {
        bits as i64
    }
}

/// Whether a single pattern is not a number.
pub fn single_nan(bits: u32) -> (r: bool)
    ensures
        r == single_is_nan(bits),
{
    let m: u32 = if bits >= SINGLE_SIGN { bits - SINGLE_SIGN } else { bits };
    m > SINGLE_INFINITY
}

/// Whether `a < b` as single-precision numbers.
pub fn single_less(a: u32, b: u32) -> (r: bool)
    ensures
        r == single_lt(a, b),
{
    !single_nan(a) && !single_nan(b) && rank_of_single(a) < rank_of_single(b)
}

/// Whether `a <= b` as single-precision numbers.
pub fn single_less_or_equal(a: u32, b: u32) -> (r: bool)
    ensures
        r == single_le(a, b),
{
    !single_nan(a) && !single_nan(b) && rank_of_single(a) <= rank_of_single(b)
}

/// Whether `a == b` as single-precision numbers.
pub fn single_equal(a: u32, b: u32) -> (r: bool)
    ensures
        r == single_eq(a, b),
{
    !single_nan(a) && !single_nan(b) && rank_of_single(a) == rank_of_single(b)
}

/// The position of a single pattern in the total order.
pub fn single_total(bits: u32) -> (r: u32)
    ensures
        r == single_total_key(bits),
{
    if bits >= SINGLE_SIGN {
        0xffff_ffff - bits
    } else {
        bits + 0x8000_0000
    }
}

/// The single pattern at a position of the total order.
pub open spec fn single_of_key(key: int) -> u32 {
    if key >= 0x8000_0000 {
        (key - 0x8000_0000) as u32
    } else {
        (0xffff_ffff - key) as u32
    }
}

/// The single pattern at a position of the total order.
pub fn single_from_total(key: u32) -> (r: u32)
    ensures
        r == single_of_key(key as int),
{
    if key >= 0x8000_0000 {
        key - 0x8000_0000
    } else {
        0xffff_ffff - key
    }
}

/// Each pattern is the one at its position.
pub proof fn lemma_single_key(bits: u32)
    ensures
        single_of_key(single_total_key(bits)) == bits,
        0 <= single_total_key(bits) <= 0xffff_ffff,
{
}

/// The exponent of the greatest power of two that is at most `m`.
pub open spec fn floor_log2(m: nat) -> nat
    decreases m,
{
    if m < 2 {
        0
    } else {
        floor_log2(m / 2) + 1
    }
}

/// `m / d` rounded to the nearest integer, ties to the even one.
pub open spec fn round_half_even(m: nat, d: nat) -> nat {
    let q = m / d;
    let rest = m % d;
    if 2 * rest > d || (2 * rest == d && q % 2 == 1) {
        q + 1
    } else {
        q
    }
}

/// The pattern of the double nearest to the natural number `m`, ties to even. The significand
/// keeps 53 bits; one that rounds up to the next power of two carries into the exponent.
pub open spec fn double_of_nat(m: nat) -> int {
    if m == 0 {
        0
    } else {
        let e = floor_log2(m);
        let significand = if e <= 52 {
            m * pow2((52 - e) as nat)
        } else {
            round_half_even(m, pow2((e - 52) as nat))
        };
        (e + 1023) * 0x10_0000_0000_0000 + (significand - 0x10_0000_0000_0000)
    }
}

/// The pattern of the double nearest to the integer `v`.
pub open spec fn double_of_int(v: int) -> int {
    if v < 0 {
        0x8000_0000_0000_0000 + double_of_nat((-v) as nat)
    } else {
        double_of_nat(v as nat)
    }
}

pub(crate) proof fn lemma_floor_log2(m: nat, e: nat)
    requires
        pow2(e) <= m < pow2(e + 1),
    ensures
        floor_log2(m) == e,
    decreases e,
{
    lemma_pow2_unfold(e + 1);
    if e == 0 {
        lemma2_to64();
    } else {
        lemma_pow2_unfold(e);
        lemma_pow2_pos((e - 1) as nat);
        lemma_floor_log2(m / 2, (e - 1) as nat);
    }
}

/// The pattern of the double nearest to a natural number.
pub fn double_from_magnitude(m: u64) -> (r: u64)
    ensures
        r == double_of_nat(m as nat),
        r <= 0x43f0_0000_0000_0000,
{
    if m == 0 {
        return 0;
    }
    let mut e: u64 = 0;
    let mut p: u64 = 1;
    proof {
        lemma2_to64();
    }
    while p <= m / 2
        invariant
            p == pow2(e as nat),
            p <= m,
            e <= 63,
            0 < m,
            p <= 0x8000_0000_0000_0000,
        decreases m - p,
    {
        proof {
            lemma_pow2_unfold((e + 1) as nat);
            lemma2_to64_rest();
            if e == 63 {
                assert(p == 0x8000_0000_0000_0000);
            } else {
                lemma_pow2_grows((e + 1) as nat, 63);
            }
            lemma_pow2_pos(e as nat);
        }
        p = p * 2;
        e = e + 1;
    }
    proof {
        lemma_pow2_unfold((e + 1) as nat);
        lemma_floor_log2(m as nat, e as nat);
    }
    if e <= 52 {
        let mut f: u64 = e;
        let mut s: u64 = m;
        let mut scale: u64 = 1;
        proof {
            lemma2_to64();
            lemma2_to64_rest();
            assert(m * 1 == m);
        }
        while f < 52
            invariant
                e <= f <= 52,
                scale == pow2((f - e) as nat),
                s == m * scale,
                s < pow2((f + 1) as nat),
                m < pow2((e + 1) as nat),
            decreases 52 - f,
        {
            proof {
                lemma_pow2_unfold((f - e + 1) as nat);
                lemma_pow2_unfold((f + 2) as nat);
                lemma2_to64();
                lemma2_to64_rest();
                lemma_pow2_strictly_increases((f + 1) as nat, 53 + 1);
                lemma_pow2_strictly_increases((f - e) as nat, 53);
                assert(m * (2 * scale) == 2 * (m * scale)) by (nonlinear_arith);
            }
            s = s * 2;
            scale = scale * 2;
            f = f + 1;
        }
        proof {
            lemma2_to64_rest();
            assert(s >= 0x10_0000_0000_0000) by {
                lemma_pow2_adds(e as nat, (52 - e) as nat);
                assert(pow2(e as nat) * scale <= m * scale) by (nonlinear_arith)
                    requires
                        pow2(e as nat) <= m,
                ;
            }
            assert((e + 1023) * 0x10_0000_0000_0000 <= 1075 * 0x10_0000_0000_0000);
        }
        (e + 1023) * 0x10_0000_0000_0000 + (s - 0x10_0000_0000_0000)
    } else {
        let mut d: u64 = 1;
        let mut g: u64 = 52;
        proof {
            lemma2_to64();
            lemma2_to64_rest();
        }
        while g < e
            invariant
                52 <= g <= e,
                e <= 63,
                d == pow2((g - 52) as nat),
            decreases e - g,
        {
            proof {
                lemma_pow2_unfold((g - 52 + 1) as nat);
                lemma2_to64();
                lemma_pow2_strictly_increases((g - 52) as nat, 32);
            }
            d = d * 2;
            g = g + 1;
        }
        proof {
            lemma_pow2_pos((e - 52) as nat);
            lemma_pow2_strictly_increases((e - 52) as nat, 32);
            lemma2_to64();
            lemma2_to64_rest();
        }
        let q: u64 = m / d;
        let rest: u64 = m % d;
        proof {
            lemma_pow2_adds(52, (e - 52) as nat);
            lemma_pow2_adds(53, (e - 52) as nat);
            lemma_pow2_unfold((e + 1) as nat);
            assert(q >= 0x10_0000_0000_0000 && q < 0x20_0000_0000_0000) by (nonlinear_arith)
                requires
                    q == m / d,
                    d > 0,
                    m >= 0x10_0000_0000_0000 * d,
                    m < 0x20_0000_0000_0000 * d,
            ;
            assert((e + 1023) * 0x10_0000_0000_0000 <= 1086 * 0x10_0000_0000_0000);
        }
        let rounded: u64 = if 2 * rest > d || (2 * rest == d && q % 2 == 1) {
            q + 1
        } else {
            q
        };
        (e + 1023) * 0x10_0000_0000_0000 + (rounded - 0x10_0000_0000_0000)
    }
}

/// The pattern of the double nearest to an integer.
pub fn double_from_integer(v: i64) -> (r: u64)
    ensures
        r == double_of_int(v as int),
        !double_is_nan(r),
{
    if v < 0 {
        let m: u64 = (-(v as i128)) as u64;
        0x8000_0000_0000_0000 + double_from_magnitude(m)
    } else {
        double_from_magnitude(v as u64)
    }
}

/// The magnitude of the single that is nearest to a finite double of magnitude `mag`, ties to the
/// even one. Within the normal singles the patterns of both formats are scaled alike; below them
/// the significand is counted in units of the least single; and what is too great becomes
/// infinite.
pub open spec fn narrowed_magnitude(mag: nat) -> nat {
    let exponent = mag / 0x10_0000_0000_0000;
    if exponent >= 897 {
        let r = round_half_even((mag - 896 * 0x10_0000_0000_0000) as nat, 0x2000_0000);
        if r > 0x7f80_0000 {
            0x7f80_0000
        } else {
            r
        }
    } else if exponent >= 1 {
        round_half_even(
            0x10_0000_0000_0000 + mag % 0x10_0000_0000_0000,
            pow2((926 - exponent) as nat),
        )
    } else {
        0
    }
}

/// The pattern of the single that is nearest to a double.
pub open spec fn narrowed(bits: u64) -> u32 {
    let negative = bits >= 0x8000_0000_0000_0000;
    let mag = if negative {
        (bits - 0x8000_0000_0000_0000) as nat
    } else {
        bits as nat
    };
    let r = if mag > 0x7ff0_0000_0000_0000 {
        0x7fc0_0000
    } else if mag == 0x7ff0_0000_0000_0000 {
        0x7f80_0000
    } else {
        narrowed_magnitude(mag)
    };
    if negative {
        (r + 0x8000_0000) as u32
    } else {
        r as u32
    }
}

proof fn lemma_pow2_grows(a: nat, b: nat)
    requires
        a <= b,
    ensures
        0 < pow2(a) <= pow2(b),
{
    lemma_pow2_pos(a);
    if a < b {
        lemma_pow2_strictly_increases(a, b);
    }
}

proof fn lemma_pow2_values()
    ensures
        pow2(30) == 0x4000_0000,
        pow2(54) == 0x40_0000_0000_0000,
        pow2(55) == 0x80_0000_0000_0000,
{
    lemma2_to64();
    lemma2_to64_rest();
}

/// `m / d` rounded, ties to even, for numbers whose double fits.
fn round_to_even(m: u64, d: u64) -> (r: u64)
    requires
        0 < d <= 0x80_0000_0000_0000,
        m <= 0x7fff_ffff_ffff_ffff,
    ensures
        r == round_half_even(m as nat, d as nat),
{
    let q: u64 = m / d;
    let rest: u64 = m % d;
    let half: u64 = 2 * rest;
    if half > d || (half == d && q % 2 == 1) {
        q + 1
    } else {
        q
    }
}

fn narrow_magnitude(mag: u64) -> (r: u32)
    requires
        mag < 0x7ff0_0000_0000_0000,
    ensures
        r == narrowed_magnitude(mag as nat),
        r <= 0x7f80_0000,
{
    let exponent: u64 = mag / 0x10_0000_0000_0000;
    if exponent >= 897 {
        let r: u64 = round_to_even(mag - 896 * 0x10_0000_0000_0000, 0x2000_0000);
        if r > 0x7f80_0000 {
            0x7f80_0000
        } else {
            r as u32
        }
    } else if exponent >= 1 {
        let m: u64 = 0x10_0000_0000_0000 + mag % 0x10_0000_0000_0000;
        let shift: u64 = 926 - exponent;
        proof {
            lemma_pow2_values();
        }
        if shift >= 55 {
            proof {
                lemma_pow2_grows(55, shift as nat);
                let d = pow2(shift as nat);
                assert(m as nat / d == 0) by {
                    vstd::arithmetic::div_mod::lemma_basic_div(m as int, d as int);
                }
                vstd::arithmetic::div_mod::lemma_small_mod(m as nat, d);
            }
            return 0;
        }
        let mut d: u64 = 1;
        let mut k: u64 = 0;
        proof {
            lemma2_to64();
        }
        while k < shift
            invariant
                k <= shift < 55,
                d == pow2(k as nat),
                d <= 0x40_0000_0000_0000,
            decreases shift - k,
        {
            proof {
                lemma_pow2_values();
                lemma_pow2_grows((k + 1) as nat, 54);
                lemma_pow2_unfold((k + 1) as nat);
            }
            d = 2 * d;
            k += 1;
        }
        proof {
            lemma_pow2_grows(30, shift as nat);
            assert(m / d <= 0x80_0000) by {
                assert(d >= 0x4000_0000);
                assert(m < 0x20_0000_0000_0000);
                assert(m / d <= m / 0x4000_0000) by (nonlinear_arith)
                    requires
                        d >= 0x4000_0000,
                        m >= 0,
                ;
            }
        }
        round_to_even(m, d) as u32
    } else {
        0
    }
}

/// The pattern of the single that is nearest to a double.
pub fn narrow(bits: u64) -> (r: u32)
    ensures
        r == narrowed(bits),
{
    let negative: bool = bits >= 0x8000_0000_0000_0000;
    let mag: u64 = if negative {
        bits - 0x8000_0000_0000_0000
    } else {
        bits
    };
    let r: u32 = if mag > 0x7ff0_0000_0000_0000 {
        0x7fc0_0000
    } else if mag == 0x7ff0_0000_0000_0000 {
        0x7f80_0000
    } else {
        narrow_magnitude(mag)
    };
    if negative {
        r + 0x8000_0000
    } else {
        r
    }
}

pub(crate) proof fn lemma_floor_log2_bounds(m: nat)
    requires
        m > 0,
    ensures
        pow2(floor_log2(m)) <= m < pow2(floor_log2(m) + 1),
    decreases m,
{
    lemma2_to64();
    if m >= 2 {
        lemma_floor_log2_bounds(m / 2);
        lemma_pow2_unfold(floor_log2(m));
        lemma_pow2_unfold(floor_log2(m) + 1);
    }
}

/// The magnitude of the double that a finite single of magnitude `mag` is. Below the normal singles
/// the significand counts units of the least single, which is two to the power of -149.
pub open spec fn widened_magnitude(mag: nat) -> int {
    if mag >= 0x80_0000 {
        (mag * 0x2000_0000 + 896 * 0x10_0000_0000_0000) as int
    } else if mag == 0 {
        0
    } else {
        double_of_nat(mag) - 149 * 0x10_0000_0000_0000
    }
}

/// The pattern of the double that a finite single is.
pub open spec fn widened(bits: u32) -> u64 {
    if bits >= 0x8000_0000 {
        (widened_magnitude((bits - 0x8000_0000) as nat) + 0x8000_0000_0000_0000) as u64
    } else {
        widened_magnitude(bits as nat) as u64
    }
}

/// Whether a single is a number that is not infinite.
pub open spec fn single_is_finite(bits: u32) -> bool {
    bits % 0x8000_0000 < 0x7f80_0000
}

/// Whether a double is a number that is not infinite.
pub open spec fn double_is_finite(bits: u64) -> bool {
    bits % 0x8000_0000_0000_0000 < 0x7ff0_0000_0000_0000
}

proof fn lemma_widened_small(mag: nat)
    requires
        0 < mag < 0x80_0000,
    ensures
        0 < widened_magnitude(mag) < 897 * 0x10_0000_0000_0000,
        narrowed_magnitude(widened_magnitude(mag) as nat) == mag,
{
    let e = floor_log2(mag);
    lemma_floor_log2_bounds(mag);
    lemma2_to64();
    lemma2_to64_rest();
    assert(pow2(23) == 0x80_0000);
    if e >= 23 {
        lemma_pow2_grows(23, e);
    }
    let d = pow2((52 - e) as nat);
    lemma_pow2_pos((52 - e) as nat);
    lemma_pow2_adds(e, (52 - e) as nat);
    lemma_pow2_adds((e + 1) as nat, (52 - e) as nat);
    assert(pow2(52) == 0x10_0000_0000_0000 && pow2(53) == 0x20_0000_0000_0000);
    assert(0x10_0000_0000_0000 <= mag * d < 0x20_0000_0000_0000) by (nonlinear_arith)
        requires
            pow2(e) <= mag < pow2(e + 1),
            d > 0,
            pow2(e) * d == 0x10_0000_0000_0000,
            pow2(e + 1) * d == 0x20_0000_0000_0000,
    ;
    let w = widened_magnitude(mag);
    assert(w == (e + 874) * 0x10_0000_0000_0000 + (mag * d - 0x10_0000_0000_0000));
    assert(w as nat / 0x10_0000_0000_0000 == e + 874);
    assert(0x10_0000_0000_0000 + (w as nat) % 0x10_0000_0000_0000 == mag * d);
    assert(926 - (e + 874) == 52 - e);
    vstd::arithmetic::div_mod::lemma_div_multiples_vanish(mag as int, d as int);
    vstd::arithmetic::div_mod::lemma_mod_multiples_basic(mag as int, d as int);
    assert(mag * d == d * mag) by (nonlinear_arith);
    assert((mag * d) as nat / d == mag && (mag * d) as nat % d == 0);
}

/// A finite single is kept by widening and narrowing.
pub proof fn law_widened_narrowed(bits: u32)
    requires
        single_is_finite(bits),
    ensures
        narrowed(widened(bits)) == bits,
        double_is_finite(widened(bits)),
{
    let mag: nat = (bits % 0x8000_0000) as nat;
    let w = widened_magnitude(mag);
    if mag >= 0x80_0000 {
        let q = (w - 896 * 0x10_0000_0000_0000) as nat;
        assert(q == mag * 0x2000_0000);
        assert(q / 0x2000_0000 == mag && q % 0x2000_0000 == 0);
        assert(w as nat / 0x10_0000_0000_0000 >= 897);
    } else if mag > 0 {
        lemma_widened_small(mag);
    }
    assert(0 <= w < 0x7ff0_0000_0000_0000);
    assert(narrowed_magnitude(w as nat) == mag);
}

/// The pattern of the double that a finite single is.
pub fn widen(bits: u32) -> (r: u64)
    requires
        single_is_finite(bits),
    ensures
        r == widened(bits),
{
    let negative: bool = bits >= 0x8000_0000;
    let mag: u64 = if negative {
        (bits - 0x8000_0000) as u64
    } else {
        bits as u64
    };
    let w: u64 = if mag >= 0x80_0000 {
        mag * 0x2000_0000 + 896 * 0x10_0000_0000_0000
    } else if mag == 0 {
        0
    } else {
        proof {
            lemma_widened_small(mag as nat);
        }
        double_from_magnitude(mag) - 149 * 0x10_0000_0000_0000
    };
    if negative {
        w + 0x8000_0000_0000_0000
    } else {
        w
    }
}

/// Whether a single is a number that is not infinite.
pub fn single_finite(bits: u32) -> (r: bool)
    ensures
        r == single_is_finite(bits),
{
    bits % 0x8000_0000 < 0x7f80_0000
}

/// Whether a double is a number that is not infinite.
pub fn double_finite(bits: u64) -> (r: bool)
    ensures
        r == double_is_finite(bits),
{
    bits % 0x8000_0000_0000_0000 < 0x7ff0_0000_0000_0000
}

} // verus!
